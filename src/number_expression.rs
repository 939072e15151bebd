use vstd::prelude::*;
use vstd::string::*;

verus! {

/// The operator that joins a term to the term after it.
#[derive(Clone, Copy, Debug, PartialEq, Eq, Structural)]
pub enum Op {
    Addition,
    Subtraction,
}

/// A number in `0..=255`, the value of an expression such as `"10-2+1"`.
#[derive(Clone, Copy, Debug, PartialEq, Eq, Structural)]
pub struct NumberExpression(pub u8);

/// Why an expression was rejected.
#[derive(Clone, Debug, PartialEq, Eq)]
pub enum ExprError {
    /// A term of `input` is not a decimal integer in `0..=255`. `token` is the
    /// term as it stands in the input, with the operator that ends it.
    BadInput { input: String, token: String },
    /// A step of the evaluation of `input` would leave `0..=255`.
    IntegerOverflow { input: String },
}

/// The whole expression that an error is about.
pub open spec fn error_input(e: ExprError) -> Seq<char> {
    match e {
        ExprError::BadInput { input, .. } => input@,
        ExprError::IntegerOverflow { input } => input@,
    }
}

/// An `ExprError` with its token as a sequence of characters.
pub enum Fault {
    BadInput(Seq<char>),
    IntegerOverflow,
}

impl View for ExprError {
    type V = Fault;

    open spec fn view(&self) -> Fault {
        match self {
            ExprError::BadInput { token, .. } => Fault::BadInput(token@),
            ExprError::IntegerOverflow { .. } => Fault::IntegerOverflow,
        }
    }
}

pub open spec fn is_operator(c: char) -> bool {
    c == '+' || c == '-'
}

/// The characters that have Unicode's White_Space property.
pub open spec fn white_space(c: char) -> bool {
    ('\u{9}' <= c && c <= '\u{d}') || c == ' ' || c == '\u{85}' || c == '\u{a0}' || c
        == '\u{1680}' || ('\u{2000}' <= c && c <= '\u{200a}') || c == '\u{2028}' || c == '\u{2029}'
        || c == '\u{202f}' || c == '\u{205f}' || c == '\u{3000}'
}

pub open spec fn is_digit(c: char) -> bool {
    '0' <= c && c <= '9'
}

pub open spec fn all_digits(s: Seq<char>) -> bool {
    forall|i: int| 0 <= i < s.len() ==> is_digit(#[trigger] s[i])
}

/// The number that a string of decimal digits denotes.
pub open spec fn digits_value(s: Seq<char>) -> int
    decreases s.len(),
{
    if s.len() == 0 {
        0
    } else {
        digits_value(s.drop_last()) * 10 + (s.last() as int - '0' as int)
    }
}

/// How many whitespace characters `s` starts with.
pub open spec fn leading_space(s: Seq<char>) -> nat
    decreases s.len(),
{
    if s.len() > 0 && white_space(s[0]) {
        1 + leading_space(s.drop_first())
    } else {
        0
    }
}

/// How many whitespace characters `s` ends with.
pub open spec fn trailing_space(s: Seq<char>) -> nat
    decreases s.len(),
{
    if s.len() > 0 && white_space(s.last()) {
        1 + trailing_space(s.drop_last())
    } else {
        0
    }
}

/// `s` without the whitespace at either end.
pub open spec fn trim(s: Seq<char>) -> Seq<char> {
    let t = s.subrange(leading_space(s) as int, s.len() as int);
    t.subrange(0, t.len() - trailing_space(t))
}

/// The value of one term: a decimal integer in `0..=255`, with whitespace
/// allowed round it.
pub open spec fn term_value(body: Seq<char>) -> Option<u8> {
    let t = trim(body);
    if t.len() > 0 && all_digits(t) && digits_value(t) <= 255 {
        Some(digits_value(t) as u8)
    } else {
        None
    }
}

/// The index of the first `+` or `-` in `s`, or its length where there is none.
pub open spec fn first_operator(s: Seq<char>) -> nat
    decreases s.len(),
{
    if s.len() == 0 {
        0
    } else if is_operator(s[0]) {
        0
    } else {
        1 + first_operator(s.drop_first())
    }
}

/// Where the first term of `s` ends, before its operator.
pub open spec fn term_end(s: Seq<char>) -> int {
    if first_operator(s) < s.len() {
        first_operator(s) as int
    } else {
        s.len() as int
    }
}

/// Where the first token of `s` ends: after the operator that ends its term.
pub open spec fn token_end(s: Seq<char>) -> int {
    if term_end(s) < s.len() {
        term_end(s) + 1
    } else {
        s.len() as int
    }
}

/// The operator that ends the first token of `s`; a last token adds.
pub open spec fn token_operator(s: Seq<char>) -> Op {
    if term_end(s) < s.len() && s[term_end(s)] == '-' {
        Op::Subtraction
    } else {
        Op::Addition
    }
}

pub open spec fn combine(op: Op, total: int, v: int) -> int {
    match op {
        Op::Addition => total + v,
        Op::Subtraction => total - v,
    }
}

/// Evaluates the tokens of `s` from the left, starting from `total`, with `op`
/// the operator that joins the first of them to what came before.
pub open spec fn eval_from(s: Seq<char>, total: u8, op: Op) -> Result<u8, Fault>
    decreases s.len(),
{
    if s.len() == 0 {
        Ok(total)
    } else {
        match term_value(s.subrange(0, term_end(s))) {
            None => Err(Fault::BadInput(s.subrange(0, token_end(s)))),
            Some(v) => {
                let t = combine(op, total as int, v as int);
                if 0 <= t <= 255 {
                    eval_from(s.subrange(token_end(s), s.len() as int), t as u8, token_operator(s))
                } else {
                    Err(Fault::IntegerOverflow)
                }
            },
        }
    }
}

/// The value of the expression `s`.
pub open spec fn expression_value(s: Seq<char>) -> Result<u8, Fault> {
    eval_from(s, 0, Op::Addition)
}

/// Relies on `char::is_whitespace`: true exactly on the characters that have
/// Unicode's White_Space property.
#[verifier::external_body]
fn is_whitespace(c: char) -> (r: bool)
    ensures
        r == white_space(c),
{
    c.is_whitespace()
}

proof fn lemma_first_operator(s: Seq<char>, k: int)
    requires
        0 <= k <= s.len(),
        forall|j: int| 0 <= j < k ==> !is_operator(#[trigger] s[j]),
        k == s.len() || is_operator(s[k]),
    ensures
        first_operator(s) == k,
    decreases k,
{
    if k > 0 {
        lemma_first_operator(s.drop_first(), k - 1);
    }
}

proof fn lemma_leading_space(s: Seq<char>, k: int)
    requires
        0 <= k <= s.len(),
        forall|j: int| 0 <= j < k ==> white_space(#[trigger] s[j]),
        k == s.len() || !white_space(s[k]),
    ensures
        leading_space(s) == k,
    decreases k,
{
    if k > 0 {
        lemma_leading_space(s.drop_first(), k - 1);
    }
}

proof fn lemma_trailing_space(s: Seq<char>, k: int)
    requires
        0 <= k <= s.len(),
        forall|j: int| s.len() - k <= j < s.len() ==> white_space(#[trigger] s[j]),
        k == s.len() || !white_space(s[s.len() - k - 1]),
    ensures
        trailing_space(s) == k,
    decreases k,
{
    if k > 0 {
        lemma_trailing_space(s.drop_last(), k - 1);
    }
}

/// A prefix of a string of digits denotes at most what the whole string does.
proof fn lemma_digits_prefix(s: Seq<char>, j: int)
    requires
        all_digits(s),
        0 <= j <= s.len(),
    ensures
        0 <= digits_value(s.subrange(0, j)) <= digits_value(s),
    decreases s.len(),
{
    if j == s.len() {
        assert(s.subrange(0, j) =~= s);
        if j > 0 {
            lemma_digits_prefix(s.drop_last(), j - 1);
            assert(s.drop_last().subrange(0, j - 1) =~= s.drop_last());
        }
    } else {
        lemma_digits_prefix(s.drop_last(), j);
        assert(s.drop_last().subrange(0, j) =~= s.subrange(0, j));
    }
}

/// The index of the first operator at or after `start`, or `n`.
fn find_operator(s: &str, start: usize, n: usize) -> (k: usize)
    requires
        n == s@.len(),
        start <= n,
    ensures
        start <= k <= n,
        first_operator(s@.subrange(start as int, n as int)) == k - start,
        k < n ==> is_operator(s@[k as int]),
{
    let mut k = start;
    while k < n && !(s.get_char(k) == '+' || s.get_char(k) == '-')
        invariant
            n == s@.len(),
            start <= k <= n,
            forall|j: int| start <= j < k ==> !is_operator(#[trigger] s@[j]),
        decreases n - k,
    {
        k = k + 1;
    }
    proof {
        let rest = s@.subrange(start as int, n as int);
        assert forall|j: int| 0 <= j < k - start implies !is_operator(#[trigger] rest[j]) by {
            assert(rest[j] == s@[start + j]);
        }
        lemma_first_operator(rest, k - start);
    }
    k
}

/// The value of the term `s[lo..hi]`.
fn term(s: &str, lo: usize, hi: usize) -> (r: Option<u8>)
    requires
        lo <= hi <= s@.len(),
    ensures
        r == term_value(s@.subrange(lo as int, hi as int)),
{
    let ghost body = s@.subrange(lo as int, hi as int);
    let mut a = lo;
    while a < hi && is_whitespace(s.get_char(a))
        invariant
            lo <= a <= hi <= s@.len(),
            forall|j: int| lo <= j < a ==> white_space(#[trigger] s@[j]),
        decreases hi - a,
    {
        a = a + 1;
    }
    proof {
        assert forall|j: int| 0 <= j < a - lo implies white_space(#[trigger] body[j]) by {
            assert(body[j] == s@[lo + j]);
        }
        lemma_leading_space(body, a - lo);
    }
    let mut b = hi;
    while b > a && is_whitespace(s.get_char(b - 1))
        invariant
            lo <= a <= b <= hi <= s@.len(),
            forall|j: int| b <= j < hi ==> white_space(#[trigger] s@[j]),
        decreases b - a,
    {
        b = b - 1;
    }
    let ghost t = s@.subrange(a as int, b as int);
    proof {
        let u = body.subrange(leading_space(body) as int, body.len() as int);
        assert(u =~= s@.subrange(a as int, hi as int));
        assert forall|j: int| u.len() - (hi - b) <= j < u.len() implies white_space(
            #[trigger] u[j],
        ) by {
            assert(u[j] == s@[a + j]);
        }
        lemma_trailing_space(u, hi - b);
        assert(trim(body) =~= t);
    }
    if a == b {
        return None;
    }
    let mut value: u32 = 0;
    let mut i = a;
    while i < b
        invariant
            a <= i <= b <= s@.len(),
            t == s@.subrange(a as int, b as int),
            body == s@.subrange(lo as int, hi as int),
            trim(body) == t,
            value <= 255,
            all_digits(s@.subrange(a as int, i as int)),
            value == digits_value(s@.subrange(a as int, i as int)),
        decreases b - i,
    {
        let c = s.get_char(i);
        if !('0' <= c && c <= '9') {
            assert(t[i - a] == c);
            assert(!all_digits(t));
            return None;
        }
        let ghost prefix = s@.subrange(a as int, i + 1);
        proof {
            assert(prefix.drop_last() =~= s@.subrange(a as int, i as int));
            assert(prefix.last() == c);
        }
        value = value * 10 + (c as u32 - '0' as u32);
        i = i + 1;
        if value > 255 {
            proof {
                if all_digits(t) {
                    assert(t.subrange(0, i - a) =~= prefix);
                    lemma_digits_prefix(t, i - a);
                }
            }
            return None;
        }
    }
    proof {
        assert(s@.subrange(a as int, i as int) =~= t);
    }
    Some(value as u8)
}

impl NumberExpression {
    /// Evaluates `s`: terms joined by `+` and `-`, taken from the left.
    pub fn parse(s: &str) -> (r: Result<NumberExpression, ExprError>)
        ensures
            match r {
                Ok(n) => expression_value(s@) == Ok::<u8, Fault>(n.0),
                Err(e) => expression_value(s@) == Err::<u8, Fault>(e@) && error_input(e) == s@,
            },
    {
        let n = s.unicode_len();
        let mut total: u8 = 0;
        let mut op = Op::Addition;
        let mut start: usize = 0;
        proof {
            assert(s@.subrange(0, n as int) =~= s@);
        }
        while start < n
            invariant
                n == s@.len(),
                start <= n,
                eval_from(s@.subrange(start as int, n as int), total, op) == expression_value(s@),
            decreases n - start,
        {
            let ghost rest = s@.subrange(start as int, n as int);
            let k = find_operator(s, start, n);
            let end = if k < n {
                k + 1
            } else {
                n
            };
            let next = if k < n && s.get_char(k) == '-' {
                Op::Subtraction
            } else {
                Op::Addition
            };
            proof {
                assert(rest.subrange(0, term_end(rest)) =~= s@.subrange(start as int, k as int));
                assert(rest.subrange(0, token_end(rest)) =~= s@.subrange(start as int, end as int));
                assert(rest.subrange(token_end(rest), rest.len() as int) =~= s@.subrange(
                    end as int,
                    n as int,
                ));
                if k < n {
                    assert(rest[k - start] == s@[k as int]);
                }
                assert(token_operator(rest) == next);
            }
            match term(s, start, k) {
                None => {
                    return Err(
                        ExprError::BadInput {
                            input: s.to_owned(),
                            token: s.substring_char(start, end).to_owned(),
                        },
                    );
                },
                Some(v) => {
                    match op {
                        Op::Addition => {
                            if v > 255 - total {
                                return Err(ExprError::IntegerOverflow { input: s.to_owned() });
                            }
                            total = total + v;
                        },
                        Op::Subtraction => {
                            if v > total {
                                return Err(ExprError::IntegerOverflow { input: s.to_owned() });
                            }
                            total = total - v;
                        },
                    }
                },
            }
            op = next;
            start = end;
        }
        proof {
            assert(s@.subrange(start as int, n as int).len() == 0);
        }
        Ok(NumberExpression(total))
    }
}

/// The character that writes `op`.
pub open spec fn op_char(op: Op) -> char {
    match op {
        Op::Addition => '+',
        Op::Subtraction => '-',
    }
}

pub open spec fn digit_char(d: nat) -> char {
    if d == 0 {
        '0'
    } else if d == 1 {
        '1'
    } else if d == 2 {
        '2'
    } else if d == 3 {
        '3'
    } else if d == 4 {
        '4'
    } else if d == 5 {
        '5'
    } else if d == 6 {
        '6'
    } else if d == 7 {
        '7'
    } else if d == 8 {
        '8'
    } else {
        '9'
    }
}

/// The decimal digits of `n`, most significant first, with no leading zero.
pub open spec fn decimal(n: nat) -> Seq<char>
    decreases n,
{
    if n < 10 {
        seq![digit_char(n)]
    } else {
        decimal(n / 10).push(digit_char(n % 10))
    }
}

/// The terms `terms` written one after the other, `ops[i]` between `terms[i]`
/// and `terms[i + 1]`.
pub open spec fn join_terms(terms: Seq<Seq<char>>, ops: Seq<Op>) -> Seq<char>
    decreases terms.len(),
{
    if terms.len() == 0 {
        Seq::empty()
    } else if terms.len() == 1 {
        terms[0]
    } else {
        terms[0].push(op_char(ops[0])) + join_terms(terms.drop_first(), ops.drop_first())
    }
}

/// Evaluates the terms `terms`, joined by `ops`, from the left.
pub open spec fn eval_terms(terms: Seq<Seq<char>>, ops: Seq<Op>, total: u8, op: Op) -> Result<
    u8,
    Fault,
>
    decreases terms.len(),
{
    if terms.len() == 0 {
        Ok(total)
    } else {
        let token = if terms.len() > 1 {
            terms[0].push(op_char(ops[0]))
        } else {
            terms[0]
        };
        let next = if terms.len() > 1 {
            ops[0]
        } else {
            Op::Addition
        };
        match term_value(terms[0]) {
            None => Err(Fault::BadInput(token)),
            Some(v) => {
                let t = combine(op, total as int, v as int);
                if 0 <= t <= 255 {
                    eval_terms(terms.drop_first(), ops.drop_first(), t as u8, next)
                } else {
                    Err(Fault::IntegerOverflow)
                }
            },
        }
    }
}

/// Each term has a character and no operator, and one operator stands between
/// two terms.
pub open spec fn well_joined(terms: Seq<Seq<char>>, ops: Seq<Op>) -> bool {
    &&& terms.len() >= 1
    &&& ops.len() == terms.len() - 1
    &&& forall|i: int| 0 <= i < terms.len() ==> #[trigger] terms[i].len() > 0
    &&& forall|i: int, j: int|
        0 <= i < terms.len() && 0 <= j < terms[i].len() ==> !is_operator(#[trigger] terms[i][j])
}

/// The terms that write the numbers `nums` in decimal.
pub open spec fn decimal_terms(nums: Seq<u8>) -> Seq<Seq<char>> {
    Seq::new(nums.len(), |i: int| decimal(nums[i] as nat))
}

proof fn lemma_digit_char(d: nat)
    requires
        d < 10,
    ensures
        is_digit(digit_char(d)),
        digit_char(d) as int - '0' as int == d,
{
}

proof fn lemma_decimal(n: nat)
    ensures
        decimal(n).len() > 0,
        all_digits(decimal(n)),
        digits_value(decimal(n)) == n,
    decreases n,
{
    reveal_with_fuel(digits_value, 2);
    if n < 10 {
        lemma_digit_char(n);
        assert(decimal(n).drop_last() =~= Seq::<char>::empty());
    } else {
        lemma_decimal(n / 10);
        lemma_digit_char(n % 10);
        let d = decimal(n);
        assert(d.drop_last() =~= decimal(n / 10));
        assert(d.last() == digit_char(n % 10));
        assert(n == (n / 10) * 10 + n % 10);
        assert forall|i: int| 0 <= i < d.len() implies is_digit(#[trigger] d[i]) by {
            if i < d.len() - 1 {
                assert(d[i] == decimal(n / 10)[i]);
            }
        }
    }
}

/// A number written in decimal, with whitespace round it, is a term of that value.
proof fn lemma_padded_term(left: Seq<char>, n: u8, right: Seq<char>)
    requires
        forall|i: int| 0 <= i < left.len() ==> white_space(#[trigger] left[i]),
        forall|i: int| 0 <= i < right.len() ==> white_space(#[trigger] right[i]),
    ensures
        term_value(left + decimal(n as nat) + right) == Some(n),
{
    let d = decimal(n as nat);
    lemma_decimal(n as nat);
    let s = left + d + right;
    assert forall|j: int| 0 <= j < left.len() implies white_space(#[trigger] s[j]) by {
        assert(s[j] == left[j]);
    }
    assert(s[left.len() as int] == d[0]);
    assert(is_digit(d[0]));
    lemma_leading_space(s, left.len() as int);
    let u = s.subrange(left.len() as int, s.len() as int);
    assert(u =~= d + right);
    assert forall|j: int| u.len() - right.len() <= j < u.len() implies white_space(
        #[trigger] u[j],
    ) by {
        assert(u[j] == right[j - d.len()]);
    }
    assert(u[u.len() - right.len() - 1] == d[d.len() - 1]);
    assert(is_digit(d[d.len() - 1]));
    lemma_trailing_space(u, right.len() as int);
    assert(trim(s) =~= d);
}

/// Evaluating the text of joined terms is evaluating the terms one by one.
proof fn lemma_eval_join(terms: Seq<Seq<char>>, ops: Seq<Op>, total: u8, op: Op)
    requires
        well_joined(terms, ops),
    ensures
        eval_from(join_terms(terms, ops), total, op) == eval_terms(terms, ops, total, op),
    decreases terms.len(),
{
    let s = join_terms(terms, ops);
    let t0 = terms[0];
    assert forall|j: int| 0 <= j < t0.len() implies !is_operator(#[trigger] t0[j]) by {
        assert(!is_operator(terms[0][j]));
    }
    reveal_with_fuel(eval_from, 2);
    reveal_with_fuel(eval_terms, 2);
    if terms.len() == 1 {
        lemma_first_operator(s, s.len() as int);
        assert(s.subrange(0, s.len() as int) =~= s);
    } else {
        let rest = join_terms(terms.drop_first(), ops.drop_first());
        assert(s =~= t0.push(op_char(ops[0])) + rest);
        assert forall|j: int| 0 <= j < t0.len() implies !is_operator(#[trigger] s[j]) by {
            assert(s[j] == t0[j]);
        }
        assert(s[t0.len() as int] == op_char(ops[0]));
        lemma_first_operator(s, t0.len() as int);
        assert(s.subrange(0, t0.len() as int) =~= t0);
        assert(s.subrange(0, t0.len() as int + 1) =~= t0.push(op_char(ops[0])));
        assert(s.subrange(t0.len() as int + 1, s.len() as int) =~= rest);
        let tail = terms.drop_first();
        assert forall|i: int| 0 <= i < tail.len() implies #[trigger] tail[i].len() > 0 by {
            assert(tail[i] == terms[i + 1]);
        }
        assert forall|i: int, j: int|
            0 <= i < tail.len() && 0 <= j < tail[i].len() implies !is_operator(
            #[trigger] tail[i][j],
        ) by {
            assert(tail[i] == terms[i + 1]);
        }
        match term_value(t0) {
            None => {},
            Some(v) => {
                let t = combine(op, total as int, v as int);
                if 0 <= t <= 255 {
                    lemma_eval_join(tail, ops.drop_first(), t as u8, ops[0]);
                }
            },
        }
    }
}

/// Once the first `j` terms have evaluated to `t`, the rest evaluate from `t`.
proof fn lemma_eval_split(terms: Seq<Seq<char>>, ops: Seq<Op>, total: u8, op: Op, j: int, t: u8)
    requires
        ops.len() == terms.len() - 1,
        1 <= j < terms.len(),
        eval_terms(terms.take(j), ops.take(j - 1), total, op) == Ok::<u8, Fault>(t),
    ensures
        eval_terms(terms, ops, total, op) == eval_terms(terms.skip(j), ops.skip(j), t, ops[j - 1]),
    decreases j,
{
    let v = term_value(terms[0])->Some_0;
    let t1 = combine(op, total as int, v as int) as u8;
    assert(terms.take(j)[0] == terms[0]);
    reveal_with_fuel(eval_terms, 2);
    if j == 1 {
        assert(terms.skip(1) =~= terms.drop_first());
        assert(ops.skip(1) =~= ops.drop_first());
    } else {
        assert(terms.take(j).drop_first() =~= terms.drop_first().take(j - 1));
        assert(ops.take(j - 1).drop_first() =~= ops.drop_first().take(j - 2));
        assert(ops.take(j - 1)[0] == ops[0]);
        lemma_eval_split(terms.drop_first(), ops.drop_first(), t1, ops[0], j - 1, t);
        assert(terms.drop_first().skip(j - 1) =~= terms.skip(j));
        assert(ops.drop_first().skip(j - 1) =~= ops.skip(j));
    }
}

/// Terms of the same values evaluate alike.
proof fn lemma_eval_same_values(
    a: Seq<Seq<char>>,
    b: Seq<Seq<char>>,
    ops: Seq<Op>,
    total: u8,
    op: Op,
)
    requires
        a.len() == b.len(),
        forall|i: int| 0 <= i < a.len() ==> #[trigger] term_value(a[i]) is Some && term_value(a[i]) == term_value(b[i]),
    ensures
        eval_terms(a, ops, total, op) == eval_terms(b, ops, total, op),
    decreases a.len(),
{
    if a.len() > 0 {
        assert(term_value(a[0]) is Some);
        let v = term_value(a[0])->Some_0;
        let t = combine(op, total as int, v as int);
        let next = if a.len() > 1 {
            ops[0]
        } else {
            Op::Addition
        };
        assert forall|i: int| 0 <= i < a.drop_first().len() implies #[trigger] term_value(a.drop_first()[i]) is Some
            && term_value(a.drop_first()[i]) == term_value(b.drop_first()[i]) by {
            assert(term_value(a[i + 1]) is Some);
        }
        if 0 <= t <= 255 {
            lemma_eval_same_values(a.drop_first(), b.drop_first(), ops.drop_first(), t as u8, next);
        }
    }
}

proof fn lemma_decimal_terms_joined(nums: Seq<u8>, ops: Seq<Op>)
    requires
        nums.len() >= 1,
        ops.len() == nums.len() - 1,
    ensures
        well_joined(decimal_terms(nums), ops),
{
    let terms = decimal_terms(nums);
    assert forall|i: int| 0 <= i < terms.len() implies #[trigger] terms[i].len() > 0 by {
        lemma_decimal(nums[i] as nat);
    }
    assert forall|i: int, j: int|
        0 <= i < terms.len() && 0 <= j < terms[i].len() implies !is_operator(
        #[trigger] terms[i][j],
    ) by {
        lemma_decimal(nums[i] as nat);
        assert(is_digit(terms[i][j]));
    }
}

/// A number written in decimal, and nothing else, evaluates to itself.
pub proof fn lemma_decimal_round_trip(n: u8)
    ensures
        expression_value(decimal(n as nat)) == Ok::<u8, Fault>(n),
{
    let terms = seq![decimal(n as nat)];
    let ops = Seq::<Op>::empty();
    assert(decimal_terms(seq![n]) =~= terms);
    lemma_decimal_terms_joined(seq![n], ops);
    lemma_eval_join(terms, ops, 0, Op::Addition);
    lemma_decimal_term(n);
    reveal_with_fuel(eval_terms, 2);
}

/// The sum of `nums`.
pub open spec fn sum_of(nums: Seq<u8>) -> int
    decreases nums.len(),
{
    if nums.len() == 0 {
        0
    } else {
        nums[0] + sum_of(nums.drop_first())
    }
}

/// `n` operators, all of them `+`.
pub open spec fn all_additions(n: int) -> Seq<Op> {
    Seq::new(n as nat, |i: int| Op::Addition)
}

/// The numbers `nums` in decimal, each with `before[i]` ahead of it and
/// `after[i]` behind it.
pub open spec fn padded_terms(nums: Seq<u8>, before: Seq<Seq<char>>, after: Seq<Seq<char>>) -> Seq<
    Seq<char>,
> {
    Seq::new(nums.len(), |i: int| before[i] + decimal(nums[i] as nat) + after[i])
}

proof fn lemma_decimal_term(n: u8)
    ensures
        term_value(decimal(n as nat)) == Some(n),
{
    lemma_padded_term(Seq::empty(), n, Seq::empty());
    assert(Seq::<char>::empty() + decimal(n as nat) + Seq::<char>::empty() =~= decimal(n as nat));
}

proof fn lemma_eval_sum(nums: Seq<u8>, total: u8)
    requires
        total + sum_of(nums) <= 255,
    ensures
        eval_terms(decimal_terms(nums), all_additions(nums.len() - 1), total, Op::Addition)
            == Ok::<u8, Fault>((total + sum_of(nums)) as u8),
    decreases nums.len(),
{
    reveal_with_fuel(sum_of, 2);
    reveal_with_fuel(eval_terms, 2);
    if nums.len() > 0 {
        lemma_sum_nonneg(nums.drop_first());
        lemma_decimal_term(nums[0]);
        let terms = decimal_terms(nums);
        assert(terms.drop_first() =~= decimal_terms(nums.drop_first()));
        if nums.len() > 1 {
            assert(all_additions(nums.len() - 1).drop_first() =~= all_additions(
                nums.drop_first().len() - 1,
            ));
        } else {
            assert(nums.drop_first().len() == 0);
        }
        lemma_eval_sum(nums.drop_first(), (total + nums[0]) as u8);
    }
}

proof fn lemma_sum_nonneg(nums: Seq<u8>)
    ensures
        sum_of(nums) >= 0,
    decreases nums.len(),
{
    if nums.len() > 0 {
        lemma_sum_nonneg(nums.drop_first());
    }
}

/// Numbers joined by `+` whose sum is at most 255 evaluate to that sum.
pub proof fn lemma_sum_of_terms(nums: Seq<u8>)
    requires
        nums.len() >= 1,
        sum_of(nums) <= 255,
    ensures
        sum_of(nums) >= 0,
        expression_value(join_terms(decimal_terms(nums), all_additions(nums.len() - 1)))
            == Ok::<u8, Fault>(sum_of(nums) as u8),
{
    lemma_sum_nonneg(nums);
    lemma_decimal_terms_joined(nums, all_additions(nums.len() - 1));
    lemma_eval_join(decimal_terms(nums), all_additions(nums.len() - 1), 0, Op::Addition);
    lemma_eval_sum(nums, 0);
}

/// Where the number after a `-` exceeds the value of everything before it,
/// the expression is rejected as an overflow.
pub proof fn lemma_subtraction_underflow(nums: Seq<u8>, ops: Seq<Op>, j: int, t: u8)
    requires
        ops.len() == nums.len() - 1,
        1 <= j < nums.len(),
        ops[j - 1] == Op::Subtraction,
        expression_value(join_terms(decimal_terms(nums.take(j)), ops.take(j - 1))) == Ok::<
            u8,
            Fault,
        >(t),
        nums[j] > t,
    ensures
        expression_value(join_terms(decimal_terms(nums), ops)) == Err::<u8, Fault>(
            Fault::IntegerOverflow,
        ),
{
    let terms = decimal_terms(nums);
    assert(decimal_terms(nums.take(j)) =~= terms.take(j));
    lemma_decimal_terms_joined(nums, ops);
    lemma_decimal_terms_joined(nums.take(j), ops.take(j - 1));
    lemma_eval_join(terms, ops, 0, Op::Addition);
    lemma_eval_join(terms.take(j), ops.take(j - 1), 0, Op::Addition);
    lemma_eval_split(terms, ops, 0, Op::Addition, j, t);
    assert(terms.skip(j)[0] == decimal(nums[j] as nat));
    lemma_decimal_term(nums[j]);
}

/// Whitespace before and after each number leaves the value of an expression
/// unchanged.
pub proof fn lemma_whitespace_insensitive(
    nums: Seq<u8>,
    ops: Seq<Op>,
    before: Seq<Seq<char>>,
    after: Seq<Seq<char>>,
)
    requires
        nums.len() >= 1,
        ops.len() == nums.len() - 1,
        before.len() == nums.len(),
        after.len() == nums.len(),
        forall|i: int, j: int|
            0 <= i < before.len() && 0 <= j < before[i].len() ==> white_space(
                #[trigger] before[i][j],
            ),
        forall|i: int, j: int|
            0 <= i < after.len() && 0 <= j < after[i].len() ==> white_space(#[trigger] after[i][j]),
    ensures
        expression_value(join_terms(padded_terms(nums, before, after), ops)) == expression_value(
            join_terms(decimal_terms(nums), ops),
        ),
{
    let plain = decimal_terms(nums);
    let padded = padded_terms(nums, before, after);
    lemma_decimal_terms_joined(nums, ops);
    assert forall|i: int| 0 <= i < padded.len() implies #[trigger] term_value(padded[i]) is Some
        && term_value(padded[i]) == term_value(plain[i]) by {
        let b = before[i];
        let a = after[i];
        assert forall|j: int| 0 <= j < b.len() implies white_space(#[trigger] b[j]) by {
            assert(white_space(before[i][j]));
        }
        assert forall|j: int| 0 <= j < a.len() implies white_space(#[trigger] a[j]) by {
            assert(white_space(after[i][j]));
        }
        lemma_padded_term(b, nums[i], a);
        lemma_decimal_term(nums[i]);
    }
    assert forall|i: int| 0 <= i < padded.len() implies #[trigger] padded[i].len() > 0 by {
        lemma_decimal(nums[i] as nat);
    }
    assert forall|i: int, j: int|
        0 <= i < padded.len() && 0 <= j < padded[i].len() implies !is_operator(
        #[trigger] padded[i][j],
    ) by {
        let b = before[i];
        let d = decimal(nums[i] as nat);
        lemma_decimal(nums[i] as nat);
        if j < b.len() {
            assert(padded[i][j] == before[i][j]);
            assert(white_space(before[i][j]));
        } else if j < b.len() + d.len() {
            assert(padded[i][j] == d[j - b.len()]);
            assert(is_digit(d[j - b.len()]));
        } else {
            assert(padded[i][j] == after[i][j - b.len() - d.len()]);
            assert(white_space(after[i][j - b.len() - d.len()]));
        }
    }
    lemma_eval_join(padded, ops, 0, Op::Addition);
    lemma_eval_join(plain, ops, 0, Op::Addition);
    lemma_eval_same_values(padded, plain, ops, 0, Op::Addition);
}

impl From<NumberExpression> for u8 {
    fn from(item: NumberExpression) -> (r: u8)
        ensures
            r == item.0,
    {
        item.0
    }
}

impl vstd::std_specs::convert::FromSpecImpl<NumberExpression> for u8 {
    open spec fn obeys_from_spec() -> bool {
        true
    }

    open spec fn from_spec(v: NumberExpression) -> u8 {
        v.0
    }
}

impl std::str::FromStr for NumberExpression {
    type Err = ExprError;

    fn from_str(s: &str) -> (r: Result<NumberExpression, ExprError>)
        ensures
            match r {
                Ok(n) => expression_value(s@) == Ok::<u8, Fault>(n.0),
                Err(e) => expression_value(s@) == Err::<u8, Fault>(e@) && error_input(e) == s@,
            },
    {
        NumberExpression::parse(s)
    }
}

} // verus!
