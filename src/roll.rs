use vstd::prelude::*;
use rand::rngs::ThreadRng;
use rand::Rng;
use std::collections::BTreeMap;

verus! {

/// rand's thread-local generator, opaque here: it is only handed on to the
/// draws.
#[verifier::external_type_specification]
#[verifier::external_body]
pub struct ExThreadRng(ThreadRng);

/// How many times `v` occurs in `s`.
pub open spec fn occurrences(s: Seq<u8>, v: u8) -> nat
    decreases s.len(),
{
    if s.len() == 0 {
        0
    } else {
        occurrences(s.drop_last(), v) + if s.last() == v {
            1nat
        } else {
            0nat
        }
    }
}

/// How many times `counts` records `v`: none where `v` is not a key.
pub open spec fn count_in(counts: Map<u8, usize>, v: u8) -> nat {
    if counts.contains_key(v) {
        counts[v] as nat
    } else {
        0
    }
}

/// `m` is the number of matches among the successful values `s`: one less than
/// the largest number of times a value occurs, and 0 where no value repeats.
pub open spec fn is_match_count(s: Seq<u8>, m: nat) -> bool {
    &&& forall|v: u8| occurrences(s, v) <= m + 1
    &&& m > 0 ==> exists|v: u8| occurrences(s, v) == m + 1
}

/// The rolls of `rolls` that meet `difficulty`, in the order rolled.
pub open spec fn successes_of(rolls: Seq<u8>, difficulty: u8) -> Seq<u8>
    decreases rolls.len(),
{
    if rolls.len() == 0 {
        Seq::empty()
    } else if rolls.last() >= difficulty {
        successes_of(rolls.drop_last(), difficulty).push(rolls.last())
    } else {
        successes_of(rolls.drop_last(), difficulty)
    }
}

/// Whether a 1 was rolled while nothing met `difficulty`.
pub open spec fn is_critical_failure(rolls: Seq<u8>, difficulty: u8) -> bool {
    rolls.contains(1u8) && successes_of(rolls, difficulty).len() == 0
}

/// The outcome of a pool of dice.
#[derive(Clone, Copy, Debug, PartialEq, Eq, Structural)]
pub struct RollReport {
    /// How many dice met the difficulty.
    pub successes: u8,
    /// Repeated successful values; 0 on a critical failure, where they are not counted.
    pub matches: u8,
    /// A 1 was rolled and no die met the difficulty.
    pub critical_failure: bool,
}

proof fn lemma_occurrences_bound(s: Seq<u8>, v: u8)
    ensures
        occurrences(s, v) <= s.len(),
    decreases s.len(),
{
    if s.len() > 0 {
        lemma_occurrences_bound(s.drop_last(), v);
    }
}

/// The number of matches among the successful values `successes`.
pub fn get_matches(successes: &[u8]) -> (r: u8)
    requires
        successes@.len() <= 256,
    ensures
        is_match_count(successes@, r as nat),
{
    broadcast use vstd::std_specs::btree::group_btree_axioms, vstd::laws_cmp::group_laws_cmp;

    let mut counts: BTreeMap<u8, usize> = BTreeMap::new();
    let mut i: usize = 0;
    while i < successes.len()
        invariant
            i <= successes@.len() <= 256,
            forall|w: u8| #[trigger]
                count_in(counts@, w) == occurrences(successes@.subrange(0, i as int), w),
        decreases successes@.len() - i,
    {
        let x = successes[i];
        proof {
            let before = successes@.subrange(0, i as int);
            let after = successes@.subrange(0, i + 1);
            assert(after.drop_last() =~= before);
            lemma_occurrences_bound(before, x);
            assert(count_in(counts@, x) == occurrences(before, x));
        }
        let count = match counts.get(&x) {
            Some(c) => *c,
            None => 0,
        };
        let ghost before_insert = counts@;
        counts.insert(x, count + 1);
        proof {
            let after = successes@.subrange(0, i + 1);
            assert forall|w: u8| #[trigger]
                count_in(counts@, w) == occurrences(after, w) by {
                if w != x {
                    assert(count_in(counts@, w) == count_in(before_insert, w));
                }
            }
        }
        i = i + 1;
    }
    proof {
        assert(successes@.subrange(0, i as int) =~= successes@);
    }
    let mut most: usize = 0;
    let mut w: usize = 0;
    while w < 256
        invariant
            w <= 256,
            forall|u: u8| #[trigger] count_in(counts@, u) == occurrences(successes@, u),
            forall|u: u8|
                (u as int) < w ==> occurrences(successes@, u) < 2 || occurrences(successes@, u)
                    <= most,
            most == 0 || (most >= 2 && exists|u: u8| occurrences(successes@, u) == most),
            most <= successes@.len(),
        decreases 256 - w,
    {
        let key = w as u8;
        let count = match counts.get(&key) {
            Some(c) => *c,
            None => 0,
        };
        proof {
            assert(count_in(counts@, key) == count);
            lemma_occurrences_bound(successes@, key);
        }
        if count > most && count >= 2 {
            most = count;
        }
        w = w + 1;
    }
    proof {
        assert forall|u: u8|
            occurrences(successes@, u) <= (if most > 0 {
                most - 1
            } else {
                0
            }) + 1 by {
            assert((u as int) < w);
        }
    }
    if most > 0 {
        (most - 1) as u8
    } else {
        0
    }
}

proof fn lemma_successes_bound(rolls: Seq<u8>, difficulty: u8)
    ensures
        successes_of(rolls, difficulty).len() <= rolls.len(),
    decreases rolls.len(),
{
    if rolls.len() > 0 {
        lemma_successes_bound(rolls.drop_last(), difficulty);
    }
}

/// Tallies the values `rolls` of a pool of dice against `difficulty`.
pub fn evaluate_rolls(rolls: &[u8], difficulty: u8) -> (report: RollReport)
    requires
        rolls@.len() <= 255,
    ensures
        report.successes == successes_of(rolls@, difficulty).len(),
        report.critical_failure == is_critical_failure(rolls@, difficulty),
        report.critical_failure ==> report.matches == 0,
        !report.critical_failure ==> is_match_count(
            successes_of(rolls@, difficulty),
            report.matches as nat,
        ),
{
    let mut success_history: Vec<u8> = Vec::new();
    let mut rolled_one = false;
    let mut i: usize = 0;
    while i < rolls.len()
        invariant
            i <= rolls@.len() <= 255,
            success_history@ == successes_of(rolls@.subrange(0, i as int), difficulty),
            rolled_one == rolls@.subrange(0, i as int).contains(1u8),
        decreases rolls@.len() - i,
    {
        let result = rolls[i];
        proof {
            let before = rolls@.subrange(0, i as int);
            let after = rolls@.subrange(0, i + 1);
            assert(after.drop_last() =~= before);
            assert(after.last() == result);
            if after.contains(1u8) && result != 1 {
                let j = choose|j: int| 0 <= j < after.len() && after[j] == 1u8;
                assert(before[j] == 1u8);
            }
            if result == 1 {
                assert(after[i as int] == 1u8);
            }
            if before.contains(1u8) {
                let j = choose|j: int| 0 <= j < before.len() && before[j] == 1u8;
                assert(after[j] == 1u8);
            }
            lemma_successes_bound(before, difficulty);
        }
        if result == 1 {
            rolled_one = true;
        }
        if result >= difficulty {
            success_history.push(result);
        }
        i = i + 1;
    }
    proof {
        assert(rolls@.subrange(0, i as int) =~= rolls@);
        lemma_successes_bound(rolls@, difficulty);
    }
    let successes = success_history.len() as u8;
    if rolled_one && successes == 0 {
        RollReport { successes, matches: 0, critical_failure: true }
    } else {
        let matches = get_matches(success_history.as_slice());
        RollReport { successes, matches, critical_failure: false }
    }
}

/// Relies on rand's `Rng::gen_range` on an inclusive range, which lies in
/// that range; it panics on an empty one.
#[verifier::external_body]
fn roll_die(rng: &mut ThreadRng, die: u8) -> (r: u8)
    requires
        1 <= die,
    ensures
        1 <= r <= die,
{
    rng.gen_range(1..=die)
}

/// Rolls `dice` dice with faces `1..=die`.
pub fn roll_pool(rng: &mut ThreadRng, dice: u8, die: u8) -> (rolls: Vec<u8>)
    requires
        dice == 0 || 1 <= die,
    ensures
        rolls@.len() == dice,
        forall|i: int| 0 <= i < rolls@.len() ==> 1 <= #[trigger] rolls@[i] <= die,
{
    let mut rolls: Vec<u8> = Vec::new();
    let mut i: u8 = 0;
    while i < dice
        invariant
            i <= dice,
            dice == 0 || 1 <= die,
            rolls@.len() == i,
            forall|j: int| 0 <= j < rolls@.len() ==> 1 <= #[trigger] rolls@[j] <= die,
        decreases dice - i,
    {
        let result = roll_die(rng, die);
        rolls.push(result);
        i = i + 1;
    }
    rolls
}

} // verus!
