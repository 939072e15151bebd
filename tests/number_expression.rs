use dicepool::number_expression::{ExprError, NumberExpression};

fn bad_input(input: &str, token: &str) -> Result<NumberExpression, ExprError> {
    Err(ExprError::BadInput { input: input.to_string(), token: token.to_string() })
}

fn overflow(input: &str) -> Result<NumberExpression, ExprError> {
    Err(ExprError::IntegerOverflow { input: input.to_string() })
}

#[test]
fn test_add() {
    assert_eq!("2+2".parse::<NumberExpression>(), Ok(NumberExpression(4)));
    assert_eq!("2+2+1".parse::<NumberExpression>(), Ok(NumberExpression(5)));
    assert_eq!(
        "2 + 2 + 1".parse::<NumberExpression>(),
        Ok(NumberExpression(5))
    );
    assert_eq!("2-1".parse::<NumberExpression>(), Ok(NumberExpression(1)));
    assert_eq!("2 - 1".parse::<NumberExpression>(), Ok(NumberExpression(1)));
    assert_eq!("2-1+5".parse::<NumberExpression>(), Ok(NumberExpression(6)));
    assert!("2-5".parse::<NumberExpression>().is_err());
}

#[test]
fn whitespace_round_terms_is_ignored() {
    assert_eq!(NumberExpression::parse("2+2"), Ok(NumberExpression(4)));
    assert_eq!(NumberExpression::parse("2 + 2"), Ok(NumberExpression(4)));
    assert_eq!(NumberExpression::parse("2+ 2"), Ok(NumberExpression(4)));
    assert_eq!(NumberExpression::parse(" 2\t+\n2 "), Ok(NumberExpression(4)));
    assert_eq!(NumberExpression::parse("\u{a0}3\u{3000}"), Ok(NumberExpression(3)));
}

#[test]
fn bare_number_is_itself() {
    assert_eq!(NumberExpression::parse("7"), Ok(NumberExpression(7)));
    assert_eq!(NumberExpression::parse("007"), Ok(NumberExpression(7)));
}

#[test]
fn every_bounded_number_round_trips() {
    for n in 0..=255u8 {
        assert_eq!(NumberExpression::parse(&n.to_string()), Ok(NumberExpression(n)));
    }
}

#[test]
fn sums_up_to_the_bound() {
    assert_eq!(NumberExpression::parse("100+100+55"), Ok(NumberExpression(255)));
    assert_eq!(NumberExpression::parse("0+0"), Ok(NumberExpression(0)));
    assert_eq!(NumberExpression::parse("10-2+1"), Ok(NumberExpression(9)));
}

#[test]
fn subtraction_below_zero_is_an_overflow() {
    assert_eq!(NumberExpression::parse("2-5"), overflow("2-5"));
    assert_eq!(NumberExpression::parse("1+1-3+9"), overflow("1+1-3+9"));
    assert_eq!(NumberExpression::parse("5-5"), Ok(NumberExpression(0)));
}

#[test]
fn sum_above_the_bound_is_an_overflow() {
    assert_eq!(NumberExpression::parse("200+56"), overflow("200+56"));
    assert_eq!(NumberExpression::parse("255+0"), Ok(NumberExpression(255)));
}

#[test]
fn malformed_terms_name_their_token() {
    assert_eq!(NumberExpression::parse("256"), bad_input("256", "256"));
    assert_eq!(NumberExpression::parse("2+x+3"), bad_input("2+x+3", "x+"));
    assert_eq!(NumberExpression::parse("2++3"), bad_input("2++3", "+"));
    assert_eq!(NumberExpression::parse("4 - 2 3"), bad_input("4 - 2 3", " 2 3"));
    assert_eq!(NumberExpression::parse("-1"), bad_input("-1", "-"));
    assert_eq!(NumberExpression::parse("   "), bad_input("   ", "   "));
    assert_eq!(NumberExpression::parse("1000-1"), bad_input("1000-1", "1000-"));
}

#[test]
fn trailing_operator_and_empty_input() {
    assert_eq!(NumberExpression::parse("2+"), Ok(NumberExpression(2)));
    assert_eq!(NumberExpression::parse("5-"), Ok(NumberExpression(5)));
    assert_eq!(NumberExpression::parse(""), Ok(NumberExpression(0)));
}

#[test]
fn converts_to_its_value() {
    assert_eq!(u8::from(NumberExpression(42)), 42);
}

#[test]
fn from_str_evaluates_from_the_left() {
    assert_eq!("10-2+1".parse::<NumberExpression>(), Ok(NumberExpression(9)));
    assert_eq!("5-3-1".parse::<NumberExpression>(), Ok(NumberExpression(1)));
    assert_eq!("2-2".parse::<NumberExpression>(), Ok(NumberExpression(0)));
}

#[test]
fn from_str_rejects_with_the_whole_input() {
    assert_eq!("255+1".parse::<NumberExpression>(), overflow("255+1"));
    assert_eq!("200+100-50".parse::<NumberExpression>(), overflow("200+100-50"));
    assert_eq!("+3".parse::<NumberExpression>(), bad_input("+3", "+"));
    assert_eq!("1 2".parse::<NumberExpression>(), bad_input("1 2", "1 2"));
    assert_eq!("2+x".parse::<NumberExpression>(), bad_input("2+x", "x"));
}
