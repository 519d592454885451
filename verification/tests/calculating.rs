use rpn_calc::eval::{CalcError, Item, Line, Operator, Stack};
use rpn_calc::rational::Rational;

fn eval(text: &str) -> Result<Stack, CalcError> {
    Line::parse(text).unwrap().calc(Stack::new())
}

#[test]
fn test_calculating_simple_integers() {
    assert_eq!(
        eval("3 6 +").unwrap(),
        Stack(vec![Rational::from_integer(9)])
    );
    assert_eq!(
        eval("3 6 *").unwrap(),
        Stack(vec![Rational::from_integer(18)])
    );
    assert_eq!(
        eval("3 6 + 2 *").unwrap(),
        Stack(vec![Rational::from_integer(18)])
    );
    assert_eq!(
        eval("6 3 - 2 -").unwrap(),
        Stack(vec![Rational::from_integer(1)])
    );
    assert_eq!(
        eval("6 -3 - -2 -").unwrap(),
        Stack(vec![Rational::from_integer(11)])
    );
    assert_eq!(
        eval("6 +3 - -2 *").unwrap(),
        Stack(vec![Rational::from_integer(-6)])
    );
    assert_eq!(
        eval("2 4 6 S").unwrap(),
        Stack(vec![Rational::from_integer(12)])
    );
    assert_eq!(
        eval("3 2 ^").unwrap(),
        Stack(vec![Rational::from_integer(9)])
    );
}

#[test]
fn test_op_on_empty_stack() {
    assert_eq!(eval("+"), Err(CalcError::NotEnoughItemsInStack));
    assert_eq!(eval("1+"), Err(CalcError::NotEnoughItemsInStack));
}

#[test]
fn test_creating_fraction() {
    assert_eq!(
        eval("1 2 /").unwrap(),
        Stack(vec![Rational::new(1, 2).unwrap()])
    );
    assert_eq!(
        eval("2 4 /").unwrap(),
        Stack(vec![Rational::new(1, 2).unwrap()])
    );
}

#[test]
fn operations_on_fractions() {
    assert_eq!(
        eval("1 2 / 1 2 / +").unwrap(),
        Stack(vec![Rational::from_integer(1)])
    );
    assert_eq!(
        eval("1 2 / 1 2 / *").unwrap(),
        Stack(vec![Rational::new(1, 4).unwrap()])
    );
    assert_eq!(
        eval("1 2 / 1 2 / -").unwrap(),
        Stack(vec![Rational::from_integer(0)])
    );
}

#[test]
fn test_subtract_operand_order() {
    // The value popped second is the left operand: 5 - 2, not 2 - 5.
    assert_eq!(
        eval("5 2 -").unwrap(),
        Stack(vec![Rational::from_integer(3)])
    );
}

#[test]
fn test_divide_by_zero_is_a_math_error() {
    assert_eq!(eval("5 0 /"), Err(CalcError::MathError));
}

#[test]
fn test_sum_of_empty_stack_is_zero() {
    assert_eq!(eval("S").unwrap(), Stack(vec![Rational::from_integer(0)]));
}

#[test]
fn test_clear_empties_any_stack() {
    assert_eq!(eval("c").unwrap(), Stack(vec![]));
    assert_eq!(eval("3 6 c").unwrap(), Stack(vec![]));
    let carried = eval("3 6 +").unwrap();
    let cleared = Line::parse("c").unwrap().calc(carried).unwrap();
    assert_eq!(cleared, Stack(vec![]));
}

#[test]
fn test_disambiguated_line_evaluates() {
    // "3 6-2**" folds to 3, 6, -2, then 6 * -2 = -12, then 3 * -12 = -36.
    assert_eq!(
        eval("3 6-2**").unwrap(),
        Stack(vec![Rational::from_integer(-36)])
    );
}

#[test]
fn test_power_of_integers() {
    assert_eq!(eval("3 2 ^").unwrap(), Stack(vec![Rational::from_integer(9)]));
    assert_eq!(eval("5 0 ^").unwrap(), Stack(vec![Rational::from_integer(1)]));
    assert_eq!(
        eval("1 2 / 2 ^").unwrap(),
        Stack(vec![Rational::new(1, 4).unwrap()])
    );
}

#[test]
fn test_negative_exponent_is_a_math_error() {
    assert_eq!(eval("2 -1 ^"), Err(CalcError::MathError));
}

#[test]
fn test_fractional_exponent_is_a_math_error() {
    assert_eq!(eval("2 1 2 / ^"), Err(CalcError::MathError));
}

#[test]
fn test_sum_with_mixed_signs() {
    assert_eq!(
        eval("2 4 6 S").unwrap(),
        Stack(vec![Rational::from_integer(12)])
    );
    assert_eq!(
        eval("2 -4 S").unwrap(),
        Stack(vec![Rational::from_integer(-2)])
    );
}

#[test]
fn test_overflow_fails_closed() {
    assert_eq!(eval("9223372036854775807 1 +"), Err(CalcError::MathError));
    assert_eq!(eval("-9223372036854775808 -1 +"), Err(CalcError::MathError));
    assert_eq!(eval("9223372036854775807 2 *"), Err(CalcError::MathError));
    assert_eq!(eval("2 64 ^"), Err(CalcError::MathError));
}

#[test]
fn test_divide_then_multiply_round_trips() {
    // b / c * c == b exactly, with no drift.
    assert_eq!(
        eval("10 3 / 3 *").unwrap(),
        Stack(vec![Rational::from_integer(10)])
    );
    assert_eq!(
        eval("7 -5 / -5 *").unwrap(),
        Stack(vec![Rational::from_integer(7)])
    );
}

#[test]
fn test_stack_persists_across_lines() {
    let first = eval("3 6").unwrap();
    let second = Line::parse("+").unwrap().calc(first).unwrap();
    assert_eq!(second, Stack(vec![Rational::from_integer(9)]));
}

#[test]
fn test_stack_last() {
    assert_eq!(Stack::new().last(), None);
    assert_eq!(
        eval("3 6").unwrap().last(),
        Some(Rational::from_integer(6))
    );
}

#[test]
fn test_rational_new_normalizes() {
    assert_eq!(Rational::new(2, 4), Rational::new(1, 2));
    assert_eq!(Rational::new(-1, -2), Rational::new(1, 2));
    assert_eq!(Rational::new(1, -2), Rational::new(-1, 2));
    assert_eq!(Rational::new(0, 7), Some(Rational::from_integer(0)));
    assert_eq!(Rational::new(1, 0), None);
}

#[test]
fn test_normal_form_checks() {
    assert!(Rational::from_integer(5).is_normalized());
    assert!(Rational::new(2, 4).unwrap().is_normalized());
    assert!(!(Rational { num: 2, den: 4 }).is_normalized());
    assert!(!(Rational { num: 1, den: -2 }).is_normalized());
    assert!(Stack::new().is_normalized());
    assert!(eval("1 2 /").unwrap().is_normalized());
    assert!(Line::parse("3 6 +").unwrap().is_normalized());
    assert!(Line(vec![Item::Operator(Operator::Clear)]).is_normalized());
}
