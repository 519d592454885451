use rpn_calc::eval::{Item, Line, Operator};
use rpn_calc::rational::Rational;

#[test]
fn test_number_parsing() {
    assert_eq!(
        Item::parse(b"32"),
        Ok((2, Item::Num(Rational::from_integer(32))))
    );
    assert_eq!(
        Item::parse(b"-73"),
        Ok((3, Item::Num(Rational::from_integer(-73))))
    );
}

#[test]
fn test_operator_parsing() {
    assert_eq!(Item::parse(b"+"), Ok((1, Item::Operator(Operator::Add))));
    assert_eq!(Item::parse(b"/"), Ok((1, Item::Operator(Operator::Divide))));
    assert_eq!(Item::parse(b"-"), Ok((1, Item::Operator(Operator::Subtract))));
    assert_eq!(Item::parse(b"*"), Ok((1, Item::Operator(Operator::Multiply))));
}

#[test]
fn test_single_item_parsing() {
    assert_eq!(
        Line::parse("3"),
        Ok(Line(vec![Item::Num(Rational::from_integer(3))]))
    );
    assert_eq!(
        Line::parse("+"),
        Ok(Line(vec![Item::Operator(Operator::Add)]))
    );
    assert_eq!(
        Line::parse("-"),
        Ok(Line(vec![Item::Operator(Operator::Subtract)]))
    );
    assert_eq!(
        Line::parse("*"),
        Ok(Line(vec![Item::Operator(Operator::Multiply)]))
    );
    assert_eq!(
        Line::parse("/"),
        Ok(Line(vec![Item::Operator(Operator::Divide)]))
    );
    assert_eq!(
        Line::parse("S"),
        Ok(Line(vec![Item::Operator(Operator::Sum)]))
    );
    assert_eq!(
        Line::parse("-"),
        Ok(Line(vec![Item::Operator(Operator::Subtract)]))
    );
    assert_eq!(
        Line::parse("^"),
        Ok(Line(vec![Item::Operator(Operator::Power)]))
    );
}

#[test]
fn test_multiple_item_parsing() {
    assert_eq!(
        Line::parse("3 6 +"),
        Ok(Line(vec![
            Item::Num(Rational::from_integer(3)),
            Item::Num(Rational::from_integer(6)),
            Item::Operator(Operator::Add)
        ]))
    );
    assert_eq!(
        Line::parse("47 9 + 15 *"),
        Ok(Line(vec![
            Item::Num(Rational::from_integer(47)),
            Item::Num(Rational::from_integer(9)),
            Item::Operator(Operator::Add),
            Item::Num(Rational::from_integer(15)),
            Item::Operator(Operator::Multiply)
        ]))
    );
}

#[test]
fn test_multiple_item_parsing_with_weird_spaces() {
    assert_eq!(
        Line::parse("3 6-2**"),
        Ok(Line(vec![
            Item::Num(Rational::from_integer(3)),
            Item::Num(Rational::from_integer(6)),
            Item::Num(Rational::from_integer(-2)),
            Item::Operator(Operator::Multiply),
            Item::Operator(Operator::Multiply)
        ]))
    );
    assert_eq!(
        Line::parse(" 3 6*2* "),
        Ok(Line(vec![
            Item::Num(Rational::from_integer(3)),
            Item::Num(Rational::from_integer(6)),
            Item::Operator(Operator::Multiply),
            Item::Num(Rational::from_integer(2)),
            Item::Operator(Operator::Multiply)
        ]))
    );
    assert_eq!(
        Line::parse(" 3 6+2** "),
        Ok(Line(vec![
            Item::Num(Rational::from_integer(3)),
            Item::Num(Rational::from_integer(6)),
            Item::Num(Rational::from_integer(2)),
            Item::Operator(Operator::Multiply),
            Item::Operator(Operator::Multiply)
        ]))
    );
    assert_eq!(
        Line::parse("3 6 2 S"),
        Ok(Line(vec![
            Item::Num(Rational::from_integer(3)),
            Item::Num(Rational::from_integer(6)),
            Item::Num(Rational::from_integer(2)),
            Item::Operator(Operator::Sum),
        ]))
    );
    assert_eq!(
        Line::parse("3 2 ^"),
        Ok(Line(vec![
            Item::Num(Rational::from_integer(3)),
            Item::Num(Rational::from_integer(2)),
            Item::Operator(Operator::Power),
        ]))
    );
}

#[test]
fn test_rejects_unrecognized_residue() {
    assert!(Line::parse("3 @").is_err());
    assert!(Line::parse("3 6 &").is_err());
    assert!(Line::parse("x").is_err());
}

#[test]
fn test_parsing_at_the_i64_limits() {
    assert_eq!(
        Line::parse("-9223372036854775808"),
        Ok(Line(vec![Item::Num(Rational::from_integer(i64::MIN))]))
    );
    assert_eq!(
        Line::parse("9223372036854775807"),
        Ok(Line(vec![Item::Num(Rational::from_integer(i64::MAX))]))
    );
    // One past the top: no longer a number, and the digits fail the line.
    assert!(Line::parse("9223372036854775808").is_err());
    assert!(Line::parse("-9223372036854775809").is_err());
}

#[test]
fn test_plus_sign_binds_to_a_literal() {
    assert_eq!(
        Line::parse("+3"),
        Ok(Line(vec![Item::Num(Rational::from_integer(3))]))
    );
}

#[test]
fn test_empty_line_parses_to_no_tokens() {
    assert_eq!(Line::parse(""), Ok(Line(vec![])));
    assert_eq!(Line::parse("  \t \n"), Ok(Line(vec![])));
}
