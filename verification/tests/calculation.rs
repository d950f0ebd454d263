use core::str::FromStr;
use manada::calculation::parser::{CalculationParseError, Parser};
use manada::calculation::token::token_list;
use manada::calculation::token::Token;
use manada::calculation::{Operator, Value};
use rust_decimal::Decimal;

fn dec(s: &str) -> Decimal {
    Decimal::from_str(s).unwrap()
}

fn parse_ok(expr: &str) -> Value {
    let tokens = token_list(expr).expect("tokenization failed");
    let mut parser = Parser::new(tokens);
    parser.parse_expression().expect("parsing failed")
}

#[test]
fn test_expression_evaluation() {
    let my_expr = Value::Calc {
        left: Box::new(Value::Num(dec("1.0"))),
        op: Operator::Add,
        right: Box::new(Value::Var),
    };
    assert_eq!(my_expr.evaluate(dec("5.0")), Some(dec("6.0")));

    let my_expr = Value::Calc {
        left: Box::new(my_expr),
        op: Operator::Add,
        right: Box::new(Value::Var),
    };
    assert_eq!(my_expr.evaluate(dec("3.0")), Some(dec("7.0")));

    let my_expr = Value::Calc {
        left: Box::new(Value::Var),
        op: Operator::Div,
        right: Box::new(Value::Num(dec("0.0"))),
    };
    assert!(my_expr.evaluate(dec("3.0")).is_none());
}

#[test]
fn test_format() {
    let my_expr = Value::Calc {
        left: Box::new(Value::Num(dec("1.0"))),
        op: Operator::Add,
        right: Box::new(Value::Var),
    };
    assert_eq!(my_expr.format(), String::from("1 + x"));

    let my_expr = Value::Calc {
        left: Box::new(my_expr),
        op: Operator::Add,
        right: Box::new(Value::Var),
    };
    assert_eq!(my_expr.format(), String::from("(1 + x) + x"));
}

#[test]
fn test_simple_addition() {
    let value = parse_ok("1 + 2");
    assert_eq!(value.format(), "1 + 2");
    assert_eq!(value.evaluate(dec("0.0")), Some(dec("3.0")));
}

#[test]
fn test_operator_precedence() {
    let value = parse_ok("1 + 2 * 3");
    assert_eq!(value.format(), "1 + (2 * 3)");
    assert_eq!(value.evaluate(dec("0.0")), Some(dec("7.0")));

    let value = parse_ok("10 - 4 / 2");
    assert_eq!(value.format(), "10 - (4 / 2)");
    assert_eq!(value.evaluate(dec("0.0")), Some(dec("8.0")));
}

#[test]
fn test_parentheses_override_precedence() {
    let value = parse_ok("(1 + 2) * 3");
    assert_eq!(value.format(), "(1 + 2) * 3");
    assert_eq!(value.evaluate(dec("0.0")), Some(dec("9.0")));
}

#[test]
fn test_variable_handling() {
    let value = parse_ok("x * 2 + 1");
    assert_eq!(value.format(), "(x * 2) + 1");
    assert_eq!(value.evaluate(dec("3.0")), Some(dec("7.0")));
}

#[test]
fn test_nested_expressions() {
    let value = parse_ok("x * (1 + 2 * x)");
    assert_eq!(value.format(), "x * (1 + (2 * x))");
    assert_eq!(value.evaluate(dec("2.0")), Some(dec("10.0")));
}

#[test]
fn test_error() {
    let mut parser = Parser::new(token_list("(x + 2").unwrap());
    let result = parser.parse_expression();
    assert_eq!(result, Err(CalculationParseError::UnexpectedEOL));

    let mut parser = Parser::new(token_list("x +* 2").unwrap());
    assert_eq!(
        parser.parse_expression(),
        Err(CalculationParseError::UnexpectedToken(Token::Operator(
            Operator::Mul
        )))
    );
}

#[test]
fn test_single_expr() {
    assert_eq!(parse_ok("42").evaluate(dec("0.0")), Some(dec("42.0")));
    assert_eq!(parse_ok("x").evaluate(dec("5.5")), Some(dec("5.5")));
}

#[test]
fn test_division_by_zero_always_fails() {
    let value = parse_ok("x / 0");
    assert_eq!(value.evaluate(dec("3.0")), None);
    assert_eq!(value.evaluate(dec("-17.25")), None);
    assert_eq!(value.evaluate(dec("0")), None);
}

#[test]
fn test_round_trip_reparse() {
    for expr in [
        "1 + 2 * 3",
        "10 - 4 / 2",
        "x * (1 + 2 * x)",
        "(1 + 2) * 3",
        "-5.5--3",
        "x",
        "42",
    ] {
        let first = parse_ok(expr);
        let reparsed = parse_ok(&first.format());
        assert_eq!(first, reparsed);
    }
}
