use core::str::FromStr;
use manada::calculation::token::{token_list, Token, TokenizeError};
use manada::calculation::Operator;
use rust_decimal::Decimal;

fn dec(s: &str) -> Decimal {
    Decimal::from_str(s).unwrap()
}

#[test]
fn test_tokenizer() {
    assert_eq!(
        token_list("(x + x) * (-5.5--3)").unwrap(),
        vec![
            Token::LeftParenthese,
            Token::Variable,
            Token::Operator(Operator::Add),
            Token::Variable,
            Token::RightParenthese,
            Token::Operator(Operator::Mul),
            Token::LeftParenthese,
            Token::Number(dec("-5.5")),
            Token::Operator(Operator::Sub),
            Token::Number(dec("-3.0")),
            Token::RightParenthese,
        ]
    );
    assert_eq!(
        token_list("[] h 1"),
        Err(TokenizeError::InvalidChar {
            serialized_string: String::from("[]h1"),
            char: 'h',
            position: 2
        })
    );

    assert_eq!(token_list("-5").unwrap(), vec![Token::Number(dec("-5.0"))]);
}

#[test]
fn test_unary_minus_disambiguation() {
    // the first `-` signs a literal, the second is subtraction: three
    // tokens, not five
    assert_eq!(
        token_list("-5.5--3").unwrap(),
        vec![
            Token::Number(dec("-5.5")),
            Token::Operator(Operator::Sub),
            Token::Number(dec("-3")),
        ]
    );
}

#[test]
fn test_bracket_flavors() {
    // every bracket flavor opens or closes a group; flavors are not matched
    assert_eq!(
        token_list("{x + 1]").unwrap(),
        vec![
            Token::LeftParenthese,
            Token::Variable,
            Token::Operator(Operator::Add),
            Token::Number(dec("1")),
            Token::RightParenthese,
        ]
    );
}

#[test]
fn test_malformed_number() {
    assert_eq!(
        token_list("1.2.3 + x"),
        Err(TokenizeError::MalformedNumber {
            serialized_string: String::from("1.2.3+x"),
            position: 0
        })
    );
}

#[test]
fn test_empty_input() {
    assert_eq!(token_list("").unwrap(), vec![]);
    assert_eq!(token_list("   ").unwrap(), vec![]);
    assert_eq!(token_list("\t\r\n").unwrap(), vec![]);
}

#[test]
fn test_whitespace_never_changes_tokens() {
    // every white-space character is ignored, not just the plain space
    assert_eq!(token_list("x\t+\u{a0}1").unwrap(), token_list("x + 1").unwrap());
    assert_eq!(
        token_list("\t( x +\r2 )").unwrap(),
        token_list("(x+2)").unwrap()
    );
    // error positions count within the whitespace-stripped source
    assert_eq!(
        token_list("[]\th 1"),
        Err(TokenizeError::InvalidChar {
            serialized_string: String::from("[]h1"),
            char: 'h',
            position: 2
        })
    );
}

#[test]
fn test_split_value_text() {
    assert_eq!(
        manada::cli::split_value_text("5.5km"),
        (String::from("5.5"), String::from("km"))
    );
    assert_eq!(
        manada::cli::split_value_text("17"),
        (String::from("17"), String::from(""))
    );
    assert_eq!(
        manada::cli::split_value_text("km"),
        (String::from(""), String::from("km"))
    );
}
