use core::str::FromStr;
use manada::config::Config;
use manada::parse::{ConversionError, ParseErrorKind, Parsed};
use manada::calculation::token::TokenizeError;
use rust_decimal::Decimal;

fn dec(s: &str) -> Decimal {
    Decimal::from_str(s).unwrap()
}

#[test]
fn test_two_edge_chain() {
    let parsed = Parsed::try_new("km -> m: x * 1000\nm -> dm: x * 10").unwrap();
    let km = parsed.get_node_by_name("km").unwrap();
    assert_eq!(parsed.convert(km, "dm", dec("1")), Ok(dec("10000")));
}

#[test]
fn test_missing_unit() {
    let parsed = Parsed::try_new("km -> m: x * 1000\nm -> dm: x * 10").unwrap();
    let km = parsed.get_node_by_name("km").unwrap();
    assert_eq!(
        parsed.convert(km, "furlong", dec("1")),
        Err(ConversionError::EndDoesntExist { end: "furlong" })
    );
}

#[test]
fn test_no_reverse_edge() {
    let parsed = Parsed::try_new("km -> m: x * 1000\nm -> dm: x * 10").unwrap();
    let dm = parsed.get_node_by_name("dm").unwrap();
    assert_eq!(
        parsed.convert(dm, "km", dec("1")),
        Err(ConversionError::NoPathFound)
    );
}

#[test]
fn test_calculation_failure_propagates() {
    let parsed = Parsed::try_new("a -> b: x / 0").unwrap();
    let a = parsed.get_node_by_name("a").unwrap();
    assert_eq!(
        parsed.convert(a, "b", dec("5")),
        Err(ConversionError::CalculationFailed)
    );
}

#[test]
fn test_zero_hop_conversion() {
    let parsed = Parsed::try_new("a -> b: x + 1").unwrap();
    let a = parsed.get_node_by_name("a").unwrap();
    assert_eq!(parsed.convert(a, "a", dec("7")), Ok(dec("7")));
}

#[test]
fn test_missing_arrow() {
    let err = Parsed::try_new("km m: x * 1000").unwrap_err();
    assert_eq!(err.line, 0);
    assert!(matches!(err.error_kind, ParseErrorKind::MissingArrow));
}

#[test]
fn test_missing_arrow_line_index() {
    let err = Parsed::try_new("a -> b: x\n\n# comment only\nbad line\n").unwrap_err();
    assert_eq!(err.line, 3);
    assert!(matches!(err.error_kind, ParseErrorKind::MissingArrow));
}

#[test]
fn test_missing_colon() {
    let err = Parsed::try_new("km -> m x * 1000").unwrap_err();
    assert_eq!(err.line, 0);
    assert!(matches!(err.error_kind, ParseErrorKind::MissingColon));
}

#[test]
fn test_lexical_error_position() {
    let err = Parsed::try_new("a -> b: x $ 1").unwrap_err();
    assert_eq!(err.line, 0);
    assert_eq!(
        err.error_kind,
        ParseErrorKind::Tokenizer(TokenizeError::InvalidChar {
            serialized_string: String::from("x$1"),
            char: '$',
            position: 1
        })
    );
}

#[test]
fn test_syntax_error_in_line() {
    let err = Parsed::try_new("a -> b: (x + 1").unwrap_err();
    assert_eq!(err.line, 0);
    assert!(matches!(
        err.error_kind,
        ParseErrorKind::CalculationParseError(_)
    ));
}

#[test]
fn test_comments_and_blank_lines() {
    let doc = "# full comment\n\n  km -> m: x * 1000  # trailing comment\n";
    let parsed = Parsed::try_new(doc).unwrap();
    let km = parsed.get_node_by_name("km").unwrap();
    assert_eq!(parsed.convert(km, "m", dec("2")), Ok(dec("2000")));
}

#[test]
fn test_duplicate_names_share_node() {
    let doc = "a -> b: x + 1\nb -> c: x * 2\na -> c: x - 1";
    let parsed = Parsed::try_new(doc).unwrap();
    let a = parsed.get_node_by_name("a").unwrap();
    // the direct edge wins: one hop beats two
    assert_eq!(parsed.convert(a, "c", dec("10")), Ok(dec("9")));
}

#[test]
fn test_unknown_start_name() {
    let parsed = Parsed::try_new("a -> b: x").unwrap();
    assert!(parsed.get_node_by_name("z").is_none());
}

#[test]
fn test_get_full_unit() {
    let config = Config {
        aliases: Some(vec![
            (
                String::from("kilometre"),
                vec![String::from("km"), String::from("kms")],
            ),
            (String::from("metre"), vec![String::from("m")]),
        ]),
    };
    assert_eq!(
        config.clone().get_full_unit("km"),
        Some(String::from("kilometre"))
    );
    assert_eq!(
        config.clone().get_full_unit("metre"),
        Some(String::from("metre"))
    );
    assert_eq!(config.get_full_unit("yard"), None);
}

#[test]
fn test_get_full_unit_without_table() {
    let config = Config { aliases: None };
    assert_eq!(config.get_full_unit("km"), None);
}

#[test]
fn test_parallel_edges_first_declared_wins() {
    let parsed = Parsed::try_new("a -> b: x + 1\na -> b: x + 2").unwrap();
    let a = parsed.get_node_by_name("a").unwrap();
    assert_eq!(parsed.convert(a, "b", dec("10")), Ok(dec("11")));
}

#[test]
fn test_trailing_tokens_ignored() {
    // the parser stops after one full expression; spare tokens on the line
    // are not an error
    let parsed = Parsed::try_new("a -> b: x 5").unwrap();
    let a = parsed.get_node_by_name("a").unwrap();
    assert_eq!(parsed.convert(a, "b", dec("7")), Ok(dec("7")));
}
