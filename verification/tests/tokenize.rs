use json_parser::text::Cursor;
use json_parser::tokenize::{read_escaped_char, read_hex_digits_char, LexError};
use json_parser::{tokenize, Token};

fn number_of(tokens: &[Token]) -> f64 {
    match tokens {
        [Token::Number(n)] => n.parse::<f64>().unwrap(),
        _ => panic!("expected one number token, got {:?}", tokens),
    }
}

#[test]
fn tokenize_whitespace() {
    assert_eq!(tokenize(" \t\r\n"), Ok(vec![]));
}

#[test]
fn tokenize_left_square_bracket() {
    assert_eq!(tokenize("["), Ok(vec![Token::LeftSquareBracket]));
}

#[test]
fn tokenize_left_curly_bracket() {
    assert_eq!(tokenize("{"), Ok(vec![Token::LeftCurlyBracket]));
}

#[test]
fn tokenize_right_square_bracket() {
    assert_eq!(tokenize("]"), Ok(vec![Token::RightSquareBracket]));
}

#[test]
fn tokenize_right_curly_bracket() {
    assert_eq!(tokenize("}"), Ok(vec![Token::RightCurlyBracket]));
}

#[test]
fn tokenize_colon() {
    assert_eq!(tokenize(":"), Ok(vec![Token::Colon]));
}

#[test]
fn tokenize_comma_bracket() {
    assert_eq!(tokenize(","), Ok(vec![Token::Comma]));
}

#[test]
fn tokenize_number() {
    assert_eq!(number_of(&tokenize("123.45e10").unwrap()), 123.45e10);
    assert_eq!(number_of(&tokenize("-123.45e10").unwrap()), -123.45e10);
}

#[test]
fn tokenize_string() {
    assert_eq!(
        tokenize("\"foo\""),
        Ok(vec![Token::String("foo".to_string())])
    );
    assert_eq!(
        tokenize("\"\\\"\""),
        Ok(vec![Token::String("\u{0022}".to_string())])
    );
    assert_eq!(
        tokenize("\"\\\\\""),
        Ok(vec![Token::String("\u{005c}".to_string())])
    );
    assert_eq!(
        tokenize("\"\\/"),
        Ok(vec![Token::String("\u{002f}".to_string())])
    );
    assert_eq!(
        tokenize("\"\\b"),
        Ok(vec![Token::String("\u{0008}".to_string())])
    );
    assert_eq!(
        tokenize("\"\\f\""),
        Ok(vec![Token::String("\u{000c}".to_string())])
    );
    assert_eq!(
        tokenize("\"\\n\""),
        Ok(vec![Token::String("\u{000a}".to_string())])
    );
    assert_eq!(
        tokenize("\"\\r\""),
        Ok(vec![Token::String("\u{000d}".to_string())])
    );
    assert_eq!(
        tokenize("\"\\t\""),
        Ok(vec![Token::String("\u{0009}".to_string())])
    );
    assert_eq!(
        tokenize("\"\\u0041\""),
        Ok(vec![Token::String("\u{0041}".to_string())])
    );
}

#[test]
fn tokenize_true() {
    assert_eq!(tokenize("true"), Ok(vec![Token::True]));
}

#[test]
fn tokenize_false() {
    assert_eq!(tokenize("false"), Ok(vec![Token::False]));
}

#[test]
fn tokenize_null() {
    assert_eq!(tokenize("null"), Ok(vec![Token::Null]));
}
