use json_parser::{parse, Error, Value};

#[test]
fn parse_empty_containers() {
    assert_eq!(parse("[]"), Ok(Value::Array(vec![])));
    assert_eq!(parse(" { } "), Ok(Value::Object(vec![])));
}

#[test]
fn parse_nested() {
    assert_eq!(
        parse("{\"a\": [null, {\"b\": false}], \"c\": \"d\"}"),
        Ok(Value::Object(vec![
            (
                "a".to_string(),
                Value::Array(vec![
                    Value::Null,
                    Value::Object(vec![("b".to_string(), Value::Bool(false))]),
                ])
            ),
            ("c".to_string(), Value::String("d".to_string())),
        ]))
    );
}

#[test]
fn parse_duplicate_key_later_member_wins() {
    assert_eq!(
        parse("{\"a\":1,\"b\":2,\"a\":3}"),
        Ok(Value::Object(vec![
            ("a".to_string(), Value::Number("3".to_string())),
            ("b".to_string(), Value::Number("2".to_string())),
        ]))
    );
}

#[test]
fn parse_leading_whitespace_changes_nothing() {
    assert_eq!(parse(" \n\t[true]"), parse("[true]"));
    assert_eq!(parse("  ]"), parse("]"));
}

#[test]
fn parse_eof_errors() {
    assert_eq!(parse(""), Err(Error::UnexpectedEOF));
    assert_eq!(parse("   "), Err(Error::UnexpectedEOF));
    assert_eq!(parse("["), Err(Error::UnexpectedEOF));
    assert_eq!(parse("[1,"), Err(Error::UnexpectedEOF));
    assert_eq!(parse("[1"), Err(Error::UnexpectedEOF));
    assert_eq!(parse("{"), Err(Error::UnexpectedEOF));
    assert_eq!(parse("{\"a\""), Err(Error::UnexpectedEOF));
    assert_eq!(parse("{\"a\":"), Err(Error::UnexpectedEOF));
    assert_eq!(parse("{\"a\":1"), Err(Error::UnexpectedEOF));
}

#[test]
fn parse_unexpected_tokens() {
    assert_eq!(parse("]"), Err(Error::UnexpectedToken("]".to_string())));
    assert_eq!(parse(":"), Err(Error::UnexpectedToken(":".to_string())));
    // a value that failed is followed by the token after it, reported instead
    assert_eq!(parse("[,]"), Err(Error::UnexpectedToken("]".to_string())));
    assert_eq!(parse("[1,]"), Err(Error::UnexpectedToken("]".to_string())));
    // a number token is named by its text here; the f64 layer names it "2.0"
    assert_eq!(parse("[1 2]"), Err(Error::UnexpectedToken("2".to_string())));
    assert_eq!(parse("{1:2}"), Err(Error::UnexpectedToken(":".to_string())));
    assert_eq!(parse("{1}"), Err(Error::UnexpectedToken("}".to_string())));
    assert_eq!(parse("{\"a\" 1}"), Err(Error::UnexpectedToken("}".to_string())));
    assert_eq!(parse("{\"a\" 1"), Err(Error::UnexpectedToken("1".to_string())));
    assert_eq!(parse("{\"a\":1 \"b\"}"), Err(Error::UnexpectedToken("\"b\"".to_string())));
    assert_eq!(parse("true false"), Err(Error::UnexpectedToken("false".to_string())));
    assert_eq!(parse("], 1"), Err(Error::UnexpectedToken(",".to_string())));
}

#[test]
fn parse_reports_tokenizing_errors() {
    assert_eq!(parse("tru"), Err(Error::InvalidLiteral("tru".to_string())));
    assert_eq!(parse("[1.2.3]"), Err(Error::InvalidLiteral("1.2.3".to_string())));
    assert_eq!(parse("\"\\q\""), Err(Error::InvalidEscapeSequence("q".to_string())));
    assert_eq!(parse("\"\\uD800\""), Err(Error::InvalidCodePoint("D800".to_string())));
    assert_eq!(parse("\"\\"), Err(Error::UnexpectedEOF));
}

#[test]
fn error_to_string() {
    assert_eq!(
        Error::UnexpectedToken(",".to_string()).to_string(),
        "unexpected token: ,"
    );
    assert_eq!(Error::UnexpectedEOF.to_string(), "unexpected EOF");
    assert_eq!(
        Error::InvalidLiteral("nul".to_string()).to_string(),
        "invalid literal: nul"
    );
    assert_eq!(
        Error::InvalidEscapeSequence("q".to_string()).to_string(),
        "invalid escape sequence: \\q"
    );
    assert_eq!(
        Error::InvalidCodePoint("D800".to_string()).to_string(),
        "invalid code point: D800"
    );
}

#[test]
fn objects_compare_as_maps() {
    let ab = Value::Object(vec![
        ("a".to_string(), Value::Null),
        ("b".to_string(), Value::Bool(true)),
    ]);
    let ba = Value::Object(vec![
        ("b".to_string(), Value::Bool(true)),
        ("a".to_string(), Value::Null),
    ]);
    assert_eq!(ab, ba);
    assert_eq!(parse("{\"a\":null,\"b\":true}"), parse("{\"b\":true,\"a\":null}"));
    let other = Value::Object(vec![("a".to_string(), Value::Null)]);
    assert_ne!(ab, other);
    assert_ne!(
        Value::Array(vec![Value::Null, Value::Bool(false)]),
        Value::Array(vec![Value::Bool(false), Value::Null])
    );
}
