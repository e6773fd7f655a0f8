use json_parser::{parse, Error, Value};

fn number(v: &Value) -> f64 {
    match v {
        Value::Number(n) => n.parse::<f64>().unwrap(),
        _ => panic!("expected a number, got {:?}", v),
    }
}

fn items(v: &Value) -> &Vec<Value> {
    match v {
        Value::Array(items) => items,
        _ => panic!("expected an array, got {:?}", v),
    }
}

#[test]
fn parse_null() {
    assert_eq!(parse("null"), Ok(Value::Null));
}

#[test]
fn parse_true() {
    assert_eq!(parse("true"), Ok(Value::Bool(true)));
}

#[test]
fn parse_false() {
    assert_eq!(parse("false"), Ok(Value::Bool(false)));
}

#[test]
fn parse_number() {
    assert_eq!(number(&parse("-123.45E10").unwrap()), -123.45e10);
}

#[test]
fn parse_string() {
    assert_eq!(parse("\"foo\""), Ok(Value::String("foo".to_string())));
}

#[test]
fn parse_array() {
    let v = parse("[1,2,3]").unwrap();
    let items = items(&v);
    assert_eq!(items.len(), 3);
    assert_eq!(number(&items[0]), 1.0);
    assert_eq!(number(&items[1]), 2.0);
    assert_eq!(number(&items[2]), 3.0);
}

#[test]
fn parse_array_in_array() {
    let v = parse("[[1],[2],[3]]").unwrap();
    let outer = items(&v);
    assert_eq!(outer.len(), 3);
    for (k, expected) in [1.0, 2.0, 3.0].iter().enumerate() {
        let inner = items(&outer[k]);
        assert_eq!(inner.len(), 1);
        assert_eq!(number(&inner[0]), *expected);
    }
}

#[test]
fn parse_object() {
    assert_eq!(
        parse("{\"foo\":\"bar\"}"),
        Ok(Value::Object(vec![(
            "foo".to_string(),
            Value::String("bar".to_string())
        )]))
    );
}

#[test]
fn parse_error_trailing_token() {
    assert_eq!(parse("{},"), Err(Error::UnexpectedToken(",".to_string())));
}
