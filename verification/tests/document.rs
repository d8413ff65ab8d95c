use json_parser::parse::TokenParseError;
use json_parser::tokenize::TokenizeError;
use json_parser::number::Number;
use json_parser::value::{Object, Value};
use json_parser::{parse, ParseError};

fn number(text: &str) -> Value {
    Value::Number(Number::new(text).unwrap())
}

fn string(text: &str) -> Value {
    Value::String(String::from(text))
}

fn object(members: Vec<(&str, Value)>) -> Value {
    let mut object = Object::new();
    for (key, value) in members {
        object.insert(String::from(key), value);
    }
    Value::Object(object)
}

fn as_float(value: &Value) -> f64 {
    match value {
        Value::Number(n) => n.as_str().parse().unwrap(),
        other => panic!("no number: {:?}", other),
    }
}

fn scan_error(input: &str) -> TokenizeError {
    match parse(input) {
        Err(ParseError::TokenizeError(e)) => e,
        other => panic!("no scan error: {:?}", other),
    }
}

fn parse_error(input: &str) -> TokenParseError {
    match parse(input) {
        Err(ParseError::ParseError(e)) => e,
        other => panic!("no parse error: {:?}", other),
    }
}

#[test]
fn document_literal_names() {
    assert_eq!(parse("null"), Ok(Value::Null));
    assert_eq!(parse("false"), Ok(Value::Boolean(false)));
    assert_eq!(parse("true"), Ok(Value::Boolean(true)));
}

#[test]
fn document_number() {
    let value = parse("-123.456e-2").unwrap();

    assert_eq!(as_float(&value), -1.23456);
    assert_eq!(value, number("-123.456e-2"));
}

#[test]
fn document_numbers_compare_as_floats() {
    for (input, expected) in [
        ("0", 0.0),
        ("1", 1.0),
        ("-1", -1.0),
        ("16", 16.0),
        ("3.141592653589793", std::f64::consts::PI),
        ("6.02214076e23", 6.02214076e23),
        ("1E-7", 1e-7),
        ("2e+2", 200.0),
        ("4.9406564584124654e-324", 5e-324),
        ("1e400", f64::INFINITY),
        ("-1e400", f64::NEG_INFINITY),
        ("1e-400", 0.0),
    ] {
        assert_eq!(as_float(&parse(input).unwrap()), expected, "{input}");
    }
}

#[test]
fn document_array_of_null_and_number() {
    let value = parse("[null, 16]").unwrap();

    assert_eq!(value, Value::Array(vec![Value::Null, number("16")]));
    match value {
        Value::Array(items) => assert_eq!(as_float(&items[1]), 16.0),
        other => panic!("no array: {:?}", other),
    }
}

#[test]
fn document_nested_object() {
    let value = parse(r#"{"a": [true, {"b": true}]}"#).unwrap();

    let expected = object(vec![(
        "a",
        Value::Array(vec![Value::Boolean(true), object(vec![("b", Value::Boolean(true))])]),
    )]);
    assert_eq!(value, expected);
}

#[test]
fn document_string_with_escaped_quote() {
    assert_eq!(parse(r#""the \" is OK""#), Ok(string(r#"the " is OK"#)));
}

#[test]
fn document_empty_array_and_object() {
    assert_eq!(parse("[]"), Ok(Value::Array(vec![])));
    assert_eq!(parse("{}"), Ok(object(vec![])));
    assert_eq!(parse("[ ]"), Ok(Value::Array(vec![])));
    assert_eq!(parse("{\n}"), Ok(object(vec![])));
}

#[test]
fn document_string_escapes() {
    assert_eq!(
        parse(r#""\"\\\/\b\f\n\r\t""#),
        Ok(string("\"\\/\u{8}\u{c}\n\r\t"))
    );
    assert_eq!(parse(r#""\q""#), Ok(string("q")));
    assert_eq!(parse(r#""café €""#), Ok(string("caf\u{e9} \u{20ac}")));
}

#[test]
fn document_deep_nesting() {
    let depth = 200;
    let input = format!("{}null{}", "[".repeat(depth), "]".repeat(depth));
    let mut value = parse(&input).unwrap();

    for _ in 0..depth {
        value = match value {
            Value::Array(mut items) => {
                assert_eq!(items.len(), 1);
                items.pop().unwrap()
            }
            other => panic!("no array: {:?}", other),
        };
    }
    assert_eq!(value, Value::Null);
}

#[test]
fn document_shape_and_order() {
    let value = parse(r#"[[1, [2, 3]], {"k": [4]}, "5", [], 6]"#).unwrap();

    let expected = Value::Array(vec![
        Value::Array(vec![number("1"), Value::Array(vec![number("2"), number("3")])]),
        object(vec![("k", Value::Array(vec![number("4")]))]),
        string("5"),
        Value::Array(vec![]),
        number("6"),
    ]);
    assert_eq!(value, expected);
}

#[test]
fn document_repeated_key() {
    let value = parse(r#"{"a": 1, "b": 2, "a": 3}"#).unwrap();

    match value {
        Value::Object(members) => {
            assert_eq!(members.len(), 2);
            assert_eq!(members.get("a").map(as_float), Some(3.0));
            assert_eq!(members.get("b").map(as_float), Some(2.0));
        }
        other => panic!("no object: {:?}", other),
    }
}

#[test]
fn document_ignores_tokens_after_the_value() {
    assert_eq!(parse("null true"), Ok(Value::Null));
    assert_eq!(parse("[] ]"), Ok(Value::Array(vec![])));
}

#[test]
fn document_scan_errors() {
    assert_eq!(scan_error("\"unclosed"), TokenizeError::UnclosedQuotes);
    assert_eq!(scan_error("tru"), TokenizeError::UnfinishedLiteralValue);
    assert_eq!(scan_error("[1, 2] "), TokenizeError::UnexpectedEof);
    assert_eq!(scan_error("[1, ?]"), TokenizeError::CharNotRecognized('?'));
    assert_eq!(scan_error("[-]"), TokenizeError::ParseNumberError(String::from("-")));
}

#[test]
fn document_scan_error_comes_before_parse_error() {
    assert_eq!(scan_error("[1 2 tru"), TokenizeError::UnfinishedLiteralValue);
}

#[test]
fn document_parse_errors() {
    assert_eq!(parse_error("[1,2"), TokenParseError::ExpectedComma);
    assert_eq!(parse_error(r#"{"a" true}"#), TokenParseError::ExpectedColon);
    assert_eq!(parse_error(r#"{true: 1}"#), TokenParseError::ExpectedProperty);
    assert_eq!(parse_error(r#"{"a": 1,}"#), TokenParseError::ExpectedProperty);
    assert_eq!(parse_error("[1 2]"), TokenParseError::ExpectedComma);
    assert_eq!(parse_error("[1,]"), TokenParseError::UnexpectedToken);
    assert_eq!(parse_error(""), TokenParseError::UnexpectedToken);
    assert_eq!(parse_error("]"), TokenParseError::UnexpectedToken);
    assert_eq!(parse_error(":"), TokenParseError::UnexpectedToken);
    assert_eq!(parse_error(r#""\u12""#), TokenParseError::UnfinishedEscape);
    assert_eq!(parse_error(r#""\u12x4""#), TokenParseError::InvalidHexValue);
    assert_eq!(parse_error(r#""\udc00""#), TokenParseError::InvalidCodePointValue);
}

#[test]
fn error_from_each_stage() {
    assert_eq!(
        ParseError::from(TokenizeError::UnexpectedEof),
        ParseError::TokenizeError(TokenizeError::UnexpectedEof)
    );
    assert_eq!(
        ParseError::from(TokenParseError::ExpectedColon),
        ParseError::ParseError(TokenParseError::ExpectedColon)
    );
}

#[test]
fn document_object_members_in_any_order() {
    assert_eq!(
        parse(r#"{"a": [1, {"x": null, "y": true}], "b": "c"}"#),
        parse(r#"{"b": "c", "a": [1, {"y": true, "x": null}]}"#)
    );
    assert_ne!(parse(r#"[1, 2]"#), parse(r#"[2, 1]"#));
}

#[test]
fn document_with_whitespace_between_tokens() {
    let spaced = parse(" {\n\t\"a\" : [ 1 ,\r\n 2.5e1 , \"x y\" ] ,\u{c}\"b\":{ } }").unwrap();
    let compact = parse(r#"{"a":[1,2.5e1,"x y"],"b":{}}"#).unwrap();

    assert_eq!(spaced, compact);
    assert_eq!(
        compact,
        object(vec![
            ("a", Value::Array(vec![number("1"), number("2.5e1"), string("x y")])),
            ("b", object(vec![])),
        ])
    );
}
