use json_parser::number::Number;
use json_parser::value::{values_equal, Object, Value};

#[test]
fn number_accepts_decimal_literals() {
    for text in [
        "0", "-0", "12", "-12", "1.5", "1.", ".5", "-.5", "1e5", "1E5", "1e+5", "1e-5", "1.5e10",
        "1.e1", ".5E-3", "000", "1e000",
    ] {
        let number = Number::new(text).unwrap_or_else(|| panic!("{text}"));
        assert_eq!(number.as_str(), text);
        assert!(text.parse::<f64>().is_ok(), "{text}");
    }
}

#[test]
fn number_rejects_other_texts() {
    for text in [
        "", "-", ".", "-.", "e", "e5", "1e", "1e+", "1e-", "+1", "--1", "1-", "1.2.3", "1e5e5",
        "1e5.5", "1e+-5", "1 ", " 1", "1x", "0x10", "1_000", "inf", "-inf", "infinity", "nan",
        "NaN", "1,5", "\u{661}",
    ] {
        assert_eq!(Number::new(text), None, "{text}");
    }
}

#[test]
fn number_agrees_with_float_conversion_on_its_characters() {
    let alphabet = ['-', '+', '.', 'e', 'E', '0', '7'];
    let mut texts = vec![String::new()];
    for _ in 0..5 {
        let mut longer = Vec::new();
        for text in &texts {
            for c in alphabet {
                let mut next = text.clone();
                next.push(c);
                longer.push(next);
            }
        }
        for text in &longer {
            let accepted = Number::new(text).is_some();
            let converts = text.parse::<f64>().is_ok() && !text.starts_with('+');
            assert_eq!(accepted, converts, "{text}");
        }
        texts = longer;
    }
}

#[test]
fn number_clone_is_equal() {
    let number = Number::new("2.5e-3").unwrap();

    assert_eq!(number.clone(), number);
    assert_eq!(number.clone().as_str(), "2.5e-3");
}

#[test]
fn object_starts_empty() {
    let object = Object::new();

    assert_eq!(object.len(), 0);
    assert_eq!(object.get("a"), None);
    assert!(object.entries().is_empty());
}

#[test]
fn object_insert_and_get() {
    let mut object = Object::new();
    object.insert(String::from("a"), Value::Null);
    object.insert(String::from("b"), Value::Boolean(true));

    assert_eq!(object.len(), 2);
    assert_eq!(object.get("a"), Some(&Value::Null));
    assert_eq!(object.get("b"), Some(&Value::Boolean(true)));
    assert_eq!(object.get(""), None);
    assert_eq!(object.get("A"), None);
}

#[test]
fn object_insert_replaces_value_of_present_key() {
    let mut object = Object::new();
    object.insert(String::from("a"), Value::Null);
    object.insert(String::from("b"), Value::Boolean(true));
    object.insert(String::from("a"), Value::Boolean(false));

    assert_eq!(object.len(), 2);
    assert_eq!(object.get("a"), Some(&Value::Boolean(false)));
    assert_eq!(object.get("b"), Some(&Value::Boolean(true)));
}

#[test]
fn object_entries_hold_each_key_once() {
    let mut object = Object::new();
    object.insert(String::from("x"), Value::Null);
    object.insert(String::from("y"), Value::Null);
    object.insert(String::from("x"), Value::String(String::from("again")));
    object.insert(String::new(), Value::Array(vec![]));

    let keys: Vec<&str> = object.entries().iter().map(|(key, _)| key.as_str()).collect();
    assert_eq!(keys, vec!["x", "y", ""]);
    assert_eq!(object.entries()[0].1, Value::String(String::from("again")));
}

#[test]
fn objects_are_equal_whatever_the_order_of_members() {
    let mut first = Object::new();
    first.insert(String::from("a"), Value::Null);
    first.insert(String::from("b"), Value::Array(vec![Value::Boolean(true)]));
    let mut second = Object::new();
    second.insert(String::from("b"), Value::Array(vec![Value::Boolean(true)]));
    second.insert(String::from("a"), Value::Null);

    assert_eq!(first, second);
    assert_eq!(Value::Object(first), Value::Object(second));
}

#[test]
fn objects_differ_by_key_or_value() {
    let mut first = Object::new();
    first.insert(String::from("a"), Value::Null);
    let mut other_key = Object::new();
    other_key.insert(String::from("b"), Value::Null);
    let mut other_value = Object::new();
    other_value.insert(String::from("a"), Value::Boolean(false));
    let mut more = Object::new();
    more.insert(String::from("a"), Value::Null);
    more.insert(String::from("b"), Value::Null);

    assert_ne!(first, other_key);
    assert_ne!(first, other_value);
    assert_ne!(first, more);
    assert_ne!(more, first);
    assert_ne!(first, Object::new());
}

#[test]
fn values_are_equal_by_content() {
    let number = |text: &str| Value::Number(Number::new(text).unwrap());
    let text = |text: &str| Value::String(String::from(text));

    assert_eq!(Value::Null, Value::Null);
    assert_eq!(Value::Boolean(true), Value::Boolean(true));
    assert_ne!(Value::Boolean(true), Value::Boolean(false));
    assert_ne!(Value::Null, Value::Boolean(false));
    assert_eq!(text("a"), text("a"));
    assert_ne!(text("a"), text("b"));
    assert_ne!(text("1"), number("1"));
    assert_eq!(number("1"), number("1"));
    assert_ne!(number("1"), number("2"));
    assert_eq!(
        Value::Array(vec![number("1"), text("x")]),
        Value::Array(vec![number("1"), text("x")])
    );
    assert_ne!(
        Value::Array(vec![number("1"), text("x")]),
        Value::Array(vec![text("x"), number("1")])
    );
    assert_ne!(Value::Array(vec![number("1")]), Value::Array(vec![number("1"), number("1")]));
    assert_ne!(Value::Array(vec![]), Value::Object(Object::new()));
}

#[test]
fn equality_functions_agree_with_the_operator() {
    let one = Number::new("1").unwrap();
    let other = Number::new("1.0").unwrap();
    assert!(one.same_literal(&one.clone()));
    assert!(!one.same_literal(&other));

    let mut first = Object::new();
    first.insert(String::from("k"), Value::Number(one));
    let mut second = Object::new();
    second.insert(String::from("k"), Value::Number(other));
    assert!(first.same_members(&first));
    assert!(!first.same_members(&second));
    assert!(values_equal(&Value::Null, &Value::Null));
    assert!(!values_equal(&Value::Object(first), &Value::Object(second)));
}

#[test]
fn object_hands_its_entries_out() {
    let mut object = Object::new();
    object.insert(String::from("b"), Value::Null);
    object.insert(String::from("a"), Value::Boolean(true));
    object.insert(String::from("b"), Value::Boolean(false));

    assert_eq!(
        object.into_entries(),
        vec![
            (String::from("b"), Value::Boolean(false)),
            (String::from("a"), Value::Boolean(true)),
        ]
    );
}
