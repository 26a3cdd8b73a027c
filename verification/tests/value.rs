use ctoml::format::format_value;
use ctoml::{Error, Table, Value};

#[test]
fn a_new_table_is_empty() {
    let t = Table::new();
    assert!(t.is_empty());
    assert_eq!(t.len(), 0);
    assert_eq!(t.get("a"), None);
    assert!(!t.contains_key("a"));
}

#[test]
fn insert_keeps_first_places_and_last_values() {
    let mut t = Table::new();
    assert_eq!(t.insert("b".to_string(), Value::Integer(1)), None);
    assert_eq!(t.insert("a".to_string(), Value::Integer(2)), None);
    assert_eq!(t.insert("b".to_string(), Value::Integer(3)), Some(Value::Integer(1)));
    assert_eq!(t.len(), 2);
    assert!(!t.is_empty());
    assert_eq!(t.key_at(0), "b");
    assert_eq!(t.value_at(0), &Value::Integer(3));
    assert_eq!(t.key_at(1), "a");
    assert_eq!(t.value_at(1), &Value::Integer(2));
    assert_eq!(t.get("b"), Some(&Value::Integer(3)));
    assert!(t.contains_key("a"));
    assert_eq!(t.position(&"a".to_string()), Some(1));
    assert_eq!(t.position(&"c".to_string()), None);
}

#[test]
fn remove_takes_one_entry_out() {
    let mut t = Table::new();
    t.insert("a".to_string(), Value::Integer(1));
    t.insert("b".to_string(), Value::Integer(2));
    t.insert("c".to_string(), Value::Integer(3));
    assert_eq!(t.remove("b"), Some(Value::Integer(2)));
    assert_eq!(t.remove("b"), None);
    assert_eq!(t.len(), 2);
    assert_eq!(t.key_at(0), "a");
    assert_eq!(t.key_at(1), "c");
}

#[test]
fn tables_are_equal_entry_by_entry() {
    let mut a = Table::new();
    a.insert("x".to_string(), Value::Integer(1));
    a.insert("y".to_string(), Value::Integer(2));
    let mut b = Table::new();
    b.insert("x".to_string(), Value::Integer(1));
    assert_ne!(a, b);
    b.insert("y".to_string(), Value::Integer(2));
    assert_eq!(a, b);
}

#[test]
fn format_of_each_kind() {
    assert_eq!(format_value(&Value::String("a \"b\"".to_string())), "a \"b\"");
    assert_eq!(format_value(&Value::Integer(-5)), "-5");
    assert_eq!(format_value(&Value::Float("1e3".to_string())), "1e3");
    assert_eq!(format_value(&Value::Boolean(true)), "true");
    assert_eq!(format_value(&Value::Boolean(false)), "false");
    assert_eq!(format_value(&Value::Datetime("07:32:00".to_string())), "07:32:00");
    assert_eq!(format_value(&Value::Array(vec![])), "[]");
    assert_eq!(format_value(&Value::Table(Table::new())), "{}");
    assert_eq!(
        format_value(&Value::Array(vec![Value::String("a \"b\"".to_string())])),
        "[\"a \\\"b\\\"\"]"
    );
}

#[test]
fn errors_say_what_went_wrong() {
    assert_eq!(Error::MalformedPath.message(), "the key cannot be read as a path");
    assert_eq!(
        Error::MalformedLiteral.message(),
        "the value opens an array or a table that it does not close"
    );
    assert_ne!(Error::MalformedPath, Error::MalformedLiteral);
}

#[test]
fn a_copy_is_equal_and_apart() {
    let mut inner = Table::new();
    inner.insert("k".to_string(), Value::Array(vec![Value::Integer(1), Value::Boolean(true)]));
    inner.insert("f".to_string(), Value::Float("0.5".to_string()));
    let value = Value::Array(vec![
        Value::Table(inner),
        Value::String("s".to_string()),
        Value::Datetime("1979-05-27".to_string()),
    ]);
    let mut copy = value.clone();
    assert_eq!(copy, value);
    assert_eq!(value.duplicate(), value);
    ctoml::set_value(&mut copy, "x", "1").unwrap();
    assert_ne!(copy, value);
}
