use ctoml::{parse_value, Error, Table, Value};

#[test]
fn test_parse_simple_values() {
    assert_eq!(parse_value("42").unwrap(), Value::Integer(42));
    assert_eq!(parse_value("3.14").unwrap(), Value::Float("3.14".to_string()));
    assert_eq!(parse_value("true").unwrap(), Value::Boolean(true));
    assert_eq!(parse_value("false").unwrap(), Value::Boolean(false));
    assert_eq!(parse_value("\"hello\"").unwrap(), Value::String("hello".to_string()));
}

#[test]
fn test_parse_arrays() {
    assert_eq!(
        parse_value("[1, 2, 3]").unwrap(),
        Value::Array(vec![Value::Integer(1), Value::Integer(2), Value::Integer(3)])
    );
    assert_eq!(
        parse_value("[\"a\", \"b\", \"c\"]").unwrap(),
        Value::Array(vec![
            Value::String("a".to_string()),
            Value::String("b".to_string()),
            Value::String("c".to_string())
        ])
    );
}

#[test]
fn test_parse_nested_arrays() {
    assert_eq!(
        parse_value("[[1, 2], [3, 4]]").unwrap(),
        Value::Array(vec![
            Value::Array(vec![Value::Integer(1), Value::Integer(2)]),
            Value::Array(vec![Value::Integer(3), Value::Integer(4)])
        ])
    );
}

#[test]
fn test_parse_tables() {
    let parsed = parse_value("{key1: \"value1\", key2: 42}").unwrap();
    if let Value::Table(table) = parsed {
        assert_eq!(table.get("key1"), Some(&Value::String("value1".to_string())));
        assert_eq!(table.get("key2"), Some(&Value::Integer(42)));
    } else {
        panic!("Expected a table");
    }
}

#[test]
fn test_parse_empty_structures() {
    assert_eq!(parse_value("[]").unwrap(), Value::Array(vec![]));
    assert_eq!(parse_value("{}").unwrap(), Value::Table(Table::new()));
}

#[test]
fn test_parse_whitespace_handling() {
    assert_eq!(parse_value(" 42 ").unwrap(), Value::Integer(42));
    assert_eq!(
        parse_value("\t[1, 2, 3]\n").unwrap(),
        Value::Array(vec![Value::Integer(1), Value::Integer(2), Value::Integer(3)])
    );
}

#[test]
fn test_parse_invalid_input() {
    assert_eq!(parse_value("[1, 2, 3").unwrap(), Value::String("[1, 2, 3".to_string()));
    assert_eq!(parse_value("{key: value").unwrap(), Value::String("{key: value".to_string()));
}

fn text(s: &str) -> Value {
    Value::String(s.to_string())
}

fn float(s: &str) -> Value {
    Value::Float(s.to_string())
}

#[test]
fn parse_integers_at_the_limits() {
    assert_eq!(parse_value("9223372036854775807").unwrap(), Value::Integer(i64::MAX));
    assert_eq!(parse_value("-9223372036854775808").unwrap(), Value::Integer(i64::MIN));
    assert_eq!(parse_value("+7").unwrap(), Value::Integer(7));
    assert_eq!(parse_value("-0").unwrap(), Value::Integer(0));
    assert_eq!(parse_value("007").unwrap(), Value::Integer(7));
    assert_eq!(parse_value("9223372036854775808").unwrap(), float("9223372036854775808"));
    assert_eq!(parse_value("-9223372036854775809").unwrap(), float("-9223372036854775809"));
    assert_eq!(parse_value("-").unwrap(), text("-"));
    assert_eq!(parse_value("+").unwrap(), text("+"));
    assert_eq!(parse_value("1_000").unwrap(), text("1_000"));
    assert_eq!(parse_value("12a").unwrap(), text("12a"));
}

#[test]
fn parse_floats_by_their_grammar() {
    for literal in [
        "1.0", "1.", ".5", "-.5", "+1.5", "1e5", "1E5", "1e+5", "1.5e-3", "inf", "-inf", "+inf",
        "Infinity", "INFINITY", "nan", "NaN", "-nan", "0.0",
    ] {
        assert_eq!(parse_value(literal).unwrap(), float(literal), "{}", literal);
    }
    for literal in
        [".", "e5", "1e", "1e+", ".e1", "1.5.2", "in", "infinit", "nane", "1 .5", "0x10", "1f"]
    {
        assert_eq!(parse_value(literal).unwrap(), text(literal), "{}", literal);
    }
}

#[test]
fn parse_booleans_only_in_lower_case() {
    assert_eq!(parse_value("True").unwrap(), text("True"));
    assert_eq!(parse_value("FALSE").unwrap(), text("FALSE"));
    assert_eq!(parse_value(" true ").unwrap(), Value::Boolean(true));
}

#[test]
fn parse_quoted_text_without_escapes() {
    assert_eq!(parse_value("\"42\"").unwrap(), text("42"));
    assert_eq!(parse_value("\"a\\nb\"").unwrap(), text("a\\nb"));
    assert_eq!(parse_value("\"\"").unwrap(), text(""));
    assert_eq!(parse_value("\"").unwrap(), text("\""));
    assert_eq!(parse_value("\"abc").unwrap(), text("\"abc"));
    assert_eq!(parse_value("").unwrap(), text(""));
    assert_eq!(parse_value("   ").unwrap(), text(""));
    assert_eq!(parse_value("plain text").unwrap(), text("plain text"));
}

#[test]
fn parse_spread_gives_the_array() {
    assert_eq!(
        parse_value("...[4, 5, 6]").unwrap(),
        Value::Array(vec![Value::Integer(4), Value::Integer(5), Value::Integer(6)])
    );
    assert_eq!(parse_value("... [1]").unwrap(), Value::Array(vec![Value::Integer(1)]));
    assert_eq!(parse_value("...[]").unwrap(), Value::Array(vec![]));
    assert_eq!(parse_value("...5"), Err(Error::MalformedLiteral));
    assert_eq!(parse_value("..."), Err(Error::MalformedLiteral));
    assert_eq!(parse_value("...[1, 2"), Err(Error::MalformedLiteral));
    assert_eq!(parse_value("..[1]").unwrap(), text("..[1]"));
}

#[test]
fn parse_refuses_unbalanced_brackets() {
    assert_eq!(parse_value("[1]]"), Err(Error::MalformedLiteral));
    assert_eq!(parse_value("[[1]"), Err(Error::MalformedLiteral));
    assert_eq!(parse_value("[1, [2, 3]"), Err(Error::MalformedLiteral));
    assert_eq!(parse_value("[}]"), Err(Error::MalformedLiteral));
    assert_eq!(parse_value("{a: [1}"), Err(Error::MalformedLiteral));
    assert_eq!(parse_value("{a: 1}}"), Err(Error::MalformedLiteral));
    assert_eq!(parse_value("[1, [2]], 3]"), Err(Error::MalformedLiteral));
}

#[test]
fn parse_arrays_cut_at_the_top_level_only() {
    assert_eq!(
        parse_value("[[1, 2], {a: 1, b: 2}, x]").unwrap(),
        Value::Array(vec![
            Value::Array(vec![Value::Integer(1), Value::Integer(2)]),
            {
                let mut t = Table::new();
                t.insert("a".to_string(), Value::Integer(1));
                t.insert("b".to_string(), Value::Integer(2));
                Value::Table(t)
            },
            text("x"),
        ])
    );
    assert_eq!(
        parse_value("[1,,2,]").unwrap(),
        Value::Array(vec![Value::Integer(1), Value::Integer(2)])
    );
    assert_eq!(
        parse_value("[1, ,2]").unwrap(),
        Value::Array(vec![Value::Integer(1), text(""), Value::Integer(2)])
    );
    assert_eq!(parse_value("[  ]").unwrap(), Value::Array(vec![]));
    assert_eq!(parse_value("[,]").unwrap(), Value::Array(vec![]));
}

#[test]
fn parse_tables_entry_by_entry() {
    let parsed = parse_value("{ a : 1, b: [1, 2], c: {d: e}, url: http://x, a: 2 }").unwrap();
    let mut inner = Table::new();
    inner.insert("d".to_string(), text("e"));
    let mut expected = Table::new();
    expected.insert("a".to_string(), Value::Integer(2));
    expected.insert("b".to_string(), Value::Array(vec![Value::Integer(1), Value::Integer(2)]));
    expected.insert("c".to_string(), Value::Table(inner));
    expected.insert("url".to_string(), text("http://x"));
    assert_eq!(parsed, Value::Table(expected));
    assert_eq!(parse_value("{ }").unwrap(), Value::Table(Table::new()));
    assert_eq!(parse_value("{a}"), Err(Error::MalformedLiteral));
    assert_eq!(parse_value("{a: 1,}"), Err(Error::MalformedLiteral));
    assert_eq!(parse_value("{a: 1, b}"), Err(Error::MalformedLiteral));
    assert_eq!(parse_value("{a: ...5}"), Err(Error::MalformedLiteral));
    assert_eq!(parse_value("[...5]"), Err(Error::MalformedLiteral));
}

#[test]
fn parse_trims_unicode_white_space() {
    assert_eq!(parse_value("\u{a0}\u{2003}42\u{3000}\r\n").unwrap(), Value::Integer(42));
    assert_eq!(parse_value("\u{200b}42").unwrap(), text("\u{200b}42"));
}
