use ctoml::{get_value, Table, Value};

fn table(entries: Vec<(&str, Value)>) -> Value {
    let mut t = Table::new();
    for (key, value) in entries {
        t.insert(key.to_string(), value);
    }
    Value::Table(t)
}

fn text(s: &str) -> Value {
    Value::String(s.to_string())
}

fn ints(values: &[i64]) -> Value {
    Value::Array(values.iter().map(|i| Value::Integer(*i)).collect())
}

fn create_sample_toml() -> Value {
    table(vec![
        (
            "foo",
            table(vec![
                ("bar", text("some string")),
                ("colors", Value::Array(vec![text("red"), text("yellow"), text("green")])),
                ("nested_arrays_of_ints", Value::Array(vec![ints(&[1, 2]), ints(&[3, 4, 5])])),
                ("name", table(vec![("first", text("Tom")), ("last", text("Preston-Werner"))])),
            ]),
        ),
        ("fruits", table(vec![("apples", Value::Integer(3)), ("bananas", Value::Integer(5))])),
        (
            "products",
            Value::Array(vec![
                table(vec![("name", text("Hammer")), ("sku", Value::Integer(738594937))]),
                table(vec![("name", text("Nail")), ("sku", Value::Integer(284758393))]),
            ]),
        ),
        ("deep", table(vec![("nested", table(vec![("value", Value::Integer(42))]))])),
    ])
}

#[test]
fn test_get_simple_values() {
    let toml_value = create_sample_toml();

    assert_eq!(get_value(&toml_value, "foo.bar"), "some string");
    assert_eq!(get_value(&toml_value, "fruits.apples"), "3");
    assert_eq!(get_value(&toml_value, "deep.nested.value"), "42");
}

#[test]
fn test_get_array_values() {
    let toml_value = create_sample_toml();

    assert_eq!(get_value(&toml_value, "foo.colors"), "[\"red\",\"yellow\",\"green\"]");
    assert_eq!(get_value(&toml_value, "foo.colors[1]"), "yellow");
    assert_eq!(get_value(&toml_value, "foo.colors[3]"), "");
}

#[test]
fn test_get_nested_array_values() {
    let toml_value = create_sample_toml();

    assert_eq!(get_value(&toml_value, "foo.nested_arrays_of_ints[0]"), "[1,2]");
    assert_eq!(get_value(&toml_value, "foo.nested_arrays_of_ints[0][0]"), "1");
    assert_eq!(get_value(&toml_value, "foo.nested_arrays_of_ints[1][1]"), "4");
    assert_eq!(get_value(&toml_value, "foo.nested_arrays_of_ints[2][0]"), "");
}

#[test]
fn test_get_table_values() {
    let toml_value = create_sample_toml();

    assert_eq!(
        get_value(&toml_value, "foo.name"),
        "{\"first\":\"Tom\",\"last\":\"Preston-Werner\"}"
    );
    assert_eq!(get_value(&toml_value, "foo.name.first"), "Tom");
    assert_eq!(get_value(&toml_value, "fruits"), "{\"apples\":3,\"bananas\":5}");
}

#[test]
fn test_get_array_of_tables() {
    let toml_value = create_sample_toml();

    assert_eq!(
        get_value(&toml_value, "products"),
        "[{\"name\":\"Hammer\",\"sku\":738594937},{\"name\":\"Nail\",\"sku\":284758393}]"
    );
    assert_eq!(get_value(&toml_value, "products[1]"), "{\"name\":\"Nail\",\"sku\":284758393}");
    assert_eq!(get_value(&toml_value, "products[1].sku"), "284758393");
    assert_eq!(get_value(&toml_value, "products[1].name"), "Nail");
    assert_eq!(get_value(&toml_value, "products[2].name"), "");
}

#[test]
fn test_get_nonexistent_values() {
    let toml_value = create_sample_toml();

    assert_eq!(get_value(&toml_value, "nonexistent"), "");
    assert_eq!(get_value(&toml_value, "foo.nonexistent"), "");
    assert_eq!(get_value(&toml_value, "foo.colors[10]"), "");
    assert_eq!(get_value(&toml_value, "foo.nested_arrays_of_ints[5][1]"), "");
    assert_eq!(get_value(&toml_value, "deep.nested.nonexistent"), "");
}

#[test]
fn get_out_of_range_is_empty() {
    let root = table(vec![("a", table(vec![("b", ints(&[1, 2, 3]))]))]);
    assert_eq!(get_value(&root, "a.b[999]"), "");
    assert_eq!(get_value(&root, "a.b[2]"), "3");
}

#[test]
fn get_refuses_what_it_cannot_read() {
    let root = table(vec![("a", ints(&[1, 2, 3]))]);
    assert_eq!(get_value(&root, "a[x]"), "");
    assert_eq!(get_value(&root, "a[1"), "");
    assert_eq!(get_value(&root, "a[1]x"), "");
    assert_eq!(get_value(&root, "a]"), "");
    assert_eq!(get_value(&root, "a[]"), "");
    assert_eq!(get_value(&root, "a[:1]"), "");
    assert_eq!(get_value(&root, "a[1:]"), "");
    assert_eq!(get_value(&root, "a[0,1]"), "");
    assert_eq!(get_value(&root, "a[99999999999999999999999999]"), "");
    assert_eq!(get_value(&root, "a.b"), "");
    assert_eq!(get_value(&root, "a[0][0]"), "");
}

#[test]
fn get_renders_scalars_plainly() {
    let root = table(vec![
        ("i", Value::Integer(-17)),
        ("min", Value::Integer(i64::MIN)),
        ("max", Value::Integer(i64::MAX)),
        ("zero", Value::Integer(0)),
        ("f", Value::Float("3.14".to_string())),
        ("yes", Value::Boolean(true)),
        ("no", Value::Boolean(false)),
        ("when", Value::Datetime("1979-05-27T07:32:00Z".to_string())),
        ("s", text("say \"hi\"")),
    ]);
    assert_eq!(get_value(&root, "i"), "-17");
    assert_eq!(get_value(&root, "min"), "-9223372036854775808");
    assert_eq!(get_value(&root, "max"), "9223372036854775807");
    assert_eq!(get_value(&root, "zero"), "0");
    assert_eq!(get_value(&root, "f"), "3.14");
    assert_eq!(get_value(&root, "yes"), "true");
    assert_eq!(get_value(&root, "no"), "false");
    assert_eq!(get_value(&root, "when"), "1979-05-27T07:32:00Z");
    assert_eq!(get_value(&root, "s"), "say \"hi\"");
}

#[test]
fn get_renders_composites_as_json() {
    let root = table(vec![(
        "all",
        Value::Array(vec![
            Value::Integer(-1),
            Value::Float("2.5".to_string()),
            Value::Boolean(true),
            Value::Boolean(false),
            text("a\"b\\c\nd\te\u{1}f\u{8}\u{c}\r\u{1f}é"),
            Value::Datetime("1979-05-27".to_string()),
            Value::Array(vec![]),
            table(vec![]),
            table(vec![("k\"", Value::Array(vec![Value::Integer(1)]))]),
        ]),
    )]);
    assert_eq!(
        get_value(&root, "all"),
        "[-1,2.5,true,false,\"a\\\"b\\\\c\\nd\\te\\u0001f\\b\\f\\r\\u001fé\",\"1979-05-27\",[],{},{\"k\\\"\":[1]}]"
    );
}

#[test]
fn get_keeps_the_order_of_insertion() {
    let root = table(vec![(
        "t",
        table(vec![("zeta", Value::Integer(1)), ("alpha", Value::Integer(2))]),
    )]);
    assert_eq!(get_value(&root, "t"), "{\"zeta\":1,\"alpha\":2}");
}

#[test]
fn get_does_not_split_inside_brackets() {
    let root = table(vec![("a", ints(&[1, 2]))]);
    assert_eq!(get_value(&root, "a[1.5]"), "");
    assert_eq!(get_value(&root, "a."), "[1,2]");
}

#[test]
fn try_get_tells_a_bad_path_from_a_missing_value() {
    let root = table(vec![("a", ints(&[1, 2, 3]))]);
    assert_eq!(ctoml::try_get_value(&root, "a[1]"), Ok("2".to_string()));
    assert_eq!(ctoml::try_get_value(&root, "a[9]"), Ok(String::new()));
    assert_eq!(ctoml::try_get_value(&root, "b"), Ok(String::new()));
    assert_eq!(ctoml::try_get_value(&root, "a[:1]"), Ok(String::new()));
    assert_eq!(ctoml::try_get_value(&root, "a[x]"), Err(ctoml::Error::MalformedPath));
    assert_eq!(ctoml::try_get_value(&root, "a[1"), Err(ctoml::Error::MalformedPath));
}
