use ctoml::remove::handle_array_removal;
use ctoml::{get_value, remove_value, Error, IndexSpec, Table, Value};

fn table(entries: Vec<(&str, Value)>) -> Value {
    let mut t = Table::new();
    for (key, value) in entries {
        t.insert(key.to_string(), value);
    }
    Value::Table(t)
}

fn text(s: &str) -> Value {
    Value::String(s.to_string())
}

fn ints(values: &[i64]) -> Value {
    Value::Array(values.iter().map(|i| Value::Integer(*i)).collect())
}

fn create_sample_toml() -> Value {
    table(vec![
        (
            "foo",
            table(vec![
                ("integers", ints(&[1, 2, 3, 4, 5])),
                ("nested_arrays_of_ints", Value::Array(vec![ints(&[0, 1]), ints(&[3, 4, 5])])),
            ]),
        ),
        ("bar", table(vec![("name", text("test"))])),
        (
            "products",
            Value::Array(vec![
                table(vec![("name", text("Hammer")), ("sku", Value::Integer(738594937))]),
                table(vec![("name", text("Nail")), ("sku", Value::Integer(284758393))]),
            ]),
        ),
    ])
}

#[test]
fn test_remove_simple_values() {
    let mut toml_value = create_sample_toml();

    remove_value(&mut toml_value, "foo.integers").unwrap();
    assert_eq!(get_value(&toml_value, "foo.integers"), "");

    remove_value(&mut toml_value, "bar.name").unwrap();
    assert_eq!(get_value(&toml_value, "bar.name"), "");

    remove_value(&mut toml_value, "bar").unwrap();
    assert_eq!(get_value(&toml_value, "bar"), "");
}

#[test]
fn test_remove_array_slices() {
    let mut toml_value = create_sample_toml();

    remove_value(&mut toml_value, "foo.integers[:2]").unwrap();
    assert_eq!(get_value(&toml_value, "foo.integers"), "[1,2,3]");

    let mut toml_value = create_sample_toml();
    remove_value(&mut toml_value, "foo.integers[2:]").unwrap();
    assert_eq!(get_value(&toml_value, "foo.integers"), "[3,4,5]");
}

#[test]
fn test_remove_array_elements() {
    let mut toml_value = create_sample_toml();

    remove_value(&mut toml_value, "foo.integers[1]").unwrap();
    assert_eq!(get_value(&toml_value, "foo.integers"), "[1,3,4,5]");

    let mut toml_value = create_sample_toml();
    remove_value(&mut toml_value, "foo.integers[0,2,4]").unwrap();
    assert_eq!(get_value(&toml_value, "foo.integers"), "[2,4]");
}

#[test]
fn test_remove_nested_array_elements() {
    let mut toml_value = create_sample_toml();

    remove_value(&mut toml_value, "foo.nested_arrays_of_ints[0][:1]").unwrap();
    assert_eq!(get_value(&toml_value, "foo.nested_arrays_of_ints[0]"), "[0]");

    let mut toml_value = create_sample_toml();
    remove_value(&mut toml_value, "foo.nested_arrays_of_ints[1][1:]").unwrap();
    assert_eq!(get_value(&toml_value, "foo.nested_arrays_of_ints[1]"), "[4,5]");

    let mut toml_value = create_sample_toml();
    remove_value(&mut toml_value, "foo.nested_arrays_of_ints[1][0,2]").unwrap();
    assert_eq!(get_value(&toml_value, "foo.nested_arrays_of_ints[1]"), "[4]");
}

#[test]
fn test_remove_array_of_tables() {
    let mut toml_value = create_sample_toml();

    remove_value(&mut toml_value, "products[0]").unwrap();
    assert_eq!(get_value(&toml_value, "products[0].name"), "Nail");

    remove_value(&mut toml_value, "products").unwrap();
    assert_eq!(get_value(&toml_value, "products"), "");
}

#[test]
fn test_remove_nonexistent_values() {
    let mut toml_value = create_sample_toml();

    remove_value(&mut toml_value, "nonexistent").unwrap();
    remove_value(&mut toml_value, "foo.nonexistent").unwrap();
    remove_value(&mut toml_value, "foo.integers[10]").unwrap();
    remove_value(&mut toml_value, "foo.nested_arrays_of_ints[5][1]").unwrap();

    assert_eq!(get_value(&toml_value, "foo.integers"), "[1,2,3,4,5]");
    assert_eq!(get_value(&toml_value, "foo.nested_arrays_of_ints"), "[[0,1],[3,4,5]]");
}

#[test]
fn test_remove_array_slices_edge_cases() {
    let mut toml_value = create_sample_toml();

    remove_value(&mut toml_value, "foo.integers[:10]").unwrap();
    assert_eq!(get_value(&toml_value, "foo.integers"), "[]");

    let mut toml_value = create_sample_toml();
    remove_value(&mut toml_value, "foo.integers[10:]").unwrap();
    assert_eq!(get_value(&toml_value, "foo.integers"), "[]");

    let mut toml_value = create_sample_toml();
    remove_value(&mut toml_value, "foo.integers[:0]").unwrap();
    assert_eq!(get_value(&toml_value, "foo.integers"), "[1,2,3,4,5]");

    let mut toml_value = create_sample_toml();
    remove_value(&mut toml_value, "foo.integers[0:]").unwrap();
    assert_eq!(get_value(&toml_value, "foo.integers"), "[]");
}

fn five() -> Value {
    table(vec![("a", ints(&[1, 2, 3, 4, 5]))])
}

fn after(key: &str) -> String {
    let mut root = five();
    remove_value(&mut root, key).unwrap();
    get_value(&root, "a")
}

#[test]
fn remove_slices_are_not_alike() {
    assert_eq!(after("a[:2]"), "[1,2,3]");
    assert_eq!(after("a[2:]"), "[3,4,5]");
    assert_eq!(after("a[:0]"), "[1,2,3,4,5]");
    assert_eq!(after("a[0:]"), "[]");
    assert_eq!(after("a[:5]"), "[]");
    assert_eq!(after("a[5:]"), "[]");
    assert_eq!(after("a[:4]"), "[1]");
    assert_eq!(after("a[4:]"), "[5]");
    assert_eq!(after("a[:1]"), "[1,2,3,4]");
    assert_eq!(after("a[1:]"), "[2,3,4,5]");
    assert_eq!(after("a[:6]"), "[]");
    assert_eq!(after("a[6:]"), "[]");
}

#[test]
fn remove_listed_positions_in_any_order() {
    assert_eq!(after("a[0,2,4]"), "[2,4]");
    assert_eq!(after("a[4,2,0]"), "[2,4]");
    assert_eq!(after("a[2,0,4]"), "[2,4]");
    assert_eq!(after("a[2, 4 ,0]"), "[2,4]");
    assert_eq!(after("a[0,0,2,4,2]"), "[2,4]");
    assert_eq!(after("a[0,9,4]"), "[2,3,4]");
    assert_eq!(after("a[7,8]"), "[1,2,3,4,5]");
    assert_eq!(after("a[0,1,2,3,4]"), "[]");
}

#[test]
fn remove_single_positions_and_all() {
    assert_eq!(after("a[0]"), "[2,3,4,5]");
    assert_eq!(after("a[4]"), "[1,2,3,4]");
    assert_eq!(after("a[5]"), "[1,2,3,4,5]");
    assert_eq!(after("a[]"), "[]");
}

#[test]
fn remove_refuses_what_it_cannot_read() {
    for key in [
        "a[x]", "a[:x]", "a[x:]", "a[1,x]", "a[1,]", "a[,1]", "a[:]", "a[1:2]", "a[", "a]", "a[1]x",
        "a[[1]]", "a[ 1 ]", "a[+1]", "a[-1]", "a[99999999999999999999999999]", "a.b[", "x.a[1]]",
    ] {
        let mut root = five();
        assert_eq!(remove_value(&mut root, key), Err(Error::MalformedPath), "{}", key);
        assert_eq!(root, five(), "{}", key);
    }
}

#[test]
fn remove_where_nothing_is_changes_nothing() {
    for key in [
        "b", "a.b", "a[0].b", "a[0][0]", "a[9][0]", "a[][0]", "a[:1][0]", "a[0,1].x", "", "a..b",
        "b[]", "b[:1]",
    ] {
        let mut root = five();
        assert_eq!(remove_value(&mut root, key), Ok(()), "{}", key);
        assert_eq!(root, five(), "{}", key);
    }
}

#[test]
fn remove_twice_is_remove_once() {
    let sample = create_sample_toml();
    for key in ["bar", "bar.name", "foo.integers[]", "foo.integers[0:]", "foo.integers[:0]", "products[1].sku", "nothing.here"] {
        let mut once = create_sample_toml();
        remove_value(&mut once, key).unwrap();
        let mut twice = create_sample_toml();
        remove_value(&mut twice, key).unwrap();
        remove_value(&mut twice, key).unwrap();
        assert_eq!(once, twice, "{}", key);
    }
    let mut twice = create_sample_toml();
    remove_value(&mut twice, "foo.integers[0]").unwrap();
    remove_value(&mut twice, "foo.integers[0]").unwrap();
    assert_eq!(get_value(&twice, "foo.integers"), "[3,4,5]");
    assert_eq!(get_value(&sample, "foo.integers"), "[1,2,3,4,5]");
}

#[test]
fn remove_reaches_arrays_inside_arrays() {
    let mut root = table(vec![(
        "m",
        Value::Array(vec![
            Value::Array(vec![ints(&[1, 2, 3]), ints(&[4, 5, 6])]),
            Value::Array(vec![ints(&[7, 8, 9])]),
        ]),
    )]);
    remove_value(&mut root, "m[0][1][1]").unwrap();
    assert_eq!(get_value(&root, "m"), "[[[1,2,3],[4,6]],[[7,8,9]]]");
    remove_value(&mut root, "m[1][0][:2]").unwrap();
    assert_eq!(get_value(&root, "m"), "[[[1,2,3],[4,6]],[[7]]]");
    remove_value(&mut root, "m[0][0][0,2]").unwrap();
    assert_eq!(get_value(&root, "m"), "[[[2],[4,6]],[[7]]]");
    remove_value(&mut root, "m[0][1][]").unwrap();
    assert_eq!(get_value(&root, "m"), "[[[2],[]],[[7]]]");
    remove_value(&mut root, "m[0][0]").unwrap();
    assert_eq!(get_value(&root, "m"), "[[[]],[[7]]]");
}

#[test]
fn remove_keeps_the_other_entries_in_order() {
    let mut root = table(vec![
        ("z", Value::Integer(1)),
        ("m", Value::Integer(2)),
        ("a", Value::Integer(3)),
    ]);
    remove_value(&mut root, "m").unwrap();
    assert_eq!(root, table(vec![("z", Value::Integer(1)), ("a", Value::Integer(3))]));
}

#[test]
fn remove_twice_differs_only_where_positions_shift() {
    for (key, same) in [
        ("a[4]", true),
        ("a[5]", true),
        ("a[3]", false),
        ("a[0]", false),
        ("a[:5]", true),
        ("a[:9]", true),
        ("a[:0]", true),
        ("a[:1]", false),
        ("a[5:]", true),
        ("a[0:]", true),
        ("a[1:]", false),
        ("a[4:]", false),
        ("a[]", true),
        ("a[3,4]", true),
        ("a[2,3,4]", true),
        ("a[0,4]", false),
        ("a[9,7]", true),
        ("a[1,2,3]", false),
        ("a", true),
        ("b[0]", true),
        ("a[0][0]", true),
    ] {
        let mut once = five();
        remove_value(&mut once, key).unwrap();
        let mut twice = five();
        remove_value(&mut twice, key).unwrap();
        remove_value(&mut twice, key).unwrap();
        assert_eq!(once == twice, same, "{}", key);
    }
}

#[test]
fn remove_lands_in_an_array_that_a_nameless_segment_meets() {
    let mut root = ints(&[1, 2, 3]);
    assert_eq!(remove_value(&mut root, "[0]"), Ok(()));
    assert_eq!(root, ints(&[2, 3]));

    let mut root = table(vec![("a", ints(&[1, 2, 3]))]);
    assert_eq!(remove_value(&mut root, "a.[0]"), Ok(()));
    assert_eq!(root, table(vec![("a", ints(&[2, 3]))]));
    assert_eq!(get_value(&root, "a"), "[2,3]");
}

#[test]
fn remove_at_an_array_takes_every_form_of_index() {
    for (key, expected) in [
        ("[4]", vec![1, 2, 3, 4]),
        ("[5]", vec![1, 2, 3, 4, 5]),
        ("[]", vec![]),
        ("[:2]", vec![1, 2, 3]),
        ("[2:]", vec![3, 4, 5]),
        ("[:0]", vec![1, 2, 3, 4, 5]),
        ("[0:]", vec![]),
        ("[0,2,4]", vec![2, 4]),
        ("[4,0,2]", vec![2, 4]),
    ] {
        let mut root = ints(&[1, 2, 3, 4, 5]);
        assert_eq!(remove_value(&mut root, key), Ok(()), "{}", key);
        assert_eq!(root, ints(&expected), "{}", key);

        let mut below = table(vec![("a", table(vec![("b", ints(&[1, 2, 3, 4, 5]))]))]);
        let nested = format!("a.b.{}", key);
        assert_eq!(remove_value(&mut below, &nested), Ok(()), "{}", nested);
        assert_eq!(
            below,
            table(vec![("a", table(vec![("b", ints(&expected))]))]),
            "{}",
            nested
        );
    }
}

#[test]
fn remove_goes_on_from_an_array_that_a_nameless_segment_meets() {
    let rows = || {
        Value::Array(vec![
            Value::Array(vec![ints(&[1, 2]), ints(&[3, 4])]),
            Value::Array(vec![
                table(vec![("k", Value::Integer(5)), ("l", Value::Integer(6))]),
                ints(&[7]),
            ]),
        ])
    };
    let mut root = rows();
    remove_value(&mut root, "[0][1][0]").unwrap();
    assert_eq!(
        root,
        Value::Array(vec![
            Value::Array(vec![ints(&[1, 2]), ints(&[4])]),
            Value::Array(vec![
                table(vec![("k", Value::Integer(5)), ("l", Value::Integer(6))]),
                ints(&[7]),
            ]),
        ])
    );

    let mut root = rows();
    remove_value(&mut root, "[1][0].k").unwrap();
    assert_eq!(
        root,
        Value::Array(vec![
            Value::Array(vec![ints(&[1, 2]), ints(&[3, 4])]),
            Value::Array(vec![table(vec![("l", Value::Integer(6))]), ints(&[7])]),
        ])
    );

    let mut root = table(vec![("m", rows())]);
    remove_value(&mut root, "m.[1].[1].[]").unwrap();
    assert_eq!(get_value(&root, "m"), "[[[1,2],[3,4]],[{\"k\":5,\"l\":6},[]]]");

    let mut root = table(vec![("m", rows())]);
    remove_value(&mut root, "m[0].[0]").unwrap();
    assert_eq!(get_value(&root, "m"), "[[[3,4]],[{\"k\":5,\"l\":6},[7]]]");
}

#[test]
fn remove_by_a_name_finds_nothing_in_an_array() {
    for key in ["x", "x[0]", "0", "", ".[0]", "[0].x", "[9][0]", "[:1][0]", "[].x"] {
        let mut root = ints(&[1, 2, 3]);
        assert_eq!(remove_value(&mut root, key), Ok(()), "{}", key);
        assert_eq!(root, ints(&[1, 2, 3]), "{}", key);
    }
    for key in ["a.x", "a.x[0]", "a..[0]", "a.[0].x"] {
        let mut root = table(vec![("a", ints(&[1, 2, 3]))]);
        assert_eq!(remove_value(&mut root, key), Ok(()), "{}", key);
        assert_eq!(root, table(vec![("a", ints(&[1, 2, 3]))]), "{}", key);
    }
    let mut scalar = Value::Integer(7);
    assert_eq!(remove_value(&mut scalar, "[0]"), Ok(()));
    assert_eq!(scalar, Value::Integer(7));
    let mut in_table = table(vec![("a", ints(&[1, 2, 3]))]);
    assert_eq!(remove_value(&mut in_table, "[0]"), Ok(()));
    assert_eq!(in_table, table(vec![("a", ints(&[1, 2, 3]))]));
}

#[test]
fn remove_twice_at_an_array_differs_where_positions_shift() {
    for (key, same) in [("[0]", false), ("[2]", true), ("[]", true), ("[:1]", false), ("[0:]", true), ("[1,2]", true), ("[0,1]", false)] {
        let mut once = ints(&[1, 2, 3]);
        remove_value(&mut once, key).unwrap();
        let mut twice = ints(&[1, 2, 3]);
        remove_value(&mut twice, key).unwrap();
        remove_value(&mut twice, key).unwrap();
        assert_eq!(once == twice, same, "{}", key);
    }
}

#[test]
fn deletions_by_index_on_a_plain_array() {
    let after = |index: IndexSpec| {
        let mut arr = vec![
            Value::Integer(1),
            Value::Integer(2),
            Value::Integer(3),
            Value::Integer(4),
            Value::Integer(5),
        ];
        handle_array_removal(&mut arr, &index);
        Value::Array(arr)
    };
    assert_eq!(after(IndexSpec::Explicit(1)), ints(&[1, 3, 4, 5]));
    assert_eq!(after(IndexSpec::Explicit(5)), ints(&[1, 2, 3, 4, 5]));
    assert_eq!(after(IndexSpec::Append), ints(&[]));
    assert_eq!(after(IndexSpec::SliceKeepFromEnd(0)), ints(&[1, 2, 3, 4, 5]));
    assert_eq!(after(IndexSpec::SliceKeepFromEnd(2)), ints(&[1, 2, 3]));
    assert_eq!(after(IndexSpec::SliceKeepFromEnd(5)), ints(&[]));
    assert_eq!(after(IndexSpec::SliceKeepFromEnd(usize::MAX)), ints(&[]));
    assert_eq!(after(IndexSpec::SliceFromIndex(0)), ints(&[]));
    assert_eq!(after(IndexSpec::SliceFromIndex(2)), ints(&[3, 4, 5]));
    assert_eq!(after(IndexSpec::SliceFromIndex(5)), ints(&[]));
    assert_eq!(after(IndexSpec::SliceFromIndex(usize::MAX)), ints(&[]));
    assert_eq!(after(IndexSpec::MultiIndex(vec![0, 2, 4])), ints(&[2, 4]));
    assert_eq!(after(IndexSpec::MultiIndex(vec![4, 0, 2])), ints(&[2, 4]));
    assert_eq!(after(IndexSpec::MultiIndex(vec![2, 4, 0, 2])), ints(&[2, 4]));
    assert_eq!(after(IndexSpec::MultiIndex(vec![9])), ints(&[1, 2, 3, 4, 5]));
    assert_eq!(after(IndexSpec::MultiIndex(vec![])), ints(&[1, 2, 3, 4, 5]));
}
