use ctoml::{parse_indices, parse_key_part, split_first_key, Error, IndexSpec, Segment};

#[test]
fn split_at_the_first_point_outside_brackets() {
    assert_eq!(split_first_key("a.b.c"), ("a", "b.c"));
    assert_eq!(split_first_key("a"), ("a", ""));
    assert_eq!(split_first_key(""), ("", ""));
    assert_eq!(split_first_key("a."), ("a", ""));
    assert_eq!(split_first_key(".a"), ("", "a"));
    assert_eq!(split_first_key("a[1.5].b"), ("a[1.5]", "b"));
    assert_eq!(split_first_key("a[0][1].b.c"), ("a[0][1]", "b.c"));
    assert_eq!(split_first_key("a[.b"), ("a[.b", ""));
    assert_eq!(split_first_key("a].b"), ("a].b", ""));
    assert_eq!(split_first_key("a][.b"), ("a][", "b"));
    assert_eq!(split_first_key("é.ü"), ("é", "ü"));
    assert_eq!(split_first_key("a{.}b"), ("a{", "}b"));
}

#[test]
fn indices_of_every_form() {
    assert_eq!(parse_indices(""), Ok(vec![]));
    assert_eq!(parse_indices("[3]"), Ok(vec![IndexSpec::Explicit(3)]));
    assert_eq!(parse_indices("[007]"), Ok(vec![IndexSpec::Explicit(7)]));
    assert_eq!(parse_indices("[]"), Ok(vec![IndexSpec::Append]));
    assert_eq!(parse_indices("[:2]"), Ok(vec![IndexSpec::SliceKeepFromEnd(2)]));
    assert_eq!(parse_indices("[2:]"), Ok(vec![IndexSpec::SliceFromIndex(2)]));
    assert_eq!(parse_indices("[0,2,4]"), Ok(vec![IndexSpec::MultiIndex(vec![0, 2, 4])]));
    assert_eq!(parse_indices("[4, 0 ,4]"), Ok(vec![IndexSpec::MultiIndex(vec![4, 0, 4])]));
    assert_eq!(
        parse_indices("[0][1][]"),
        Ok(vec![IndexSpec::Explicit(0), IndexSpec::Explicit(1), IndexSpec::Append])
    );
    assert_eq!(
        parse_indices(&format!("[{}]", usize::MAX)),
        Ok(vec![IndexSpec::Explicit(usize::MAX)])
    );
}

#[test]
fn indices_that_cannot_be_read() {
    for chain in [
        "[", "]", "[1", "1]", "x[1]", "[1]x", "[1] [2]", "[x]", "[-1]", "[+1]", "[ 1]", "[1.0]",
        "[:]", "[:x]", "[x:]", "[1:2]", "[::]", "[1,]", "[,]", "[,1]", "[1,,2]", "[1,x]", "[[1]]",
        "[1]]", "[99999999999999999999999999]", "[:99999999999999999999999999]", "[1;2]",
    ] {
        assert_eq!(parse_indices(chain), Err(Error::MalformedPath), "{}", chain);
    }
}

#[test]
fn key_parts() {
    assert_eq!(parse_key_part("name"), Ok(Segment { name: "name".to_string(), indices: vec![] }));
    assert_eq!(parse_key_part(""), Ok(Segment { name: String::new(), indices: vec![] }));
    assert_eq!(
        parse_key_part("ports[2][]"),
        Ok(Segment {
            name: "ports".to_string(),
            indices: vec![IndexSpec::Explicit(2), IndexSpec::Append]
        })
    );
    assert_eq!(
        parse_key_part("[1]"),
        Ok(Segment { name: String::new(), indices: vec![IndexSpec::Explicit(1)] })
    );
    assert_eq!(
        parse_key_part("a b[0,1]"),
        Ok(Segment { name: "a b".to_string(), indices: vec![IndexSpec::MultiIndex(vec![0, 1])] })
    );
    assert_eq!(parse_key_part("a]"), Err(Error::MalformedPath));
    assert_eq!(parse_key_part("a]b[0]"), Err(Error::MalformedPath));
    assert_eq!(parse_key_part("a[0"), Err(Error::MalformedPath));
    assert_eq!(parse_key_part("a[0]b"), Err(Error::MalformedPath));
}
