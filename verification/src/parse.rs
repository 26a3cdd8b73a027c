//! From the literal that a write is given to the value that it denotes.
use crate::error::Error;
use crate::number::{float_literal, integer_literal, is_float_literal, parse_integer};
use crate::scan::{balanced, find_cut, first_cut, is_balanced, lemma_first_cut};
use crate::text::{chars_of, lemma_trimmed_len, text_of, trim, trimmed};
use crate::value::{upsert, view_items, Table, Tree, Value};
use vstd::prelude::*;
use vstd::slice::slice_subrange;

verus! {

/// `t` begins with the three points that ask for an array to be spread.
pub open spec fn has_spread_marker(t: Seq<char>) -> bool {
    t.len() >= 3 && t[0] == '.' && t[1] == '.' && t[2] == '.'
}

/// `t` begins with `open` and ends with `close`, two characters apart from
/// each other.
pub open spec fn wrapped(t: Seq<char>, open: char, close: char) -> bool {
    t.len() >= 2 && t[0] == open && t.last() == close
}

/// `t` without its first and its last character.
pub open spec fn interior(t: Seq<char>) -> Seq<char> {
    t.subrange(1, t.len() - 1)
}

/// The value that the literal `s` denotes.
pub open spec fn coerce(s: Seq<char>) -> Result<Tree, Error> {
    coerce_trimmed(trimmed(s))
}

/// The value that `t` denotes, a literal without white space around it. The
/// first of these that fits decides: an array to be spread, an integer, a
/// floating-point number, a truth value, a table in braces, an array in
/// brackets, a text in double quotes, and the text `t` itself.
pub open spec fn coerce_trimmed(t: Seq<char>) -> Result<Tree, Error>
    decreases t.len(), 2nat,
{
    if has_spread_marker(t) {
        proof {
            lemma_trimmed_len(t.skip(3));
        }
        array_literal(trimmed(t.skip(3)))
    } else if integer_literal(t) is Some {
        Ok(Tree::Integer(integer_literal(t)->0))
    } else if is_float_literal(t) {
        Ok(Tree::Float(t))
    } else if t == seq!['t', 'r', 'u', 'e'] {
        Ok(Tree::Boolean(true))
    } else if t == seq!['f', 'a', 'l', 's', 'e'] {
        Ok(Tree::Boolean(false))
    } else if wrapped(t, '{', '}') {
        table_literal(t)
    } else if wrapped(t, '[', ']') {
        array_literal(t)
    } else if wrapped(t, '"', '"') {
        Ok(Tree::String(interior(t)))
    } else {
        Ok(Tree::String(t))
    }
}

/// The array that `t` denotes: between brackets, elements apart by commas
/// that stand outside any bracket or brace.
pub open spec fn array_literal(t: Seq<char>) -> Result<Tree, Error>
    decreases t.len(), 1nat,
{
    if !wrapped(t, '[', ']') {
        Err(Error::MalformedLiteral)
    } else if trimmed(interior(t)).len() == 0 {
        Ok(Tree::Array(Seq::empty()))
    } else if !balanced(interior(t), true) {
        Err(Error::MalformedLiteral)
    } else {
        match array_items(interior(t), Seq::empty()) {
            Ok(items) => Ok(Tree::Array(items)),
            Err(e) => Err(e),
        }
    }
}

/// `acc` and after it the elements that `s` holds, apart by commas. A piece
/// without any character is no element.
pub open spec fn array_items(s: Seq<char>, acc: Seq<Tree>) -> Result<Seq<Tree>, Error>
    decreases s.len(), 3nat,
{
    let cut = first_cut(s, ',', true);
    let head = match cut {
        Some(i) => s.take(i),
        None => s,
    };
    proof {
        lemma_first_cut(s, ',', true);
        lemma_trimmed_len(head);
    }
    let next = if head.len() == 0 {
        Ok(acc)
    } else {
        match coerce_trimmed(trimmed(head)) {
            Ok(v) => Ok(acc.push(v)),
            Err(e) => Err(e),
        }
    };
    match (next, cut) {
        (Err(e), _) => Err(e),
        (Ok(items), None) => Ok(items),
        (Ok(items), Some(i)) => array_items(s.skip(i + 1), items),
    }
}

/// The table that `t` denotes: between braces, entries apart by commas that
/// stand outside any bracket or brace.
pub open spec fn table_literal(t: Seq<char>) -> Result<Tree, Error>
    decreases t.len(), 1nat,
{
    if !wrapped(t, '{', '}') {
        Err(Error::MalformedLiteral)
    } else if trimmed(interior(t)).len() == 0 {
        Ok(Tree::Table(Seq::empty()))
    } else if !balanced(interior(t), true) {
        Err(Error::MalformedLiteral)
    } else {
        match table_entries(interior(t), Seq::empty()) {
            Ok(entries) => Ok(Tree::Table(entries)),
            Err(e) => Err(e),
        }
    }
}

/// `acc` with the entries that `s` holds put into it, from left to right.
/// An entry is a key, the first colon, and a literal; white space around the
/// key and around the literal does not count.
pub open spec fn table_entries(s: Seq<char>, acc: Seq<(Seq<char>, Tree)>) -> Result<
    Seq<(Seq<char>, Tree)>,
    Error,
>
    decreases s.len(), 3nat,
{
    let cut = first_cut(s, ',', true);
    let head = match cut {
        Some(i) => s.take(i),
        None => s,
    };
    match head.index_of_first(':') {
        None => Err(Error::MalformedLiteral),
        Some(colon) => {
            proof {
                lemma_first_cut(s, ',', true);
                head.index_of_first_ensures(':');
                lemma_trimmed_len(head.skip(colon + 1));
            }
            match coerce_trimmed(trimmed(head.skip(colon + 1))) {
                Err(e) => Err(e),
                Ok(v) => {
                    let entries = upsert(acc, trimmed(head.take(colon)), v);
                    match cut {
                        None => Ok(entries),
                        Some(i) => table_entries(s.skip(i + 1), entries),
                    }
                },
            }
        },
    }
}

/// `r` is what `model` says: the value with that model, or that error.
pub open spec fn agrees(r: Result<Value, Error>, model: Result<Tree, Error>) -> bool {
    match model {
        Ok(t) => r is Ok && r->Ok_0@ == t,
        Err(e) => r is Err && r->Err_0 == e,
    }
}

/// The place of the first `c` in `s`.
pub(crate) fn find_char(s: &[char], c: char) -> (r: Option<usize>)
    ensures
        match r {
            Some(i) => i < s@.len() && s@.index_of_first(c) == Some(i as int),
            None => s@.index_of_first(c) is None,
        },
{
    proof {
        s@.index_of_first_ensures(c);
    }
    let n = s.len();
    let mut i: usize = 0;
    while i < n
        invariant
            i <= n == s@.len(),
            forall|j: int| 0 <= j < i ==> s@[j] != c,
        decreases n - i,
    {
        if s[i] == c {
            proof {
                s@.index_of_first_ensures(c);
                assert(s@.contains(c));
                let first = s@.index_of_first(c)->0;
                if first < i {
                    assert(s@[first] != c);
                }
                if first > i {
                    assert(s@[i as int] != c);
                }
            }
            return Some(i);
        }
        i += 1;
    }
    None
}

/// Reads the literal `value`.
pub fn parse_value(value: &str) -> (r: Result<Value, Error>)
    ensures
        agrees(r, coerce(value@)),
        r is Ok ==> r->Ok_0@.wf(),
{
    let chars = chars_of(value);
    parse_literal(trim(chars.as_slice()))
}

/// Reads the literal `t`, which has no white space around it.
pub(crate) fn parse_literal(t: &[char]) -> (r: Result<Value, Error>)
    ensures
        agrees(r, coerce_trimmed(t@)),
        r is Ok ==> r->Ok_0@.wf(),
    decreases t@.len(), 2nat,
{
    let n = t.len();
    if n >= 3 && t[0] == '.' && t[1] == '.' && t[2] == '.' {
        proof {
            lemma_trimmed_len(t@.skip(3));
        }
        return parse_array(trim(slice_subrange(t, 3, n)));
    }
    if let Some(i) = parse_integer(t) {
        return Ok(Value::Integer(i));
    }
    if float_literal(t) {
        return Ok(Value::Float(text_of(t)));
    }
    if n == 4 && t[0] == 't' && t[1] == 'r' && t[2] == 'u' && t[3] == 'e' {
        assert(t@ =~= seq!['t', 'r', 'u', 'e']);
        return Ok(Value::Boolean(true));
    }
    if n == 5 && t[0] == 'f' && t[1] == 'a' && t[2] == 'l' && t[3] == 's' && t[4] == 'e' {
        assert(t@ =~= seq!['f', 'a', 'l', 's', 'e']);
        return Ok(Value::Boolean(false));
    }
    if n >= 2 && t[0] == '{' && t[n - 1] == '}' {
        return parse_table(t);
    }
    if n >= 2 && t[0] == '[' && t[n - 1] == ']' {
        return parse_array(t);
    }
    if n >= 2 && t[0] == '"' && t[n - 1] == '"' {
        return Ok(Value::String(text_of(slice_subrange(t, 1, n - 1))));
    }
    Ok(Value::String(text_of(t)))
}

/// Reads `t` as an array in brackets.
fn parse_array(t: &[char]) -> (r: Result<Value, Error>)
    ensures
        agrees(r, array_literal(t@)),
        r is Ok ==> r->Ok_0@.wf(),
    decreases t@.len(), 1nat,
{
    let n = t.len();
    if !(n >= 2 && t[0] == '[' && t[n - 1] == ']') {
        return Err(Error::MalformedLiteral);
    }
    let inner = slice_subrange(t, 1, n - 1);
    let mut items: Vec<Value> = Vec::new();
    assert(view_items(items@) =~= Seq::empty());
    if trim(inner).len() == 0 {
        return Ok(Value::Array(items));
    }
    if !is_balanced(inner, true) {
        return Err(Error::MalformedLiteral);
    }
    let mut rest = inner;
    loop
        invariant
            rest@.len() <= inner@.len() < t@.len(),
            array_items(inner@, Seq::empty()) == array_items(rest@, view_items(items@)),
            forall|k: int| 0 <= k < items@.len() ==> (#[trigger] items@[k])@.wf(),
            wrapped(t@, '[', ']'),
            inner@ == interior(t@),
            trimmed(inner@).len() != 0,
            balanced(inner@, true),
        decreases rest@.len(),
    {
        let cut = find_cut(rest, ',', true);
        let head = match cut {
            Some(i) => slice_subrange(rest, 0, i),
            None => rest,
        };
        proof {
            lemma_first_cut(rest@, ',', true);
            lemma_trimmed_len(head@);
        }
        if head.len() > 0 {
            match parse_literal(trim(head)) {
                Ok(v) => {
                    assert(view_items(items@.push(v)) =~= view_items(items@).push(v@));
                    items.push(v);
                },
                Err(e) => {
                    return Err(e);
                },
            }
        }
        match cut {
            Some(i) => {
                let m = rest.len();
                rest = slice_subrange(rest, i + 1, m);
            },
            None => {
                return Ok(Value::Array(items));
            },
        }
    }
}

/// Reads `t` as a table in braces.
fn parse_table(t: &[char]) -> (r: Result<Value, Error>)
    ensures
        agrees(r, table_literal(t@)),
        r is Ok ==> r->Ok_0@.wf(),
    decreases t@.len(), 1nat,
{
    let n = t.len();
    if !(n >= 2 && t[0] == '{' && t[n - 1] == '}') {
        return Err(Error::MalformedLiteral);
    }
    let inner = slice_subrange(t, 1, n - 1);
    let mut table = Table::new();
    if trim(inner).len() == 0 {
        return Ok(Value::Table(table));
    }
    if !is_balanced(inner, true) {
        return Err(Error::MalformedLiteral);
    }
    let mut rest = inner;
    loop
        invariant
            rest@.len() <= inner@.len() < t@.len(),
            table_entries(inner@, Seq::empty()) == table_entries(rest@, table@),
            table.wf(),
            wrapped(t@, '{', '}'),
            inner@ == interior(t@),
            trimmed(inner@).len() != 0,
            balanced(inner@, true),
        decreases rest@.len(),
    {
        let cut = find_cut(rest, ',', true);
        let head = match cut {
            Some(i) => slice_subrange(rest, 0, i),
            None => rest,
        };
        proof {
            lemma_first_cut(rest@, ',', true);
            head@.index_of_first_ensures(':');
        }
        match find_char(head, ':') {
            None => {
                return Err(Error::MalformedLiteral);
            },
            Some(colon) => {
                let key = text_of(trim(slice_subrange(head, 0, colon)));
                let m = head.len();
                let literal = trim(slice_subrange(head, colon + 1, m));
                proof {
                    lemma_trimmed_len(head@.skip(colon + 1));
                }
                match parse_literal(literal) {
                    Ok(v) => {
                        table.insert(key, v);
                    },
                    Err(e) => {
                        return Err(e);
                    },
                }
            },
        }
        match cut {
            Some(i) => {
                let m = rest.len();
                rest = slice_subrange(rest, i + 1, m);
            },
            None => {
                return Ok(Value::Table(table));
            },
        }
    }
}

} // verus!
