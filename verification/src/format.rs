//! From a value to the text that a read returns.
use crate::number::{digit_char, format_integer, integer_text};
use crate::value::{view_items, Table, Tree, Value};
use vstd::prelude::*;
use vstd::string::StringExecFns;

verus! {

/// The character that stands for `d` in base sixteen, in lower case.
pub open spec fn hex_char(d: nat) -> char {
    if d < 10 {
        digit_char(d)
    } else if d == 10 {
        'a'
    } else if d == 11 {
        'b'
    } else if d == 12 {
        'c'
    } else if d == 13 {
        'd'
    } else if d == 14 {
        'e'
    } else {
        'f'
    }
}

/// How `c` is written inside a JSON string.
pub open spec fn escaped(c: char) -> Seq<char> {
    if c == '"' {
        seq!['\\', '"']
    } else if c == '\\' {
        seq!['\\', '\\']
    } else if c as u32 == 0x08 {
        seq!['\\', 'b']
    } else if c as u32 == 0x09 {
        seq!['\\', 't']
    } else if c as u32 == 0x0A {
        seq!['\\', 'n']
    } else if c as u32 == 0x0C {
        seq!['\\', 'f']
    } else if c as u32 == 0x0D {
        seq!['\\', 'r']
    } else if (c as u32) < 0x20 {
        seq!['\\', 'u', '0', '0', hex_char((c as u32 / 16) as nat), hex_char((c as u32 % 16) as nat)]
    } else {
        seq![c]
    }
}

/// The characters of `s`, each as it is written inside a JSON string.
pub open spec fn escaped_text(s: Seq<char>) -> Seq<char>
    decreases s.len(),
{
    if s.len() == 0 {
        Seq::empty()
    } else {
        escaped_text(s.drop_last()) + escaped(s.last())
    }
}

/// `s` as a JSON string, between double quotes.
pub open spec fn json_quoted(s: Seq<char>) -> Seq<char> {
    seq!['"'] + escaped_text(s) + seq!['"']
}

/// `serde_json::to_string` on a string slice. It writes a double quote, the
/// characters of the slice, and a double quote. Of the characters it writes
/// `"` and `\` behind a backslash, the control characters below U+0020 as
/// `\b`, `\t`, `\n`, `\f`, `\r` or else as `\u00` and two digits in base
/// sixteen, and every other character as it is. It cannot fail on a string
/// slice.
#[verifier::external_body]
fn json_string(s: &str) -> (r: String)
    ensures
        r@ == json_quoted(s@),
{
    serde_json::to_string(s).unwrap_or_default()
}

/// `true` or `false`.
pub open spec fn boolean_text(b: bool) -> Seq<char> {
    if b {
        seq!['t', 'r', 'u', 'e']
    } else {
        seq!['f', 'a', 'l', 's', 'e']
    }
}

/// The compact JSON text of `t`: texts and keys between double quotes,
/// numbers and truth values bare, the elements of an array between brackets
/// and the entries of a table between braces, apart by commas, in their
/// order and without white space.
pub open spec fn json(t: Tree) -> Seq<char>
    decreases t,
{
    match t {
        Tree::String(s) => json_quoted(s),
        Tree::Integer(i) => integer_text(i),
        Tree::Float(text) => text,
        Tree::Boolean(b) => boolean_text(b),
        Tree::Datetime(text) => json_quoted(text),
        Tree::Array(items) => seq!['['] + json_items(items) + seq![']'],
        Tree::Table(entries) => seq!['{'] + json_entries(entries) + seq!['}'],
    }
}

/// The JSON texts of `items`, apart by commas.
pub open spec fn json_items(items: Seq<Tree>) -> Seq<char>
    decreases items,
{
    if items.len() == 0 {
        Seq::empty()
    } else if items.len() == 1 {
        json(items[0])
    } else {
        json_items(items.drop_last()) + seq![','] + json(items.last())
    }
}

/// One entry of a table in JSON: the key, a colon, the value.
pub open spec fn json_entry(entry: (Seq<char>, Tree)) -> Seq<char>
    decreases entry,
{
    json_quoted(entry.0) + seq![':'] + json(entry.1)
}

/// The JSON texts of `entries`, apart by commas.
pub open spec fn json_entries(entries: Seq<(Seq<char>, Tree)>) -> Seq<char>
    decreases entries,
{
    if entries.len() == 0 {
        Seq::empty()
    } else if entries.len() == 1 {
        json_entry(entries[0])
    } else {
        json_entries(entries.drop_last()) + seq![','] + json_entry(entries.last())
    }
}

/// The text of `t` as a read returns it: a scalar in its plain form, a text
/// without quotes, an array or a table as compact JSON.
pub open spec fn render(t: Tree) -> Seq<char> {
    match t {
        Tree::String(s) => s,
        Tree::Integer(i) => integer_text(i),
        Tree::Float(text) => text,
        Tree::Boolean(b) => boolean_text(b),
        Tree::Datetime(text) => text,
        _ => json(t),
    }
}

fn push_boolean(out: &mut String, b: bool)
    ensures
        final(out)@ == old(out)@ + boolean_text(b),
{
    if b {
        out.push('t');
        out.push('r');
        out.push('u');
        out.push('e');
    } else {
        out.push('f');
        out.push('a');
        out.push('l');
        out.push('s');
        out.push('e');
    }
    assert(out@ =~= old(out)@ + boolean_text(b));
}

fn push_quoted(out: &mut String, s: &String)
    ensures
        final(out)@ == old(out)@ + json_quoted(s@),
{
    let quoted = json_string(s.as_str());
    out.append(quoted.as_str());
}

/// Writes the compact JSON text of `value` at the end of `out`.
pub fn write_json(value: &Value, out: &mut String)
    ensures
        final(out)@ == old(out)@ + json(value@),
    decreases value@,
{
    match value {
        Value::String(s) => {
            push_quoted(out, s);
        },
        Value::Integer(i) => {
            let text = format_integer(*i);
            out.append(text.as_str());
        },
        Value::Float(text) => {
            out.append(text.as_str());
        },
        Value::Boolean(b) => {
            push_boolean(out, *b);
        },
        Value::Datetime(text) => {
            push_quoted(out, text);
        },
        Value::Array(items) => {
            out.push('[');
            let ghost trees = view_items(items@);
            let mut i: usize = 0;
            assert(trees.take(0) =~= Seq::empty());
            while i < items.len()
                invariant
                    i <= items@.len(),
                    trees == view_items(items@),
                    value@ == Tree::Array(trees),
                    out@ == old(out)@ + seq!['['] + json_items(trees.take(i as int)),
                decreases items@.len() - i,
            {
                if i > 0 {
                    out.push(',');
                }
                assert(trees.take(i + 1).drop_last() =~= trees.take(i as int));
                assert(trees.take(i + 1).last() == items@[i as int]@);
                assert(trees[i as int] == items@[i as int]@);
                proof {
                    let tree = value@;
                    assert(decreases_to!(tree => tree->Array_0));
                    assert(decreases_to!(tree->Array_0 => tree->Array_0[i as int]));
                }
                write_json(&items[i], out);
                assert(out@ =~= old(out)@ + seq!['['] + json_items(trees.take(i + 1)));
                i += 1;
            }
            assert(trees.take(i as int) =~= trees);
            out.push(']');
            assert(out@ =~= old(out)@ + json(value@));
        },
        Value::Table(table) => {
            out.push('{');
            let ghost entries = table@;
            let mut i: usize = 0;
            assert(entries.take(0) =~= Seq::empty());
            while i < table.len()
                invariant
                    i <= table@.len(),
                    entries == table@,
                    value@ == Tree::Table(entries),
                    out@ == old(out)@ + seq!['{'] + json_entries(entries.take(i as int)),
                decreases table@.len() - i,
            {
                if i > 0 {
                    out.push(',');
                }
                assert(entries.take(i + 1).drop_last() =~= entries.take(i as int));
                assert(entries.take(i + 1).last() == entries[i as int]);
                proof {
                    let tree = value@;
                    assert(decreases_to!(tree => tree->Table_0));
                    assert(decreases_to!(tree->Table_0 => tree->Table_0[i as int]));
                    assert(decreases_to!(tree->Table_0[i as int] => tree->Table_0[i as int].1));
                }
                let ghost before = out@;
                push_quoted(out, table.key_at(i));
                out.push(':');
                write_json(table.value_at(i), out);
                assert(out@ =~= before + json_entry(entries[i as int]));
                assert(out@ =~= old(out)@ + seq!['{'] + json_entries(entries.take(i + 1)));
                i += 1;
            }
            assert(entries.take(i as int) =~= entries);
            out.push('}');
            assert(out@ =~= old(out)@ + json(value@));
        },
    }
}

/// The text of `value` as a read returns it.
pub fn format_value(value: &Value) -> (r: String)
    ensures
        r@ == render(value@),
{
    match value {
        Value::String(s) => s.clone(),
        Value::Datetime(text) => text.clone(),
        _ => {
            let mut out = String::new();
            write_json(value, &mut out);
            assert(out@ =~= json(value@));
            out
        },
    }
}

} // verus!
