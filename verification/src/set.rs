//! Writing: the value that a literal denotes is put where a path leads, and
//! what the path needs on its way is made.
use crate::error::Error;
use crate::parse::{coerce, has_spread_marker, parse_literal};
use crate::path::{parse_path, path_of, view_indices, view_path, Index, IndexSpec, Segment, Step};
use crate::text::{chars_of, trim, trimmed};
use crate::value::{
    key_index, lemma_key_index, lemma_upsert_wf, lookup, upsert, view_items, Table, Tree, Value,
};
use vstd::prelude::*;

verus! {

/// The entries of `node` where it is a table, and none where it is not.
pub open spec fn entries_of(node: Tree) -> Seq<(Seq<char>, Tree)> {
    match node {
        Tree::Table(entries) => entries,
        _ => Seq::empty(),
    }
}

/// The elements of `node` where it is an array, and none where it is not.
pub open spec fn items_of(node: Tree) -> Seq<Tree> {
    match node {
        Tree::Array(items) => items,
        _ => Seq::empty(),
    }
}

/// `items`, and after them as many empty arrays as it takes to make `len`
/// elements.
pub open spec fn padded(items: Seq<Tree>, len: nat) -> Seq<Tree> {
    if items.len() >= len {
        items
    } else {
        items + Seq::new((len - items.len()) as nat, |k: int| Tree::Array(Seq::empty()))
    }
}

/// What is under `key` in `node` once a write has passed: the value that
/// was there, or the empty table where there was none.
pub open spec fn held(node: Tree, key: Seq<char>) -> Tree {
    match lookup(entries_of(node), key) {
        Some(c) => c,
        None => Tree::Table(Seq::empty()),
    }
}

/// A write can take `path`: it has a segment, and every index in it is an
/// explicit position, but for the very last of the last segment, which may
/// be `[]`.
pub open spec fn writable(path: Seq<Step>) -> bool {
    &&& path.len() > 0
    &&& forall|s: int, k: int|
        0 <= s < path.len() && 0 <= k < path[s].indices.len() ==> {
            ||| #[trigger] path[s].indices[k] is Explicit
            ||| (path[s].indices[k] is Append && s == path.len() - 1 && k == path[s].indices.len()
                - 1)
        }
}

/// `node` after `value` is written along `path`. A node on the way that is
/// no table becomes one, and a key that is missing is made.
pub open spec fn write_path(node: Tree, path: Seq<Step>, value: Tree, spread: bool) -> Tree
    decreases path.len(), 0nat,
{
    if path.len() == 0 {
        node
    } else {
        Tree::Table(
            upsert(
                entries_of(node),
                path[0].name,
                write_indices(
                    held(node, path[0].name),
                    path[0].indices,
                    path.skip(1),
                    value,
                    spread,
                ),
            ),
        )
    }
}

/// `node` after `value` is written along `indices` and then along `rest`.
/// At an explicit position a node that is no array becomes one, and an
/// array that is too short grows by empty arrays. At `[]` the value becomes
/// the new last element, or its elements do where it is to be spread.
/// Where nothing is left to follow, the value takes the place of `node`.
pub open spec fn write_indices(
    node: Tree,
    indices: Seq<Index>,
    rest: Seq<Step>,
    value: Tree,
    spread: bool,
) -> Tree
    decreases rest.len(), indices.len() + 1,
{
    if indices.len() == 0 {
        if rest.len() == 0 {
            value
        } else {
            write_path(node, rest, value, spread)
        }
    } else {
        match indices[0] {
            Index::Explicit(i) => {
                let items = padded(items_of(node), i + 1);
                Tree::Array(
                    items.update(
                        i as int,
                        write_indices(items[i as int], indices.skip(1), rest, value, spread),
                    ),
                )
            },
            Index::Append => if spread {
                Tree::Array(items_of(node) + items_of(value))
            } else {
                Tree::Array(items_of(node).push(value))
            },
            _ => node,
        }
    }
}

/// What a write of `literal` at `key` makes of `root`, or why it is
/// refused. The path is read first, then the literal.
pub open spec fn set_result(root: Tree, key: Seq<char>, literal: Seq<char>) -> Result<Tree, Error> {
    match path_of(key) {
        None => Err(Error::MalformedPath),
        Some(path) => if !writable(path) {
            Err(Error::MalformedPath)
        } else {
            match coerce(literal) {
                Err(e) => Err(e),
                Ok(v) => Ok(write_path(root, path, v, has_spread_marker(trimmed(literal)))),
            }
        },
    }
}

/// Makes `value` a table: it stays as it is where it is one, and becomes
/// the empty table where it is not.
pub fn ensure_table(value: &mut Value)
    ensures
        final(value)@ == Tree::Table(entries_of(old(value)@)),
        old(value)@.wf() ==> final(value)@.wf(),
{
    match value {
        Value::Table(_) => {},
        _ => {
            *value = Value::Table(Table::new());
        },
    }
}

/// Makes `value` an array: it stays as it is where it is one, and becomes
/// the empty array where it is not.
pub fn ensure_array(value: &mut Value)
    ensures
        final(value)@ == Tree::Array(items_of(old(value)@)),
        old(value)@.wf() ==> final(value)@.wf(),
{
    match value {
        Value::Array(_) => {},
        _ => {
            let items: Vec<Value> = Vec::new();
            assert(view_items(items@) =~= Seq::empty());
            *value = Value::Array(items);
        },
    }
}

/// Makes `current` a table with an entry under `key`, and hands out the
/// value of that entry. Where the key was missing, the value is the empty
/// table.
fn handle_normal_key<'a>(current: &'a mut Value, key: &String) -> (slot: &'a mut Value)
    ensures
        (*slot)@ == held(old(current)@, key@),
        final(current)@ == Tree::Table(
            upsert(entries_of(old(current)@), key@, (*final(slot))@),
        ),
{
    ensure_table(current);
    match current {
        Value::Table(table) => {
            proof {
                lemma_key_index(table@, key@);
            }
            let at = match table.position(key) {
                Some(i) => i,
                None => {
                    table.insert(key.clone(), Value::Table(Table::new()));
                    table.len() - 1
                },
            };
            let ghost before = table@;
            assert(before[at as int].0 == key@);
            assert(key_index(before, key@) == Some(at as int)) by {
                lemma_key_index(before, key@);
            }
            let slot = table.value_at_mut(at);
            assert(before.update(at as int, (key@, (*final(slot))@)) =~= upsert(
                entries_of(old(current)@),
                key@,
                (*final(slot))@,
            ));
            slot
        },
        _ => current,
    }
}

/// Grows `array` by empty arrays until it has more than `index` elements.
fn grow(array: &mut Vec<Value>, index: usize)
    ensures
        view_items(final(array)@) == padded(view_items(old(array)@), index as nat + 1),
        index < final(array)@.len(),
{
    assert(view_items(array@) =~= padded(view_items(old(array)@), array@.len()));
    while array.len() <= index
        invariant
            view_items(array@) == padded(view_items(old(array)@), array@.len()),
            old(array)@.len() <= array@.len(),
            array@.len() <= index + 1 || array@.len() == old(array)@.len(),
        decreases index + 1 - array@.len(),
    {
        let empty: Vec<Value> = Vec::new();
        assert(view_items(empty@) =~= Seq::empty());
        let ghost before = array@;
        array.push(Value::Array(empty));
        assert(view_items(array@) =~= view_items(before).push(Tree::Array(Seq::empty())));
        assert(view_items(array@) =~= padded(view_items(old(array)@), array@.len()));
    }
    assert(view_items(array@) =~= padded(view_items(old(array)@), index as nat + 1));
}

/// Makes `value` an array with an element at `index`, and hands out that
/// element. An array that is too short grows by empty arrays.
fn handle_specific_index<'a>(value: &'a mut Value, index: usize) -> (slot: &'a mut Value)
    ensures
        (*slot)@ == padded(items_of(old(value)@), index as nat + 1)[index as int],
        final(value)@ == Tree::Array(
            padded(items_of(old(value)@), index as nat + 1).update(
                index as int,
                (*final(slot))@,
            ),
        ),
{
    ensure_array(value);
    match value {
        Value::Array(array) => {
            grow(array, index);
            let ghost before = array@;
            let slot = &mut array[index];
            assert(view_items(before.update(index as int, *final(slot))) =~= view_items(
                before,
            ).update(index as int, (*final(slot))@));
            slot
        },
        _ => value,
    }
}

/// Puts the elements of the array `value` at the end of `array`, in their
/// order. A value that is no array adds nothing.
fn handle_array_spread(array: &mut Vec<Value>, value: Value)
    ensures
        view_items(final(array)@) == view_items(old(array)@) + items_of(value@),
{
    match value {
        Value::Array(inner) => {
            let mut inner = inner;
            array.append(&mut inner);
            assert(view_items(array@) =~= view_items(old(array)@) + items_of(value@));
        },
        _ => {
            assert(view_items(array@) =~= view_items(old(array)@) + items_of(value@));
        },
    }
}

/// Makes `value` an array and puts `new_value` at its end: as one element,
/// or element by element where it is to be spread.
fn handle_append_index(value: &mut Value, new_value: Value, spread: bool)
    ensures
        final(value)@ == if spread {
            Tree::Array(items_of(old(value)@) + items_of(new_value@))
        } else {
            Tree::Array(items_of(old(value)@).push(new_value@))
        },
{
    ensure_array(value);
    match value {
        Value::Array(array) => {
            if spread {
                handle_array_spread(array, new_value);
            } else {
                array.push(new_value);
                assert(view_items(array@) =~= items_of(old(value)@).push(new_value@));
            }
        },
        _ => {},
    }
}

/// Writes `value` from `node` on: along the indices of the segment at `at`
/// from the one at `k`, and then along the segments after it.
fn handle_array_key(
    node: &mut Value,
    path: &Vec<Segment>,
    at: usize,
    k: usize,
    value: Value,
    spread: bool,
)
    requires
        at < path@.len(),
        k <= path@[at as int].indices@.len(),
    ensures
        final(node)@ == write_indices(
            old(node)@,
            view_indices(path@[at as int].indices@).skip(k as int),
            view_path(path@).skip(at + 1),
            value@,
            spread,
        ),
    decreases path@.len() - at - 1, path@[at as int].indices@.len() - k + 1,
{
    let indices = &path[at].indices;
    let ghost chain = view_indices(indices@).skip(k as int);
    let n = path.len();
    if k == indices.len() {
        if at + 1 == n {
            *node = value;
        } else {
            set_value_recursive(node, path, at + 1, value, spread);
        }
    } else {
        assert(chain[0] == indices@[k as int]@);
        assert(chain.skip(1) =~= view_indices(indices@).skip(k + 1));
        match &indices[k] {
            IndexSpec::Explicit(i) => {
                let slot = handle_specific_index(node, *i);
                handle_array_key(slot, path, at, k + 1, value, spread);
            },
            IndexSpec::Append => {
                handle_append_index(node, value, spread);
            },
            _ => {},
        }
    }
}

/// Writes `value` from `current` on, along the segments of `path` from the
/// one at `at`.
fn set_value_recursive(
    current: &mut Value,
    path: &Vec<Segment>,
    at: usize,
    value: Value,
    spread: bool,
)
    requires
        at < path@.len(),
    ensures
        final(current)@ == write_path(old(current)@, view_path(path@).skip(at as int), value@, spread),
    decreases path@.len() - at, 0nat,
{
    let ghost steps = view_path(path@).skip(at as int);
    assert(steps[0] == path@[at as int]@);
    assert(steps.skip(1) =~= view_path(path@).skip(at + 1));
    assert(view_indices(path@[at as int].indices@).skip(0) =~= steps[0].indices);
    let slot = handle_normal_key(current, &path[at].name);
    handle_array_key(slot, path, at, 0, value, spread);
}

/// A write of a well-formed value leaves a well-formed tree well formed.
pub proof fn lemma_write_path_wf(node: Tree, path: Seq<Step>, value: Tree, spread: bool)
    requires
        node.wf(),
        value.wf(),
    ensures
        write_path(node, path, value, spread).wf(),
    decreases path.len(), 0nat,
{
    if path.len() > 0 {
        let name = path[0].name;
        lemma_key_index(entries_of(node), name);
        lemma_write_indices_wf(held(node, name), path[0].indices, path.skip(1), value, spread);
        lemma_upsert_wf(
            entries_of(node),
            name,
            write_indices(held(node, name), path[0].indices, path.skip(1), value, spread),
        );
    }
}

/// A write of a well-formed value along indices leaves a well-formed tree
/// well formed.
pub proof fn lemma_write_indices_wf(
    node: Tree,
    indices: Seq<Index>,
    rest: Seq<Step>,
    value: Tree,
    spread: bool,
)
    requires
        node.wf(),
        value.wf(),
    ensures
        write_indices(node, indices, rest, value, spread).wf(),
    decreases rest.len(), indices.len() + 1,
{
    if indices.len() == 0 {
        if rest.len() > 0 {
            lemma_write_path_wf(node, rest, value, spread);
        }
    } else {
        match indices[0] {
            Index::Explicit(i) => {
                let items = padded(items_of(node), i + 1);
                assert forall|j: int| 0 <= j < items.len() implies (#[trigger] items[j]).wf() by {
                    if j < items_of(node).len() {
                        assert(items[j] == items_of(node)[j]);
                    }
                }
                lemma_write_indices_wf(items[i as int], indices.skip(1), rest, value, spread);
            },
            Index::Append => {
                let joined = items_of(node) + items_of(value);
                assert forall|j: int| 0 <= j < joined.len() implies (#[trigger] joined[j]).wf() by {
                    if j < items_of(node).len() {
                        assert(joined[j] == items_of(node)[j]);
                    } else {
                        assert(joined[j] == items_of(value)[j - items_of(node).len()]);
                    }
                }
            },
            _ => {},
        }
    }
}

fn is_writable(path: &Vec<Segment>) -> (r: bool)
    ensures
        r == writable(view_path(path@)),
{
    let n = path.len();
    if n == 0 {
        return false;
    }
    let ghost steps = view_path(path@);
    let mut s: usize = 0;
    while s < n
        invariant
            s <= n == path@.len(),
            steps == view_path(path@),
            forall|a: int, b: int|
                0 <= a < s && 0 <= b < steps[a].indices.len() ==> {
                    ||| #[trigger] steps[a].indices[b] is Explicit
                    ||| (steps[a].indices[b] is Append && a == n - 1 && b == steps[a].indices.len()
                        - 1)
                },
        decreases n - s,
    {
        let indices = &path[s].indices;
        let m = indices.len();
        let mut k: usize = 0;
        assert(steps[s as int].indices == view_indices(indices@));
        while k < m
            invariant
                s < n == path@.len(),
                k <= m == indices@.len(),
                steps == view_path(path@),
                steps[s as int].indices == view_indices(indices@),
                forall|b: int|
                    0 <= b < k ==> {
                        ||| #[trigger] steps[s as int].indices[b] is Explicit
                        ||| (steps[s as int].indices[b] is Append && s == n - 1 && b == m - 1)
                    },
            decreases m - k,
        {
            assert(steps[s as int].indices[k as int] == indices@[k as int]@);
            let fits = match &indices[k] {
                IndexSpec::Explicit(_) => true,
                IndexSpec::Append => s == n - 1 && k == m - 1,
                _ => false,
            };
            if !fits {
                return false;
            }
            k += 1;
        }
        s += 1;
    }
    true
}

/// Writes the value that `value` denotes at the place that `key` names. A
/// path or a literal that cannot be read is refused, and so is a path with
/// an index that a write cannot take; the document then stays as it was.
pub fn set_value(toml_value: &mut Value, key: &str, value: &str) -> (r: Result<(), Error>)
    ensures
        match set_result(old(toml_value)@, key@, value@) {
            Ok(t) => r is Ok && final(toml_value)@ == t,
            Err(e) => r is Err && r->Err_0 == e && final(toml_value)@ == old(toml_value)@,
        },
        old(toml_value)@.wf() ==> final(toml_value)@.wf(),
{
    let path = match parse_path(key) {
        Ok(path) => path,
        Err(e) => {
            return Err(e);
        },
    };
    if !is_writable(&path) {
        return Err(Error::MalformedPath);
    }
    let chars = chars_of(value);
    let literal = trim(chars.as_slice());
    let spread = literal.len() >= 3 && literal[0] == '.' && literal[1] == '.' && literal[2] == '.';
    let new_value = match parse_literal(literal) {
        Ok(v) => v,
        Err(e) => {
            return Err(e);
        },
    };
    proof {
        assert(view_path(path@).skip(0) =~= view_path(path@));
        if toml_value@.wf() {
            lemma_write_path_wf(toml_value@, view_path(path@), new_value@, spread);
        }
    }
    set_value_recursive(toml_value, &path, 0, new_value, spread);
    Ok(())
}

} // verus!
