//! Reading: from a path to the text of the value that it leads to.
use crate::format::{format_value, render};
use crate::path::{parse_path, path_of, view_indices, view_path, Index, IndexSpec, Segment, Step};
use crate::error::Error;
use crate::value::{lemma_key_index, lookup, Tree, Value};
use vstd::prelude::*;

verus! {

/// The value under `name` in the table `node`; nothing where `node` is no
/// table or has no such key.
pub open spec fn child(node: Tree, name: Seq<char>) -> Option<Tree> {
    match node {
        Tree::Table(entries) => lookup(entries, name),
        _ => None,
    }
}

/// The element of the array `node` that `index` names: one at an explicit
/// position within the array. Any other index reads nothing.
pub open spec fn element(node: Tree, index: Index) -> Option<Tree> {
    match (node, index) {
        (Tree::Array(items), Index::Explicit(i)) => if i < items.len() {
            Some(items[i as int])
        } else {
            None
        },
        _ => None,
    }
}

/// Where the indices lead from `node`, taken in turn.
pub open spec fn follow_indices(node: Tree, indices: Seq<Index>) -> Option<Tree>
    decreases indices.len(),
{
    if indices.len() == 0 {
        Some(node)
    } else {
        match element(node, indices[0]) {
            Some(e) => follow_indices(e, indices.skip(1)),
            None => None,
        }
    }
}

/// Where one segment leads from `node`: to the value under its name, and
/// from there along its indices.
pub open spec fn follow_step(node: Tree, step: Step) -> Option<Tree> {
    match child(node, step.name) {
        Some(c) => follow_indices(c, step.indices),
        None => None,
    }
}

/// Where `path` leads from `node`.
pub open spec fn resolve(node: Tree, path: Seq<Step>) -> Option<Tree>
    decreases path.len(),
{
    if path.len() == 0 {
        Some(node)
    } else {
        match follow_step(node, path[0]) {
            Some(next) => resolve(next, path.skip(1)),
            None => None,
        }
    }
}

/// What a read of `key` in `root` returns: the text of the value that the
/// path leads to, and the empty text where it leads to nothing or cannot be
/// read as a path.
pub open spec fn get_result(root: Tree, key: Seq<char>) -> Seq<char> {
    match path_of(key) {
        Some(path) => match resolve(root, path) {
            Some(t) => render(t),
            None => Seq::empty(),
        },
        None => Seq::empty(),
    }
}

/// `r` is the node with the model `model`, if there is one.
pub open spec fn finds(r: Option<&Value>, model: Option<Tree>) -> bool {
    match model {
        Some(t) => r is Some && r->0@ == t,
        None => r is None,
    }
}

/// The value under `key` in the table `current`.
fn navigate_table<'a>(current: &'a Value, key: &String) -> (r: Option<&'a Value>)
    ensures
        finds(r, child(current@, key@)),
{
    match current {
        Value::Table(table) => {
            proof {
                lemma_key_index(table@, key@);
            }
            match table.position(key) {
                Some(i) => Some(table.value_at(i)),
                None => None,
            }
        },
        _ => None,
    }
}

/// Where the indices lead from `current`, taken in turn.
fn navigate_nested_array<'a>(current: &'a Value, indices: &Vec<IndexSpec>) -> (r: Option<
    &'a Value,
>)
    ensures
        finds(r, follow_indices(current@, view_indices(indices@))),
{
    let mut value = current;
    let mut k: usize = 0;
    let ghost all = view_indices(indices@);
    assert(all.skip(0) =~= all);
    while k < indices.len()
        invariant
            k <= indices@.len(),
            all == view_indices(indices@),
            follow_indices(current@, all) == follow_indices(value@, all.skip(k as int)),
        decreases indices@.len() - k,
    {
        assert(all.skip(k as int).skip(1) =~= all.skip(k + 1));
        assert(all.skip(k as int)[0] == indices@[k as int]@);
        match (value, &indices[k]) {
            (Value::Array(items), IndexSpec::Explicit(i)) => {
                if *i < items.len() {
                    value = &items[*i];
                } else {
                    return None;
                }
            },
            _ => {
                return None;
            },
        }
        k += 1;
    }
    Some(value)
}

/// Where one segment leads from `current`.
fn navigate_value<'a>(current: &'a Value, segment: &Segment) -> (r: Option<&'a Value>)
    ensures
        finds(r, follow_step(current@, segment@)),
{
    match navigate_table(current, &segment.name) {
        Some(v) => navigate_nested_array(v, &segment.indices),
        None => None,
    }
}

/// Where `path` leads from `root`.
pub fn navigate<'a>(root: &'a Value, path: &Vec<Segment>) -> (r: Option<&'a Value>)
    ensures
        finds(r, resolve(root@, view_path(path@))),
{
    let mut current = root;
    let mut at: usize = 0;
    let ghost all = view_path(path@);
    assert(all.skip(0) =~= all);
    while at < path.len()
        invariant
            at <= path@.len(),
            all == view_path(path@),
            resolve(root@, all) == resolve(current@, all.skip(at as int)),
        decreases path@.len() - at,
    {
        assert(all.skip(at as int).skip(1) =~= all.skip(at + 1));
        assert(all.skip(at as int)[0] == path@[at as int]@);
        match navigate_value(current, &path[at]) {
            Some(next) => {
                current = next;
            },
            None => {
                return None;
            },
        }
        at += 1;
    }
    Some(current)
}

/// Reads the value at `key`: its text, and the empty text where the path
/// leads to nothing. A path that cannot be read is refused.
pub fn try_get_value(toml_value: &Value, key: &str) -> (r: Result<String, Error>)
    ensures
        match path_of(key@) {
            Some(path) => r is Ok && r->Ok_0@ == get_result(toml_value@, key@),
            None => r is Err && r->Err_0 == Error::MalformedPath,
        },
{
    match parse_path(key) {
        Ok(path) => match navigate(toml_value, &path) {
            Some(found) => Ok(format_value(found)),
            None => Ok(String::new()),
        },
        Err(e) => Err(e),
    }
}

/// Reads the value at `key`: its text, or the empty text where the path
/// leads to nothing or cannot be read.
pub fn get_value(toml_value: &Value, key: &str) -> (r: String)
    ensures
        r@ == get_result(toml_value@, key@),
{
    match try_get_value(toml_value, key) {
        Ok(text) => text,
        Err(_) => String::new(),
    }
}

} // verus!
