//! What a write at `[]` adds.
use crate::get::{child, element, follow_step, resolve};
use crate::laws::shape::{base, base_indices, explicit, explicit_indices, reach};
use crate::parse::{coerce, has_spread_marker};
use crate::path::{path_of, Index, Step};
use crate::set::{entries_of, held, items_of, padded, set_result, writable, write_indices, write_path};
use crate::text::trimmed;
use crate::value::{key_index, lemma_lookup_upsert, Tree};
use vstd::prelude::*;

verus! {

/// The path ends in `[]`, and every other index in it is an explicit
/// position: the paths along which a write appends.
pub open spec fn appending(path: Seq<Step>) -> bool {
    &&& path.len() > 0
    &&& explicit(path.drop_last())
    &&& ends_in_append(path.last().indices)
}

/// The last of `indices` is `[]`, and the others are explicit positions.
pub open spec fn ends_in_append(indices: Seq<Index>) -> bool {
    &&& indices.len() > 0
    &&& indices.last() is Append
    &&& explicit_indices(indices.drop_last())
}

/// The elements of the array that `path` leads to from `root`; none where
/// it leads to no array.
pub open spec fn items_at(root: Tree, path: Seq<Step>) -> Seq<Tree> {
    match resolve(root, path) {
        Some(node) => items_of(node),
        None => Seq::empty(),
    }
}

/// What a write at `[]` adds: the value, or its elements where it is to be
/// spread.
pub open spec fn appended(value: Tree, spread: bool) -> Seq<Tree> {
    if spread {
        items_of(value)
    } else {
        seq![value]
    }
}

/// The elements of the array that `indices` and then `rest` lead to from
/// `node`; none where they lead to no array.
pub open spec fn items_reached(node: Tree, indices: Seq<Index>, rest: Seq<Step>) -> Seq<Tree> {
    match reach(node, indices, rest) {
        Some(found) => items_of(found),
        None => Seq::empty(),
    }
}

/// The indices, and the segments after them, end in `[]` and hold explicit
/// positions otherwise.
pub open spec fn appends(indices: Seq<Index>, rest: Seq<Step>) -> bool {
    if rest.len() == 0 {
        ends_in_append(indices)
    } else {
        explicit_indices(indices) && appending(rest)
    }
}

/// From an empty table or an empty array no step leads anywhere.
pub proof fn lemma_blank_reach(node: Tree, indices: Seq<Index>, rest: Seq<Step>)
    requires
        node == Tree::Table(Seq::empty()) || node == Tree::Array(Seq::empty()),
    ensures
        items_reached(node, indices, rest) == Seq::<Tree>::empty(),
{
    if indices.len() == 0 {
        if rest.len() > 0 {
            assert(key_index(Seq::<(Seq<char>, Tree)>::empty(), rest[0].name) is None);
            assert(follow_step(node, rest[0]) is None);
        }
    }
}

/// After a write that appends, the indices and segments up to the `[]` lead
/// to an array: the elements that they led to before, and after them what
/// was appended.
pub proof fn lemma_reach_append(
    node: Tree,
    indices: Seq<Index>,
    rest: Seq<Step>,
    value: Tree,
    spread: bool,
)
    requires
        appends(indices, rest),
    ensures
        reach(
            write_indices(node, indices, rest, value, spread),
            base_indices(indices, rest),
            base(rest),
        ) == Some(
            Tree::Array(
                items_reached(node, base_indices(indices, rest), base(rest)) + appended(
                    value,
                    spread,
                ),
            ),
        ),
    decreases rest.len(), indices.len() + 1,
{
    let from = base_indices(indices, rest);
    if indices.len() == 0 {
        lemma_resolve_append(node, rest, value, spread);
    } else if indices.len() == 1 && rest.len() == 0 {
        assert(from =~= Seq::<Index>::empty());
        assert(items_of(node).push(value) =~= items_of(node) + seq![value]);
    } else {
        assert(indices[0] is Explicit) by {
            if rest.len() == 0 {
                assert(indices.drop_last()[0] == indices[0]);
            }
        }
        let i = indices[0]->Explicit_0;
        let items = padded(items_of(node), i + 1);
        let inner = write_indices(items[i as int], indices.skip(1), rest, value, spread);
        assert(appends(indices.skip(1), rest)) by {
            if rest.len() == 0 {
                assert(indices.skip(1).last() == indices.last());
                assert(indices.skip(1).drop_last() =~= indices.drop_last().skip(1));
                assert forall|k: int| 0 <= k < indices.skip(1).drop_last().len() implies #[trigger] indices.skip(
                    1,
                ).drop_last()[k] is Explicit by {
                    assert(indices.drop_last()[k + 1] is Explicit);
                }
            } else {
                assert forall|k: int| 0 <= k < indices.skip(1).len() implies #[trigger] indices.skip(
                    1,
                )[k] is Explicit by {
                    assert(indices[k + 1] is Explicit);
                }
            }
        }
        lemma_reach_append(items[i as int], indices.skip(1), rest, value, spread);
        assert(from[0] == indices[0]);
        assert(from.skip(1) =~= base_indices(indices.skip(1), rest));
        assert(element(Tree::Array(items.update(i as int, inner)), from[0]) == Some(inner));
        if i < items_of(node).len() {
            assert(element(node, from[0]) == Some(items[i as int]));
        } else {
            assert(element(node, from[0]) is None);
            assert(items[i as int] == Tree::Array(Seq::empty()));
            lemma_blank_reach(items[i as int], from.skip(1), base(rest));
        }
    }
}

/// After a write that appends, the path up to the `[]` leads to an array:
/// the elements that it led to before, and after them what was appended.
pub proof fn lemma_resolve_append(node: Tree, path: Seq<Step>, value: Tree, spread: bool)
    requires
        appending(path),
    ensures
        resolve(write_path(node, path, value, spread), base(path)) == Some(
            Tree::Array(items_at(node, base(path)) + appended(value, spread)),
        ),
    decreases path.len(), 0nat,
{
    let name = path[0].name;
    let rest = path.skip(1);
    let from = base_indices(path[0].indices, rest);
    let written = write_indices(held(node, name), path[0].indices, rest, value, spread);
    assert(appends(path[0].indices, rest)) by {
        if rest.len() == 0 {
            assert(path.last() == path[0]);
        } else {
            assert(path.drop_last()[0] == path[0]);
            assert(rest.last() == path.last());
            assert(rest.drop_last() =~= path.drop_last().skip(1));
            assert forall|s: int| 0 <= s < rest.drop_last().len() implies explicit_indices(
                #[trigger] rest.drop_last()[s].indices,
            ) by {
                assert(rest.drop_last()[s] == path.drop_last()[s + 1]);
            }
        }
    }
    assert(base(path)[0] == Step { name, indices: from });
    assert(base(path).skip(1) =~= base(rest));
    lemma_lookup_upsert(entries_of(node), name, written);
    lemma_reach_append(held(node, name), path[0].indices, rest, value, spread);
    assert(resolve(write_path(node, path, value, spread), base(path)) == reach(
        written,
        from,
        base(rest),
    ));
    if child(node, name) is Some {
        assert(resolve(node, base(path)) == reach(held(node, name), from, base(rest)));
    } else {
        assert(resolve(node, base(path)) is None);
        lemma_blank_reach(held(node, name), from, base(rest));
    }
}

/// A write at a path that ends in `[]` appends: afterwards the path without
/// the `[]` leads to an array that holds what it held before, if it led to
/// an array, and after that the value written, or its elements where the
/// literal asks for them to be spread.
pub proof fn law_append(root: Tree, key: Seq<char>, literal: Seq<char>)
    requires
        path_of(key) is Some,
        appending(path_of(key)->0),
        coerce(literal) is Ok,
    ensures
        set_result(root, key, literal) is Ok,
        resolve(set_result(root, key, literal)->Ok_0, base(path_of(key)->0)) == Some(
            Tree::Array(
                items_at(root, base(path_of(key)->0)) + appended(
                    coerce(literal)->Ok_0,
                    has_spread_marker(trimmed(literal)),
                ),
            ),
        ),
{
    let path = path_of(key)->0;
    assert(writable(path)) by {
        assert forall|s: int, k: int|
            0 <= s < path.len() && 0 <= k < path[s].indices.len() implies (#[trigger] path[s].indices[k] is Explicit
            || (path[s].indices[k] is Append && s == path.len() - 1 && k == path[s].indices.len()
            - 1)) by {
            if s < path.len() - 1 {
                assert(path.drop_last()[s] == path[s]);
                assert(explicit_indices(path.drop_last()[s].indices));
            } else if k < path[s].indices.len() - 1 {
                assert(path[s].indices.drop_last()[k] == path[s].indices[k]);
            }
        }
    }
    lemma_resolve_append(root, path, coerce(literal)->Ok_0, has_spread_marker(trimmed(literal)));
}

} // verus!
