//! What a removal takes, and when it can be repeated.
use crate::get::{child, element, get_result, resolve};
use crate::laws::shape::{base, base_indices, lemma_path_steps_len, reach};
use crate::path::{path_of, Index, Step};
use crate::remove::{delete_at, erase, erase_indices, kept, remove_result};
use crate::value::{
    key_index, lemma_key_index, lemma_key_index_at, lemma_without_key_wf, lookup, Tree,
};
use vstd::prelude::*;

verus! {

/// No more is kept than there is.
pub proof fn lemma_kept_len(items: Seq<Tree>, listed: Seq<nat>, from: nat)
    requires
        from <= items.len(),
    ensures
        kept(items, listed, from).len() <= items.len() - from,
    decreases items.len() - from,
{
    if from < items.len() {
        lemma_kept_len(items, listed, (from + 1) as nat);
    }
}

/// Where no position from `from` on is listed, every element from there on
/// is kept.
pub proof fn lemma_kept_all(items: Seq<Tree>, listed: Seq<nat>, from: nat)
    requires
        from <= items.len(),
        forall|p: nat| from <= p < items.len() ==> !listed.contains(p),
    ensures
        kept(items, listed, from) == items.skip(from as int),
    decreases items.len() - from,
{
    if from < items.len() {
        lemma_kept_all(items, listed, (from + 1) as nat);
        assert(!listed.contains(from));
        assert(seq![items[from as int]] + items.skip(from as int + 1) =~= items.skip(from as int));
    } else {
        assert(items.skip(from as int) =~= Seq::<Tree>::empty());
    }
}

/// Where a position from `from` on is listed, less is kept than there is.
pub proof fn lemma_kept_less(items: Seq<Tree>, listed: Seq<nat>, from: nat, p: nat)
    requires
        from <= p < items.len(),
        listed.contains(p),
    ensures
        kept(items, listed, from).len() < items.len() - from,
    decreases items.len() - from,
{
    lemma_kept_len(items, listed, (from + 1) as nat);
    if !listed.contains(from) {
        lemma_kept_less(items, listed, (from + 1) as nat, p);
    }
}

/// Deleting twice by `index` leaves what deleting once leaves.
pub open spec fn repeats(items: Seq<Tree>, index: Index) -> bool {
    delete_at(delete_at(items, index), index) == delete_at(items, index)
}

/// Which deletions can be repeated. `[]` can. A slice can where its number
/// is 0 or beyond the array, and not otherwise. A position can where it is
/// the last or beyond, and not otherwise. A list can where none of its
/// positions is within what the first deletion leaves, and not otherwise.
pub proof fn law_repeatable_deletions(items: Seq<Tree>, n: nat, listed: Seq<nat>)
    ensures
        repeats(items, Index::Append),
        repeats(items, Index::SliceKeepFromEnd(n)) <==> n == 0 || n >= items.len(),
        repeats(items, Index::SliceFromIndex(n)) <==> n == 0 || n >= items.len(),
        repeats(items, Index::Explicit(n)) <==> n + 1 >= items.len(),
        repeats(items, Index::MultiIndex(listed)) <==> forall|p: nat|
            listed.contains(p) ==> p >= kept(items, listed, 0).len(),
{
    assert(items.take(items.len() as int) =~= items);
    if 0 < n < items.len() {
        let once = delete_at(items, Index::SliceKeepFromEnd(n));
        assert(once.len() == items.len() - n);
        assert(delete_at(once, Index::SliceKeepFromEnd(n)).len() < once.len());
        let tail = delete_at(items, Index::SliceFromIndex(n));
        assert(tail.len() == items.len() - n);
        assert(delete_at(tail, Index::SliceFromIndex(n)).len() < tail.len());
    }
    if n + 1 < items.len() {
        let once = delete_at(items, Index::Explicit(n));
        assert(delete_at(once, Index::Explicit(n)).len() < once.len());
    }
    let left = kept(items, listed, 0);
    lemma_kept_len(items, listed, 0);
    if forall|p: nat| listed.contains(p) ==> p >= left.len() {
        lemma_kept_all(left, listed, 0);
        assert(left.skip(0) =~= left);
    } else {
        let p = choose|p: nat| listed.contains(p) && p < left.len();
        lemma_kept_less(left, listed, 0, p);
    }
}

/// The path, or the indices and the segments after them, end in the name
/// of a key.
pub open spec fn ends_in_key(indices: Seq<Index>, rest: Seq<Step>) -> bool {
    if rest.len() == 0 {
        indices.len() == 0
    } else {
        rest.last().indices.len() == 0
    }
}

/// The last index of all.
pub open spec fn final_index(indices: Seq<Index>, rest: Seq<Step>) -> Index {
    if rest.len() == 0 {
        indices.last()
    } else {
        rest.last().indices.last()
    }
}

/// The node at which a removal takes up the indices of `step`, coming from
/// `node`: the value under the name of the step in a table, and an array
/// itself for a step without a name that begins with an index.
pub open spec fn entered(node: Tree, step: Step) -> Option<Tree> {
    match node {
        Tree::Table(entries) => lookup(entries, step.name),
        Tree::Array(_) => if step.name.len() == 0 && step.indices.len() > 0 {
            Some(node)
        } else {
            None
        },
        _ => None,
    }
}

/// The node that a removal along `indices` and then `rest` applies the last
/// index of all to, coming from `node`; nothing where the removal does not
/// get that far or ends in the name of a key.
pub open spec fn target_from(node: Tree, indices: Seq<Index>, rest: Seq<Step>) -> Option<Tree>
    decreases rest.len(), indices.len() + 1,
{
    if indices.len() == 0 {
        target(node, rest)
    } else if indices.len() == 1 && rest.len() == 0 {
        Some(node)
    } else {
        match element(node, indices[0]) {
            Some(next) => target_from(next, indices.skip(1), rest),
            None => None,
        }
    }
}

/// The node that a removal at `path` applies the last index of the path to,
/// coming from `node`; nothing where the removal does not get that far or
/// the path ends in the name of a key.
pub open spec fn target(node: Tree, path: Seq<Step>) -> Option<Tree>
    decreases path.len(), 0nat,
{
    if path.len() == 0 || (path.len() == 1 && path[0].indices.len() == 0) {
        None
    } else {
        match entered(node, path[0]) {
            Some(next) => target_from(next, path[0].indices, path.skip(1)),
            None => None,
        }
    }
}

/// The removal along `indices` and then `rest` can be repeated from `node`:
/// it ends in the name of a key, or gets to no array, or gets to an array
/// in which its deletion can be repeated.
pub open spec fn repeats_from(node: Tree, indices: Seq<Index>, rest: Seq<Step>) -> bool {
    match target_from(node, indices, rest) {
        Some(Tree::Array(items)) => repeats(items, final_index(indices, rest)),
        _ => true,
    }
}

/// The removal at `path` can be repeated in `root`: the path ends in the
/// name of a key, or gets to no array, or gets to an array in which its
/// deletion can be repeated.
pub open spec fn repeats_in(root: Tree, path: Seq<Step>) -> bool {
    match target(root, path) {
        Some(Tree::Array(items)) => repeats(items, path.last().indices.last()),
        _ => true,
    }
}

/// What the first segment of a path and the segments after it say of the
/// whole path.
proof fn lemma_first_step(path: Seq<Step>)
    requires
        path.len() > 0,
    ensures
        ends_in_key(path[0].indices, path.skip(1)) == ends_in_key(Seq::empty(), path),
        final_index(path[0].indices, path.skip(1)) == final_index(Seq::empty(), path),
        !ends_in_key(Seq::empty(), path) ==> {
            &&& base(path).len() == path.len()
            &&& base(path)[0] == Step {
                name: path[0].name,
                indices: base_indices(path[0].indices, path.skip(1)),
            }
            &&& base(path).skip(1) == base(path.skip(1))
        },
{
    let rest = path.skip(1);
    if rest.len() == 0 {
        assert(path.last() == path[0]);
        assert(base(path).skip(1) =~= base(rest));
    } else {
        assert(rest.last() == path.last());
        assert(base(path)[0] == path[0]);
        assert(base(path).skip(1) =~= base(rest));
    }
}

/// What the first index of a chain and the indices after it say of the
/// whole chain, where the first index is a step and not the deletion.
proof fn lemma_first_index(indices: Seq<Index>, rest: Seq<Step>)
    requires
        indices.len() > 0,
        !(indices.len() == 1 && rest.len() == 0),
    ensures
        ends_in_key(indices.skip(1), rest) == ends_in_key(indices, rest),
        final_index(indices.skip(1), rest) == final_index(indices, rest),
        !ends_in_key(indices, rest) ==> {
            &&& base_indices(indices, rest).len() > 0
            &&& base_indices(indices, rest)[0] == indices[0]
            &&& base_indices(indices, rest).skip(1) == base_indices(indices.skip(1), rest)
        },
{
    if rest.len() == 0 {
        assert(indices.skip(1).last() == indices.last());
        assert(indices.drop_last()[0] == indices[0]);
        assert(indices.drop_last().skip(1) =~= indices.skip(1).drop_last());
    }
}

/// Taking out twice leaves what taking out once leaves, where the removal
/// can be repeated.
pub proof fn lemma_erase_indices_twice(node: Tree, indices: Seq<Index>, rest: Seq<Step>)
    requires
        node.wf(),
        repeats_from(node, indices, rest),
    ensures
        erase_indices(erase_indices(node, indices, rest), indices, rest) == erase_indices(
            node,
            indices,
            rest,
        ),
    decreases rest.len(), indices.len() + 1,
{
    if indices.len() == 0 {
        assert(indices =~= Seq::<Index>::empty());
        lemma_erase_twice(node, rest);
    } else {
        match node {
            Tree::Array(items) => {
                if !(indices.len() == 1 && rest.len() == 0) {
                    lemma_first_index(indices, rest);
                    match indices[0] {
                        Index::Explicit(i) => {
                            if i < items.len() {
                                assert(element(node, indices[0]) == Some(items[i as int]));
                                lemma_erase_indices_twice(items[i as int], indices.skip(1), rest);
                                let once = erase_indices(items[i as int], indices.skip(1), rest);
                                assert(items.update(i as int, once).update(i as int, once)
                                    =~= items.update(i as int, once));
                            }
                        },
                        _ => {},
                    }
                }
            },
            _ => {},
        }
    }
}

/// Taking out twice what a path names leaves what taking it out once
/// leaves, where the removal can be repeated.
pub proof fn lemma_erase_twice(node: Tree, path: Seq<Step>)
    requires
        node.wf(),
        repeats_from(node, Seq::empty(), path),
    ensures
        erase(erase(node, path), path) == erase(node, path),
    decreases path.len(), 0nat,
{
    if path.len() > 0 {
        let name = path[0].name;
        let rest = path.skip(1);
        lemma_first_step(path);
        assert(target_from(node, Seq::empty(), path) == target(node, path));
        match node {
            Tree::Table(entries) => {
                lemma_key_index(entries, name);
                match key_index(entries, name) {
                    None => {},
                    Some(k) => {
                        if path.len() == 1 && path[0].indices.len() == 0 {
                            lemma_without_key_wf(entries, name);
                        } else {
                            assert(target(node, path) == target_from(
                                entries[k].1,
                                path[0].indices,
                                rest,
                            ));
                            lemma_erase_indices_twice(entries[k].1, path[0].indices, rest);
                            let once = erase_indices(entries[k].1, path[0].indices, rest);
                            let after = entries.update(k, (entries[k].0, once));
                            assert forall|j: int| 0 <= j < k implies (#[trigger] after[j]).0
                                != name by {
                                assert(after[j] == entries[j]);
                            }
                            lemma_key_index_at(after, name, k);
                            assert(after.update(k, (after[k].0, once)) =~= after);
                        }
                    },
                }
            },
            Tree::Array(_) => {
                if name.len() == 0 && path[0].indices.len() > 0 {
                    assert(target(node, path) == target_from(node, path[0].indices, rest));
                    lemma_erase_indices_twice(node, path[0].indices, rest);
                    lemma_erase_in_array(node, path[0].indices, rest);
                }
            },
            _ => {},
        }
    }
}

/// What a removal along one index or more leaves of an array is an array.
pub proof fn lemma_erase_in_array(node: Tree, indices: Seq<Index>, rest: Seq<Step>)
    requires
        node is Array,
        indices.len() > 0,
    ensures
        erase_indices(node, indices, rest) is Array,
{
}

/// After a removal, the indices and segments that led it to an array lead
/// it to what its deletion left of that array.
pub proof fn lemma_target_from_erase(
    node: Tree,
    indices: Seq<Index>,
    rest: Seq<Step>,
    items: Seq<Tree>,
)
    requires
        target_from(node, indices, rest) == Some(Tree::Array(items)),
    ensures
        target_from(erase_indices(node, indices, rest), indices, rest) == Some(
            Tree::Array(delete_at(items, final_index(indices, rest))),
        ),
    decreases rest.len(), indices.len() + 1,
{
    if indices.len() == 0 {
        lemma_target_erase(node, rest, items);
    } else if !(indices.len() == 1 && rest.len() == 0) {
        lemma_first_index(indices, rest);
        assert(element(node, indices[0]) is Some);
        let i = indices[0]->Explicit_0;
        let inner = node->Array_0[i as int];
        lemma_target_from_erase(inner, indices.skip(1), rest, items);
        let once = erase_indices(inner, indices.skip(1), rest);
        assert(element(Tree::Array(node->Array_0.update(i as int, once)), indices[0]) == Some(
            once,
        ));
    }
}

/// After a removal, the path that led it to an array leads it to what its
/// deletion left of that array.
pub proof fn lemma_target_erase(node: Tree, path: Seq<Step>, items: Seq<Tree>)
    requires
        target(node, path) == Some(Tree::Array(items)),
    ensures
        target(erase(node, path), path) == Some(
            Tree::Array(delete_at(items, final_index(Seq::empty(), path))),
        ),
    decreases path.len(), 0nat,
{
    let name = path[0].name;
    let rest = path.skip(1);
    lemma_first_step(path);
    match node {
        Tree::Table(entries) => {
            lemma_key_index(entries, name);
            let k = key_index(entries, name)->0;
            lemma_target_from_erase(entries[k].1, path[0].indices, rest, items);
            let once = erase_indices(entries[k].1, path[0].indices, rest);
            let after = entries.update(k, (entries[k].0, once));
            assert forall|j: int| 0 <= j < k implies (#[trigger] after[j]).0 != name by {
                assert(after[j] == entries[j]);
            }
            lemma_key_index_at(after, name, k);
            assert(entered(Tree::Table(after), path[0]) == Some(once));
        },
        Tree::Array(_) => {
            lemma_target_from_erase(node, path[0].indices, rest, items);
            lemma_erase_in_array(node, path[0].indices, rest);
        },
        _ => {},
    }
}

/// After a removal that ends in an index, the way to the array that the
/// index is applied to leads to what the deletion leaves of that array.
pub proof fn lemma_reach_erase(node: Tree, indices: Seq<Index>, rest: Seq<Step>, items: Seq<Tree>)
    requires
        !ends_in_key(indices, rest),
        reach(node, base_indices(indices, rest), base(rest)) == Some(Tree::Array(items)),
    ensures
        reach(erase_indices(node, indices, rest), base_indices(indices, rest), base(rest)) == Some(
            Tree::Array(delete_at(items, final_index(indices, rest))),
        ),
    decreases rest.len(), indices.len() + 1,
{
    if indices.len() == 0 {
        lemma_resolve_erase(node, rest, items);
    } else if indices.len() == 1 && rest.len() == 0 {
        assert(base_indices(indices, rest) =~= Seq::<Index>::empty());
    } else {
        lemma_first_index(indices, rest);
        let from = base_indices(indices, rest);
        assert(element(node, from[0]) is Some);
        let i = indices[0]->Explicit_0;
        let inner = node->Array_0[i as int];
        lemma_reach_erase(inner, indices.skip(1), rest, items);
        let once = erase_indices(inner, indices.skip(1), rest);
        assert(element(Tree::Array(node->Array_0.update(i as int, once)), from[0]) == Some(once));
    }
}

/// After a removal at a path that ends in an index, the path without that
/// index leads to what the deletion leaves of the array.
pub proof fn lemma_resolve_erase(node: Tree, path: Seq<Step>, items: Seq<Tree>)
    requires
        path.len() > 0,
        !ends_in_key(Seq::empty(), path),
        resolve(node, base(path)) == Some(Tree::Array(items)),
    ensures
        resolve(erase(node, path), base(path)) == Some(
            Tree::Array(delete_at(items, final_index(Seq::empty(), path))),
        ),
    decreases path.len(), 0nat,
{
    lemma_first_step(path);
    let name = path[0].name;
    let rest = path.skip(1);
    let from = base_indices(path[0].indices, rest);
    assert(child(node, name) is Some);
    let entries = node->Table_0;
    lemma_key_index(entries, name);
    let k = key_index(entries, name)->0;
    lemma_reach_erase(entries[k].1, path[0].indices, rest, items);
    let once = erase_indices(entries[k].1, path[0].indices, rest);
    let after = entries.update(k, (entries[k].0, once));
    assert forall|j: int| 0 <= j < k implies (#[trigger] after[j]).0 != name by {
        assert(after[j] == entries[j]);
    }
    lemma_key_index_at(after, name, k);
    assert(child(Tree::Table(after), name) == Some(once));
}

/// After the removal of a key, the indices and segments that named it lead
/// to nothing.
pub proof fn lemma_reach_erased(node: Tree, indices: Seq<Index>, rest: Seq<Step>)
    requires
        node.wf(),
        ends_in_key(indices, rest),
        rest.len() > 0,
    ensures
        reach(erase_indices(node, indices, rest), indices, rest) is None,
    decreases rest.len(), indices.len() + 1,
{
    if indices.len() == 0 {
        lemma_resolve_erased(node, rest);
    } else {
        match (node, indices[0]) {
            (Tree::Array(items), Index::Explicit(i)) => {
                if i < items.len() {
                    lemma_reach_erased(items[i as int], indices.skip(1), rest);
                    let once = erase_indices(items[i as int], indices.skip(1), rest);
                    assert(element(Tree::Array(items.update(i as int, once)), indices[0]) == Some(
                        once,
                    ));
                }
            },
            _ => {},
        }
    }
}

/// After the removal of a key, the path that named it leads to nothing.
pub proof fn lemma_resolve_erased(node: Tree, path: Seq<Step>)
    requires
        node.wf(),
        path.len() > 0,
        path.last().indices.len() == 0,
    ensures
        resolve(erase(node, path), path) is None,
    decreases path.len(), 0nat,
{
    match node {
        Tree::Table(entries) => {
            let name = path[0].name;
            let rest = path.skip(1);
            lemma_key_index(entries, name);
            match key_index(entries, name) {
                None => {},
                Some(k) => {
                    if path.len() == 1 && path[0].indices.len() == 0 {
                        lemma_without_key_wf(entries, name);
                    } else {
                        assert(rest.len() > 0) by {
                            if rest.len() == 0 {
                                assert(path.last() == path[0]);
                            }
                        }
                        assert(rest.last() == path.last());
                        lemma_reach_erased(entries[k].1, path[0].indices, rest);
                        let once = erase_indices(entries[k].1, path[0].indices, rest);
                        let after = entries.update(k, (entries[k].0, once));
                        assert forall|j: int| 0 <= j < k implies (#[trigger] after[j]).0
                            != name by {
                            assert(after[j] == entries[j]);
                        }
                        lemma_key_index_at(after, name, k);
                        assert(child(Tree::Table(after), name) == Some(once));
                    }
                },
            }
        },
        Tree::Array(_) => {
            if path[0].name.len() == 0 && path[0].indices.len() > 0 {
                lemma_erase_in_array(node, path[0].indices, path.skip(1));
            }
        },
        _ => {},
    }
}

/// A read after the removal of a key finds nothing: where the path ends in
/// the name of a key, in a document in which no table holds a key twice,
/// a read at the same path returns the empty text afterwards.
pub proof fn law_removed_key_reads_empty(root: Tree, key: Seq<char>)
    requires
        root.wf(),
        path_of(key) is Some,
        path_of(key)->0.last().indices.len() == 0,
    ensures
        remove_result(root, key) is Ok,
        get_result(remove_result(root, key)->Ok_0, key) == Seq::<char>::empty(),
{
    lemma_path_steps_len(key, Seq::empty());
    lemma_resolve_erased(root, path_of(key)->0);
}

/// Removing twice is removing once, where the removal can be repeated: at
/// a path that ends in the name of a key, or gets to no array, or gets to
/// an array in which its deletion can be repeated.
pub proof fn law_remove_twice(root: Tree, key: Seq<char>)
    requires
        root.wf(),
        path_of(key) is Some,
        repeats_in(root, path_of(key)->0),
    ensures
        remove_result(root, key) is Ok,
        remove_result(remove_result(root, key)->Ok_0, key) == remove_result(root, key),
{
    lemma_erase_twice(root, path_of(key)->0);
}

/// Removing twice is not removing once in any other case: where the
/// removal gets to an array in which its deletion cannot be repeated.
pub proof fn law_remove_twice_only(root: Tree, key: Seq<char>)
    requires
        path_of(key) is Some,
        !repeats_in(root, path_of(key)->0),
    ensures
        remove_result(remove_result(root, key)->Ok_0, key) != remove_result(root, key),
{
    let path = path_of(key)->0;
    let items = target(root, path)->0->Array_0;
    lemma_target_erase(root, path, items);
    lemma_target_erase(erase(root, path), path, delete_at(items, path.last().indices.last()));
}

/// A removal lands in the array that it gets to: where a removal at the
/// path applies the last index of the path to an array, it finds there
/// afterwards what the deletion by that index leaves of the array. This
/// holds as well where a segment without a name is applied to an array.
pub proof fn law_remove_lands(root: Tree, key: Seq<char>, items: Seq<Tree>)
    requires
        path_of(key) is Some,
        target(root, path_of(key)->0) == Some(Tree::Array(items)),
    ensures
        remove_result(root, key) is Ok,
        target(remove_result(root, key)->Ok_0, path_of(key)->0) == Some(
            Tree::Array(delete_at(items, path_of(key)->0.last().indices.last())),
        ),
{
    lemma_target_erase(root, path_of(key)->0, items);
}

/// A removal at a path that ends in an index deletes from the array that
/// the path without that index leads a read to, and what the deletion
/// leaves is read there afterwards.
pub proof fn law_remove_deletes(root: Tree, key: Seq<char>, items: Seq<Tree>)
    requires
        path_of(key) is Some,
        path_of(key)->0.last().indices.len() > 0,
        resolve(root, base(path_of(key)->0)) == Some(Tree::Array(items)),
    ensures
        remove_result(root, key) is Ok,
        resolve(remove_result(root, key)->Ok_0, base(path_of(key)->0)) == Some(
            Tree::Array(delete_at(items, path_of(key)->0.last().indices.last())),
        ),
{
    lemma_path_steps_len(key, Seq::empty());
    lemma_resolve_erase(root, path_of(key)->0, items);
}

/// A segment without a name is applied to the array that it meets: one
/// index takes out of the array itself what it names.
pub proof fn law_remove_in_array(items: Seq<Tree>, index: Index)
    ensures
        erase(
            Tree::Array(items),
            seq![Step { name: Seq::empty(), indices: seq![index] }],
        ) == Tree::Array(delete_at(items, index)),
{
    let path = seq![Step { name: Seq::<char>::empty(), indices: seq![index] }];
    assert(path.skip(1) =~= Seq::<Step>::empty());
}

/// A segment with a name leads to nothing in an array, and no segment leads
/// anywhere in a scalar: the removal leaves such a node as it is.
pub proof fn law_remove_misses(node: Tree, path: Seq<Step>)
    requires
        path.len() > 0,
        !(node is Table),
        !(node is Array) || path[0].name.len() > 0 || path[0].indices.len() == 0,
    ensures
        erase(node, path) == node,
{
}

/// What is kept depends on which positions are listed, not on how often or
/// in which order.
pub proof fn lemma_kept_same(items: Seq<Tree>, a: Seq<nat>, b: Seq<nat>, from: nat)
    requires
        forall|n: nat| a.contains(n) <==> b.contains(n),
    ensures
        kept(items, a, from) == kept(items, b, from),
    decreases items.len() - from,
{
    if from < items.len() {
        lemma_kept_same(items, a, b, (from + 1) as nat);
    }
}

/// The order in which a deletion lists its positions does not matter, nor
/// how often it lists one: two lists of the same positions take out the
/// same elements.
pub proof fn law_multi_index_order(items: Seq<Tree>, a: Seq<nat>, b: Seq<nat>)
    requires
        forall|n: nat| a.contains(n) <==> b.contains(n),
    ensures
        delete_at(items, Index::MultiIndex(a)) == delete_at(items, Index::MultiIndex(b)),
{
    lemma_kept_same(items, a, b, 0);
}

/// A deletion by a list of positions and one by any rearrangement of that
/// list take out the same elements.
pub proof fn law_multi_index_permutation(items: Seq<Tree>, a: Seq<nat>, b: Seq<nat>)
    requires
        a.to_multiset() == b.to_multiset(),
    ensures
        delete_at(items, Index::MultiIndex(a)) == delete_at(items, Index::MultiIndex(b)),
{
    a.to_multiset_ensures();
    b.to_multiset_ensures();
    assert forall|n: nat| a.contains(n) <==> b.contains(n) by {
        assert(a.contains(n) <==> a.to_multiset().count(n) > 0);
        assert(b.contains(n) <==> b.to_multiset().count(n) > 0);
    }
    law_multi_index_order(items, a, b);
}

/// The two slices are not alike. `[:n]` takes out the last `n` elements,
/// and all where there are fewer, so `[:0]` takes out none. `[n:]` takes
/// out the elements before `n`, and all where there are fewer, but `[0:]`
/// takes out all.
pub proof fn law_slice_asymmetry(items: Seq<Tree>, n: nat)
    ensures
        n <= items.len() ==> delete_at(items, Index::SliceKeepFromEnd(n)) == items.take(
            items.len() - n,
        ),
        n >= items.len() ==> delete_at(items, Index::SliceKeepFromEnd(n)) == Seq::<Tree>::empty(),
        0 < n <= items.len() ==> delete_at(items, Index::SliceFromIndex(n)) == items.skip(
            n as int,
        ),
        n >= items.len() ==> delete_at(items, Index::SliceFromIndex(n)) == Seq::<Tree>::empty(),
        delete_at(items, Index::SliceKeepFromEnd(0)) == items,
        delete_at(items, Index::SliceFromIndex(0)) == Seq::<Tree>::empty(),
{
    assert(items.take(items.len() as int) =~= items);
    assert(items.take(0) =~= Seq::<Tree>::empty());
    assert(items.skip(items.len() as int) =~= Seq::<Tree>::empty());
}

} // verus!
