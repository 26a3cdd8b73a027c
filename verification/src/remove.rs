//! Deleting: what a path names is taken out, and nothing is made on the
//! way.
use crate::error::Error;
use crate::path::{parse_path, path_of, view_indices, view_path, Index, IndexSpec, Segment, Step};
use crate::value::{key_index, lemma_key_index, view_items, Table, Tree, Value};
use vstd::prelude::*;

verus! {

/// The elements of `items` from position `from` on whose position is not
/// among `listed`.
pub open spec fn kept(items: Seq<Tree>, listed: Seq<nat>, from: nat) -> Seq<Tree>
    decreases items.len() - from,
{
    if from >= items.len() {
        Seq::empty()
    } else if listed.contains(from) {
        kept(items, listed, from + 1)
    } else {
        seq![items[from as int]] + kept(items, listed, from + 1)
    }
}

/// `items` after the deletion that `index` names. A position or a count
/// beyond the array is no error:
/// `[i]` takes out the element at `i`, if there is one;
/// `[]` takes out every element;
/// `[:n]` takes out the last `n` elements, and all where there are fewer;
/// `[n:]` takes out the elements before position `n`, and every element
/// where `n` is 0 or beyond the array;
/// `[i,j,k]` takes out the elements at the positions listed.
pub open spec fn delete_at(items: Seq<Tree>, index: Index) -> Seq<Tree> {
    match index {
        Index::Explicit(i) => if i < items.len() {
            items.remove(i as int)
        } else {
            items
        },
        Index::Append => Seq::empty(),
        Index::SliceKeepFromEnd(n) => if n >= items.len() {
            Seq::empty()
        } else {
            items.take(items.len() - n)
        },
        Index::SliceFromIndex(n) => if n == 0 || n >= items.len() {
            Seq::empty()
        } else {
            items.skip(n as int)
        },
        Index::MultiIndex(listed) => kept(items, listed, 0),
    }
}

/// `node` after what `path` names is taken out. Where the path leads to
/// nothing, `node` stays as it is. A path of one last segment without
/// indices takes the entry under its name out of the table. At an array, a
/// segment without a name that begins with an index is applied to the
/// array itself; a segment with a name leads to nothing there.
pub open spec fn erase(node: Tree, path: Seq<Step>) -> Tree
    decreases path.len(), 0nat,
{
    if path.len() == 0 {
        node
    } else {
        match node {
            Tree::Table(entries) => match key_index(entries, path[0].name) {
                None => node,
                Some(k) => if path.len() == 1 && path[0].indices.len() == 0 {
                    Tree::Table(entries.remove(k))
                } else {
                    Tree::Table(
                        entries.update(
                            k,
                            (
                                entries[k].0,
                                erase_indices(entries[k].1, path[0].indices, path.skip(1)),
                            ),
                        ),
                    )
                },
            },
            Tree::Array(_) => if path[0].name.len() == 0 && path[0].indices.len() > 0 {
                erase_indices(node, path[0].indices, path.skip(1))
            } else {
                node
            },
            _ => node,
        }
    }
}

/// `node` after what `indices` and then `rest` name is taken out. The very
/// last index names a deletion in the array that it is applied to; an index
/// before it is a step, and only an explicit position within the array is
/// one.
pub open spec fn erase_indices(node: Tree, indices: Seq<Index>, rest: Seq<Step>) -> Tree
    decreases rest.len(), indices.len() + 1,
{
    if indices.len() == 0 {
        erase(node, rest)
    } else {
        match node {
            Tree::Array(items) => if indices.len() == 1 && rest.len() == 0 {
                Tree::Array(delete_at(items, indices[0]))
            } else {
                match indices[0] {
                    Index::Explicit(i) => if i < items.len() {
                        Tree::Array(
                            items.update(
                                i as int,
                                erase_indices(items[i as int], indices.skip(1), rest),
                            ),
                        )
                    } else {
                        node
                    },
                    _ => node,
                }
            },
            _ => node,
        }
    }
}

/// What a removal at `key` makes of `root`, or why it is refused.
pub open spec fn remove_result(root: Tree, key: Seq<char>) -> Result<Tree, Error> {
    match path_of(key) {
        None => Err(Error::MalformedPath),
        Some(path) => Ok(erase(root, path)),
    }
}

fn is_listed(list: &Vec<usize>, i: usize) -> (r: bool)
    ensures
        r == list@.map_values(|i: usize| i as nat).contains(i as nat),
{
    let ghost listed = list@.map_values(|i: usize| i as nat);
    let mut k: usize = 0;
    while k < list.len()
        invariant
            k <= list@.len(),
            listed == list@.map_values(|i: usize| i as nat),
            forall|j: int| 0 <= j < k ==> listed[j] != i as nat,
        decreases list@.len() - k,
    {
        if list[k] == i {
            assert(listed[k as int] == i as nat);
            return true;
        }
        k += 1;
    }
    false
}

/// Deletes from `arr` what `index` names.
pub fn handle_array_removal(arr: &mut Vec<Value>, index: &IndexSpec)
    ensures
        view_items(final(arr)@) == delete_at(view_items(old(arr)@), index@),
{
    let len = arr.len();
    let ghost before = view_items(arr@);
    match index {
        IndexSpec::Explicit(i) => {
            if *i < len {
                arr.remove(*i);
                assert(view_items(arr@) =~= before.remove(*i as int));
            }
        },
        IndexSpec::Append => {
            arr.clear();
            assert(view_items(arr@) =~= Seq::empty());
        },
        IndexSpec::SliceKeepFromEnd(n) => {
            if *n >= len {
                arr.clear();
                assert(view_items(arr@) =~= Seq::empty());
            } else {
                arr.truncate(len - *n);
                assert(view_items(arr@) =~= before.take(len - *n));
            }
        },
        IndexSpec::SliceFromIndex(n) => {
            if *n == 0 || *n >= len {
                arr.clear();
                assert(view_items(arr@) =~= Seq::empty());
            } else {
                let tail = arr.split_off(*n);
                *arr = tail;
                assert(view_items(arr@) =~= before.skip(*n as int));
            }
        },
        IndexSpec::MultiIndex(list) => {
            let ghost listed = list@.map_values(|i: usize| i as nat);
            let mut i: usize = len;
            assert(view_items(arr@) =~= before.take(len as int) + kept(before, listed, len as nat));
            while i > 0
                invariant
                    i <= len == before.len(),
                    listed == list@.map_values(|i: usize| i as nat),
                    i <= arr@.len(),
                    view_items(arr@) == before.take(i as int) + kept(before, listed, i as nat),
                decreases i,
            {
                i -= 1;
                let ghost held = view_items(arr@);
                if is_listed(list, i) {
                    arr.remove(i);
                    assert(view_items(arr@) =~= held.remove(i as int));
                    assert(held.remove(i as int) =~= before.take(i as int) + kept(
                        before,
                        listed,
                        i as nat,
                    ));
                } else {
                    assert(held =~= before.take(i as int) + kept(before, listed, i as nat));
                }
            }
            assert(before.take(0) + kept(before, listed, 0) =~= kept(before, listed, 0));
        },
    }
}

/// Takes out what the indices of the segment at `at`, from the one at `k`
/// on, and then the segments after it name from `value` on.
fn remove_from_array_recursive(value: &mut Value, path: &Vec<Segment>, at: usize, k: usize)
    requires
        at < path@.len(),
        k <= path@[at as int].indices@.len(),
    ensures
        final(value)@ == erase_indices(
            old(value)@,
            view_indices(path@[at as int].indices@).skip(k as int),
            view_path(path@).skip(at + 1),
        ),
    decreases path@.len() - at - 1, path@[at as int].indices@.len() - k + 2,
{
    let n = path.len();
    let indices = &path[at].indices;
    let m = indices.len();
    let ghost chain = view_indices(indices@).skip(k as int);
    let ghost rest = view_path(path@).skip(at + 1);
    assert(rest.len() == n - at - 1);
    assert(chain.len() == m - k);
    if k == m {
        if at + 1 < n {
            remove_recursive(value, path, at + 1);
        } else {
            assert(erase(value@, rest) == value@);
        }
    } else {
        assert(chain[0] == indices@[k as int]@);
        assert(chain.skip(1) =~= view_indices(indices@).skip(k + 1));
        match value {
            Value::Array(arr) => {
                if k + 1 == m && at + 1 == n {
                    handle_array_removal(arr, &indices[k]);
                } else {
                    match &indices[k] {
                        IndexSpec::Explicit(i) => {
                            if *i < arr.len() {
                                let ghost before = arr@;
                                let slot = &mut arr[*i];
                                assert(view_items(before.update(*i as int, *final(slot)))
                                    =~= view_items(before).update(*i as int, (*final(slot))@));
                                remove_from_array_recursive(slot, path, at, k + 1);
                            }
                        },
                        _ => {},
                    }
                }
            },
            _ => {},
        }
    }
}

/// Takes out of `table` what the segments of `path` from the one at `at`
/// name.
fn remove_from_table(table: &mut Table, path: &Vec<Segment>, at: usize)
    requires
        at < path@.len(),
    ensures
        Tree::Table(final(table)@) == erase(
            Tree::Table(old(table)@),
            view_path(path@).skip(at as int),
        ),
    decreases path@.len() - at, 0nat,
{
    let n = path.len();
    let segment = &path[at];
    let ghost steps = view_path(path@).skip(at as int);
    assert(steps[0] == path@[at as int]@);
    assert(steps.skip(1) =~= view_path(path@).skip(at + 1));
    assert(view_indices(segment.indices@).skip(0) =~= steps[0].indices);
    proof {
        lemma_key_index(table@, segment.name@);
    }
    match table.position(&segment.name) {
        None => {},
        Some(i) => {
            if at + 1 == n && segment.indices.len() == 0 {
                table.remove_at(i);
            } else {
                let slot = table.value_at_mut(i);
                remove_from_array_recursive(slot, path, at, 0);
            }
        },
    }
}

/// Takes out of the array `value` what the segments of `path` from the one
/// at `at` name. A segment without a name that begins with an index is
/// applied to the array itself, in place; a segment with a name leads to
/// nothing in an array.
fn remove_from_array(value: &mut Value, path: &Vec<Segment>, at: usize)
    requires
        at < path@.len(),
        old(value)@ is Array,
    ensures
        final(value)@ == erase(old(value)@, view_path(path@).skip(at as int)),
    decreases path@.len() - at, 0nat,
{
    let segment = &path[at];
    let ghost steps = view_path(path@).skip(at as int);
    assert(steps[0] == path@[at as int]@);
    assert(steps.skip(1) =~= view_path(path@).skip(at + 1));
    assert(view_indices(segment.indices@).skip(0) =~= steps[0].indices);
    if segment.name.as_str().is_empty() && segment.indices.len() > 0 {
        remove_from_array_recursive(value, path, at, 0);
    }
}

/// Takes out of `value` what the segments of `path` from the one at `at`
/// name.
fn remove_recursive(value: &mut Value, path: &Vec<Segment>, at: usize)
    requires
        at < path@.len(),
    ensures
        final(value)@ == erase(old(value)@, view_path(path@).skip(at as int)),
    decreases path@.len() - at, 1nat,
{
    match value {
        Value::Table(table) => {
            remove_from_table(table, path, at);
        },
        Value::Array(_) => {
            remove_from_array(value, path, at);
        },
        _ => {},
    }
}

/// What is kept of well-formed elements is well formed.
pub proof fn lemma_kept_wf(items: Seq<Tree>, listed: Seq<nat>, from: nat)
    requires
        forall|i: int| 0 <= i < items.len() ==> (#[trigger] items[i]).wf(),
    ensures
        forall|j: int|
            0 <= j < kept(items, listed, from).len() ==> (#[trigger] kept(
                items,
                listed,
                from,
            )[j]).wf(),
    decreases items.len() - from,
{
    if from < items.len() {
        let next = (from + 1) as nat;
        lemma_kept_wf(items, listed, next);
        let tail = kept(items, listed, next);
        let all = kept(items, listed, from);
        assert forall|j: int| 0 <= j < all.len() implies (#[trigger] all[j]).wf() by {
            if listed.contains(from) {
                assert(all[j] == tail[j]);
            } else if j == 0 {
                assert(all[j] == items[from as int]);
            } else {
                assert(all[j] == tail[j - 1]);
            }
        }
    }
}

/// A removal leaves a well-formed tree well formed.
pub proof fn lemma_erase_wf(node: Tree, path: Seq<Step>)
    requires
        node.wf(),
    ensures
        erase(node, path).wf(),
    decreases path.len(), 0nat,
{
    if path.len() > 0 {
        match node {
            Tree::Table(entries) => {
                lemma_key_index(entries, path[0].name);
                match key_index(entries, path[0].name) {
                    None => {},
                    Some(k) => {
                        if path.len() == 1 && path[0].indices.len() == 0 {
                            crate::value::lemma_without_key_wf(entries, path[0].name);
                        } else {
                            lemma_erase_indices_wf(entries[k].1, path[0].indices, path.skip(1));
                            crate::value::lemma_upsert_wf(
                                entries,
                                path[0].name,
                                erase_indices(entries[k].1, path[0].indices, path.skip(1)),
                            );
                        }
                    },
                }
            },
            Tree::Array(_) => {
                lemma_erase_indices_wf(node, path[0].indices, path.skip(1));
            },
            _ => {},
        }
    }
}

/// A removal along indices leaves a well-formed tree well formed.
pub proof fn lemma_erase_indices_wf(node: Tree, indices: Seq<Index>, rest: Seq<Step>)
    requires
        node.wf(),
    ensures
        erase_indices(node, indices, rest).wf(),
    decreases rest.len(), indices.len() + 1,
{
    if indices.len() == 0 {
        lemma_erase_wf(node, rest);
    } else {
        match node {
            Tree::Array(items) => {
                if indices.len() == 1 && rest.len() == 0 {
                    let after = delete_at(items, indices[0]);
                    match indices[0] {
                        Index::MultiIndex(listed) => {
                            lemma_kept_wf(items, listed, 0);
                        },
                        Index::Explicit(i) => {
                            assert forall|j: int| 0 <= j < after.len() implies (
                            #[trigger] after[j]).wf() by {
                                if i < items.len() {
                                    assert(after[j] == items[if j < i {
                                        j
                                    } else {
                                        j + 1
                                    }]);
                                }
                            }
                        },
                        _ => {
                            assert forall|j: int| 0 <= j < after.len() implies (
                            #[trigger] after[j]).wf() by {
                                assert(after[j] == items[j] || after[j] == items[j + (items.len()
                                    - after.len())]);
                            }
                        },
                    }
                } else {
                    match indices[0] {
                        Index::Explicit(i) => {
                            if i < items.len() {
                                lemma_erase_indices_wf(items[i as int], indices.skip(1), rest);
                            }
                        },
                        _ => {},
                    }
                }
            },
            _ => {},
        }
    }
}

/// Takes out what `key` names: the entry of a table, or elements of an
/// array. Where the path leads to nothing, nothing is done. A path that
/// cannot be read is refused, and the document stays as it was.
pub fn remove_value(toml_value: &mut Value, key: &str) -> (r: Result<(), Error>)
    ensures
        match remove_result(old(toml_value)@, key@) {
            Ok(t) => r is Ok && final(toml_value)@ == t,
            Err(e) => r is Err && r->Err_0 == e && final(toml_value)@ == old(toml_value)@,
        },
        old(toml_value)@.wf() ==> final(toml_value)@.wf(),
{
    let path = match parse_path(key) {
        Ok(path) => path,
        Err(e) => {
            return Err(e);
        },
    };
    proof {
        assert(view_path(path@).skip(0) =~= view_path(path@));
        if toml_value@.wf() {
            lemma_erase_wf(toml_value@, view_path(path@));
        }
    }
    if path.len() > 0 {
        remove_recursive(toml_value, &path, 0);
    }
    Ok(())
}

} // verus!
