//! Shapes of paths, and where their parts lead.
use crate::get::{follow_indices, resolve};
use crate::path::{after_first_key, first_key, path_steps, segment_of, Index, Step};
use crate::scan::lemma_first_cut;
use crate::value::Tree;
use vstd::prelude::*;

verus! {

/// Every index among `indices` is an explicit position.
pub open spec fn explicit_indices(indices: Seq<Index>) -> bool {
    forall|k: int| 0 <= k < indices.len() ==> #[trigger] indices[k] is Explicit
}

/// Every index in `path` is an explicit position: the paths that a read
/// can follow.
pub open spec fn explicit(path: Seq<Step>) -> bool {
    forall|s: int| 0 <= s < path.len() ==> explicit_indices(#[trigger] path[s].indices)
}

/// A path that was read from a text has a segment.
pub proof fn lemma_path_steps_len(key: Seq<char>, acc: Seq<Step>)
    ensures
        path_steps(key, acc) is Some ==> path_steps(key, acc)->0.len() > acc.len(),
    decreases key.len(),
{
    match segment_of(first_key(key)) {
        None => {},
        Some(step) => {
            if after_first_key(key).len() != 0 {
                lemma_first_cut(key, '.', false);
                lemma_path_steps_len(after_first_key(key), acc.push(step));
            }
        },
    }
}

/// `path` without the last index of its last segment: the path to the array
/// that this last index is applied to.
pub open spec fn base(path: Seq<Step>) -> Seq<Step> {
    if path.len() == 0 {
        path
    } else {
        path.drop_last().push(
            Step { name: path.last().name, indices: path.last().indices.drop_last() },
        )
    }
}

/// `indices` without the last of them where no segment follows: with
/// `base` of the segments after them, the way to the array that the last
/// index of all is applied to.
pub open spec fn base_indices(indices: Seq<Index>, rest: Seq<Step>) -> Seq<Index> {
    if rest.len() == 0 {
        indices.drop_last()
    } else {
        indices
    }
}

/// Where `indices` and then `rest` lead from `node`.
pub open spec fn reach(node: Tree, indices: Seq<Index>, rest: Seq<Step>) -> Option<Tree> {
    match follow_indices(node, indices) {
        Some(next) => resolve(next, rest),
        None => None,
    }
}

} // verus!
