//! What a read finds after a write.
use crate::format::render;
use crate::get::{child, element, follow_indices, get_result, resolve};
use crate::laws::shape::{explicit, explicit_indices, lemma_path_steps_len};
use crate::parse::{coerce, has_spread_marker};
use crate::path::{path_of, Index, Step};
use crate::set::{entries_of, held, items_of, padded, set_result, writable, write_indices, write_path};
use crate::text::trimmed;
use crate::value::{lemma_lookup_upsert, upsert, Tree};
use vstd::prelude::*;

verus! {

/// After a write along explicit positions, the same path leads to the value
/// that was written.
pub proof fn lemma_resolve_write(node: Tree, path: Seq<Step>, value: Tree, spread: bool)
    requires
        path.len() > 0,
        explicit(path),
    ensures
        resolve(write_path(node, path, value, spread), path) == Some(value),
    decreases path.len(), 0nat,
{
    let written = write_indices(
        held(node, path[0].name),
        path[0].indices,
        path.skip(1),
        value,
        spread,
    );
    lemma_lookup_upsert(entries_of(node), path[0].name, written);
    assert(child(write_path(node, path, value, spread), path[0].name) == Some(written));
    assert(explicit_indices(path[0].indices));
    assert(explicit(path.skip(1))) by {
        assert forall|s: int| 0 <= s < path.skip(1).len() implies explicit_indices(
            #[trigger] path.skip(1)[s].indices,
        ) by {
            assert(path.skip(1)[s] == path[s + 1]);
        }
    }
    lemma_follow_write_indices(
        held(node, path[0].name),
        path[0].indices,
        path.skip(1),
        value,
        spread,
    );
}

/// After a write along explicit positions and then along a path, the same
/// positions and the same path lead to the value that was written.
pub proof fn lemma_follow_write_indices(
    node: Tree,
    indices: Seq<Index>,
    rest: Seq<Step>,
    value: Tree,
    spread: bool,
)
    requires
        explicit_indices(indices),
        explicit(rest),
    ensures
        follow_indices(write_indices(node, indices, rest, value, spread), indices) is Some,
        resolve(
            follow_indices(write_indices(node, indices, rest, value, spread), indices)->0,
            rest,
        ) == Some(value),
    decreases rest.len(), indices.len() + 1,
{
    if indices.len() == 0 {
        if rest.len() > 0 {
            lemma_resolve_write(node, rest, value, spread);
        }
    } else {
        assert(indices[0] is Explicit);
        let i = indices[0]->Explicit_0;
        let items = padded(items_of(node), i + 1);
        let inner = write_indices(items[i as int], indices.skip(1), rest, value, spread);
        assert(write_indices(node, indices, rest, value, spread) == Tree::Array(
            items.update(i as int, inner),
        ));
        assert(element(Tree::Array(items.update(i as int, inner)), indices[0]) == Some(inner));
        assert(explicit_indices(indices.skip(1))) by {
            assert forall|k: int| 0 <= k < indices.skip(1).len() implies #[trigger] indices.skip(
                1,
            )[k] is Explicit by {
                assert(indices.skip(1)[k] == indices[k + 1]);
            }
        }
        lemma_follow_write_indices(items[i as int], indices.skip(1), rest, value, spread);
    }
}

/// A read after a write returns what was written: where the path can be
/// read and names explicit positions only, and the literal denotes a value,
/// the write is done, and a read at the same path returns the text of that
/// value, whatever the document held before.
pub proof fn law_round_trip(root: Tree, key: Seq<char>, literal: Seq<char>)
    requires
        path_of(key) is Some,
        explicit(path_of(key)->0),
        coerce(literal) is Ok,
    ensures
        set_result(root, key, literal) is Ok,
        get_result(set_result(root, key, literal)->Ok_0, key) == render(coerce(literal)->Ok_0),
{
    let path = path_of(key)->0;
    lemma_path_steps_len(key, Seq::empty());
    assert(writable(path)) by {
        assert forall|s: int, k: int|
            0 <= s < path.len() && 0 <= k < path[s].indices.len() implies #[trigger] path[s].indices[k] is Explicit by {
            assert(explicit_indices(path[s].indices));
        }
    }
    lemma_resolve_write(root, path, coerce(literal)->Ok_0, has_spread_marker(trimmed(literal)));
}

/// A position at or beyond the end of an array leads to nothing, whatever
/// follows it.
pub proof fn law_out_of_range_read(items: Seq<Tree>, i: nat, more: Seq<Index>)
    requires
        i >= items.len(),
    ensures
        follow_indices(Tree::Array(items), seq![Index::Explicit(i)] + more) is None,
{
}

/// A read along a path that leads to nothing returns the empty text.
pub proof fn law_nothing_reads_empty(root: Tree, key: Seq<char>)
    requires
        path_of(key) is Some,
        resolve(root, path_of(key)->0) is None,
    ensures
        get_result(root, key) == Seq::<char>::empty(),
{
}

/// A write through a value that is no table puts a table in its place:
/// where `x` holds no table, a write at `x.y` leaves under `x` a table whose
/// one entry is the value under `y`.
pub proof fn law_vivify_overwrites(root: Tree, x: Seq<char>, y: Seq<char>, value: Tree, spread: bool)
    requires
        !(held(root, x) is Table),
    ensures
        write_path(
            root,
            seq![
                Step { name: x, indices: Seq::empty() },
                Step { name: y, indices: Seq::empty() },
            ],
            value,
            spread,
        ) == Tree::Table(upsert(entries_of(root), x, Tree::Table(seq![(y, value)]))),
{
    let first = Step { name: x, indices: Seq::<Index>::empty() };
    let second = Step { name: y, indices: Seq::<Index>::empty() };
    let path = seq![first, second];
    let rest = path.skip(1);
    assert(rest =~= seq![second]);
    assert(rest.skip(1) =~= Seq::<Step>::empty());
    let node = held(root, x);
    assert(write_indices(value, second.indices, rest.skip(1), value, spread) == value);
    assert(entries_of(node) =~= Seq::<(Seq<char>, Tree)>::empty());
    assert(held(node, y) == Tree::Table(Seq::empty()));
    assert(write_indices(held(node, y), second.indices, rest.skip(1), value, spread) == value);
    assert(upsert(entries_of(node), y, value) =~= seq![(y, value)]);
    assert(write_path(node, rest, value, spread) == Tree::Table(seq![(y, value)]));
    assert(write_indices(node, first.indices, rest, value, spread) == write_path(
        node,
        rest,
        value,
        spread,
    ));
}

} // verus!
