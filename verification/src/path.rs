//! Paths: segments apart by points, each a name and a chain of indices in
//! brackets, as in `servers[2].ports[]`.
use crate::error::Error;
use crate::number::{all_digits, all_digits_from, decimal_within, parse_decimal};
use crate::parse::find_char;
use crate::scan::{find_cut, first_cut, lemma_first_cut};
use crate::text::{chars_of, text_of, trim, trimmed};
use vstd::prelude::*;
use vstd::slice::slice_subrange;
use vstd::string::StrSliceExecFns;

verus! {

/// The model of one index in brackets.
pub enum Index {
    /// `[i]`: the element at position `i`, counted from 0.
    Explicit(nat),
    /// `[]`: in a write, the place after the last element; in a removal,
    /// every element.
    Append,
    /// `[:n]`: in a removal, the last `n` elements.
    SliceKeepFromEnd(nat),
    /// `[n:]`: in a removal, the elements before position `n`, and every
    /// element where `n` is 0.
    SliceFromIndex(nat),
    /// `[i,j,k]`: in a removal, the elements at the positions listed.
    MultiIndex(Seq<nat>),
}

/// The model of one segment of a path: a key, and indices to take in turn.
/// The name of the key may be empty, as in the segment `[0]`.
pub struct Step {
    pub name: Seq<char>,
    pub indices: Seq<Index>,
}

/// One index in brackets.
#[derive(Debug, PartialEq, Eq)]
pub enum IndexSpec {
    /// `[i]`: the element at position `i`, counted from 0.
    Explicit(usize),
    /// `[]`: in a write, the place after the last element; in a removal,
    /// every element.
    Append,
    /// `[:n]`: in a removal, the last `n` elements.
    SliceKeepFromEnd(usize),
    /// `[n:]`: in a removal, the elements before position `n`, and every
    /// element where `n` is 0.
    SliceFromIndex(usize),
    /// `[i,j,k]`: in a removal, the elements at the positions listed.
    MultiIndex(Vec<usize>),
}

/// One segment of a path: a key, and indices to take in turn. The name of
/// the key may be empty, as in the segment `[0]`.
#[derive(Debug, PartialEq, Eq)]
pub struct Segment {
    pub name: String,
    pub indices: Vec<IndexSpec>,
}

impl View for IndexSpec {
    type V = Index;

    open spec fn view(&self) -> Index {
        match self {
            IndexSpec::Explicit(i) => Index::Explicit(*i as nat),
            IndexSpec::Append => Index::Append,
            IndexSpec::SliceKeepFromEnd(n) => Index::SliceKeepFromEnd(*n as nat),
            IndexSpec::SliceFromIndex(n) => Index::SliceFromIndex(*n as nat),
            IndexSpec::MultiIndex(list) => Index::MultiIndex(list@.map_values(|i: usize| i as nat)),
        }
    }
}

/// The models of the indices `indices`.
pub open spec fn view_indices(indices: Seq<IndexSpec>) -> Seq<Index> {
    indices.map_values(|ix: IndexSpec| ix@)
}

impl View for Segment {
    type V = Step;

    open spec fn view(&self) -> Step {
        Step { name: self.name@, indices: view_indices(self.indices@) }
    }
}

/// The models of the segments `segments`.
pub open spec fn view_path(segments: Seq<Segment>) -> Seq<Step> {
    segments.map_values(|s: Segment| s@)
}

/// `acc` and after it the numbers that `s` lists, apart by commas, each with
/// or without white space around it.
pub open spec fn index_list(s: Seq<char>, acc: Seq<nat>) -> Option<Seq<nat>>
    decreases s.len(),
{
    let comma = s.index_of_first(',');
    let head = match comma {
        Some(i) => s.take(i),
        None => s,
    };
    match decimal_within(trimmed(head), usize::MAX as nat) {
        None => None,
        Some(n) => match comma {
            None => Some(acc.push(n)),
            Some(i) => {
                proof {
                    s.index_of_first_ensures(',');
                }
                index_list(s.skip(i + 1), acc.push(n))
            },
        },
    }
}

/// The index that the text `t` between two brackets denotes. A number is one
/// or more digits and fits in a machine word.
pub open spec fn index_of_text(t: Seq<char>) -> Option<Index> {
    if t.len() == 0 {
        Some(Index::Append)
    } else if all_digits(t) {
        match decimal_within(t, usize::MAX as nat) {
            Some(n) => Some(Index::Explicit(n)),
            None => None,
        }
    } else if t[0] == ':' {
        match decimal_within(t.skip(1), usize::MAX as nat) {
            Some(n) => Some(Index::SliceKeepFromEnd(n)),
            None => None,
        }
    } else if t.last() == ':' {
        match decimal_within(t.drop_last(), usize::MAX as nat) {
            Some(n) => Some(Index::SliceFromIndex(n)),
            None => None,
        }
    } else if t.contains(',') {
        match index_list(t, Seq::empty()) {
            Some(list) => Some(Index::MultiIndex(list)),
            None => None,
        }
    } else {
        None
    }
}

/// `acc` and after it the indices of the chain `s`: groups in brackets, one
/// after the other, with nothing before, between or after them, and no
/// bracket inside a group.
pub open spec fn index_chain(s: Seq<char>, acc: Seq<Index>) -> Option<Seq<Index>>
    decreases s.len(),
{
    if s.len() == 0 {
        Some(acc)
    } else if s[0] != '[' {
        None
    } else {
        match s.index_of_first(']') {
            None => None,
            Some(close) => {
                proof {
                    s.index_of_first_ensures(']');
                }
                let text = s.subrange(1, close);
                if text.contains('[') {
                    None
                } else {
                    match index_of_text(text) {
                        None => None,
                        Some(ix) => index_chain(s.skip(close + 1), acc.push(ix)),
                    }
                }
            },
        }
    }
}

/// The segment that `part` denotes: a name without brackets, and then a
/// chain of indices or nothing.
pub open spec fn segment_of(part: Seq<char>) -> Option<Step> {
    let name = match part.index_of_first('[') {
        Some(b) => part.take(b),
        None => part,
    };
    let chain = match part.index_of_first('[') {
        Some(b) => index_chain(part.skip(b), Seq::empty()),
        None => Some(Seq::empty()),
    };
    if name.contains(']') {
        None
    } else {
        match chain {
            Some(indices) => Some(Step { name, indices }),
            None => None,
        }
    }
}

/// What stands before the first point of `key` that is outside any bracket;
/// all of `key` where there is no such point.
pub open spec fn first_key(key: Seq<char>) -> Seq<char> {
    match first_cut(key, '.', false) {
        Some(i) => key.take(i),
        None => key,
    }
}

/// What stands after the first point of `key` that is outside any bracket;
/// nothing where there is no such point.
pub open spec fn after_first_key(key: Seq<char>) -> Seq<char> {
    match first_cut(key, '.', false) {
        Some(i) => key.skip(i + 1),
        None => Seq::empty(),
    }
}

/// `acc` and after it the segments of `key`. A point at the very end of the
/// path begins no segment.
pub open spec fn path_steps(key: Seq<char>, acc: Seq<Step>) -> Option<Seq<Step>>
    decreases key.len(),
{
    match segment_of(first_key(key)) {
        None => None,
        Some(step) => if after_first_key(key).len() == 0 {
            Some(acc.push(step))
        } else {
            proof {
                lemma_first_cut(key, '.', false);
            }
            path_steps(after_first_key(key), acc.push(step))
        },
    }
}

/// The path that `key` denotes.
pub open spec fn path_of(key: Seq<char>) -> Option<Seq<Step>> {
    path_steps(key, Seq::empty())
}

/// `r` is the value with the model `model`, or `MalformedPath` where there
/// is none.
pub open spec fn reads<T: View>(r: Result<T, Error>, model: Option<T::V>) -> bool {
    match model {
        Some(m) => r is Ok && r->Ok_0@ == m,
        None => r is Err && r->Err_0 == Error::MalformedPath,
    }
}

fn bounded_number(t: &[char]) -> (r: Option<usize>)
    ensures
        match r {
            Some(n) => decimal_within(t@, usize::MAX as nat) == Some(n as nat),
            None => decimal_within(t@, usize::MAX as nat) is None,
        },
{
    match parse_decimal(t, usize::MAX as u64) {
        Some(v) => Some(v as usize),
        None => None,
    }
}

fn parse_index_list(t: &[char]) -> (r: Option<Vec<usize>>)
    ensures
        match r {
            Some(list) => index_list(t@, Seq::empty()) == Some(
                list@.map_values(|i: usize| i as nat),
            ),
            None => index_list(t@, Seq::empty()) is None,
        },
{
    let mut list: Vec<usize> = Vec::new();
    let mut rest = t;
    assert(list@.map_values(|i: usize| i as nat) =~= Seq::empty());
    loop
        invariant
            index_list(t@, Seq::empty()) == index_list(
                rest@,
                list@.map_values(|i: usize| i as nat),
            ),
        decreases rest@.len(),
    {
        let comma = find_char(rest, ',');
        let head = match comma {
            Some(i) => slice_subrange(rest, 0, i),
            None => rest,
        };
        proof {
            rest@.index_of_first_ensures(',');
        }
        match bounded_number(trim(head)) {
            None => {
                return None;
            },
            Some(n) => {
                assert(list@.push(n).map_values(|i: usize| i as nat) =~= list@.map_values(
                    |i: usize| i as nat,
                ).push(n as nat));
                list.push(n);
            },
        }
        match comma {
            Some(i) => {
                let m = rest.len();
                rest = slice_subrange(rest, i + 1, m);
            },
            None => {
                return Some(list);
            },
        }
    }
}

/// Reads the text between two brackets.
fn classify(t: &[char]) -> (r: Option<IndexSpec>)
    ensures
        match r {
            Some(ix) => index_of_text(t@) == Some(ix@),
            None => index_of_text(t@) is None,
        },
{
    let n = t.len();
    assert(t@.skip(0) =~= t@);
    if n == 0 {
        Some(IndexSpec::Append)
    } else if all_digits_from(t, 0) {
        match bounded_number(t) {
            Some(i) => Some(IndexSpec::Explicit(i)),
            None => None,
        }
    } else if t[0] == ':' {
        match bounded_number(slice_subrange(t, 1, n)) {
            Some(i) => Some(IndexSpec::SliceKeepFromEnd(i)),
            None => None,
        }
    } else if t[n - 1] == ':' {
        match bounded_number(slice_subrange(t, 0, n - 1)) {
            Some(i) => Some(IndexSpec::SliceFromIndex(i)),
            None => None,
        }
    } else {
        proof {
            t@.index_of_first_ensures(',');
        }
        if find_char(t, ',').is_some() {
            match parse_index_list(t) {
                Some(list) => Some(IndexSpec::MultiIndex(list)),
                None => None,
            }
        } else {
            None
        }
    }
}

/// Reads a chain of indices: groups in brackets, one after the other, with
/// nothing before, between or after them.
pub fn parse_indices(s: &str) -> (r: Result<Vec<IndexSpec>, Error>)
    ensures
        match index_chain(s@, Seq::empty()) {
            Some(m) => r is Ok && view_indices(r->Ok_0@) == m,
            None => r is Err && r->Err_0 == Error::MalformedPath,
        },
{
    let chars = chars_of(s);
    let mut indices: Vec<IndexSpec> = Vec::new();
    let mut rest = chars.as_slice();
    assert(view_indices(indices@) =~= Seq::empty());
    loop
        invariant
            index_chain(s@, Seq::empty()) == index_chain(rest@, view_indices(indices@)),
        decreases rest@.len(),
    {
        let m = rest.len();
        if m == 0 {
            return Ok(indices);
        }
        if rest[0] != '[' {
            return Err(Error::MalformedPath);
        }
        proof {
            rest@.index_of_first_ensures(']');
        }
        match find_char(rest, ']') {
            None => {
                return Err(Error::MalformedPath);
            },
            Some(close) => {
                let text = slice_subrange(rest, 1, close);
                proof {
                    text@.index_of_first_ensures('[');
                }
                if find_char(text, '[').is_some() {
                    return Err(Error::MalformedPath);
                }
                match classify(text) {
                    None => {
                        return Err(Error::MalformedPath);
                    },
                    Some(ix) => {
                        assert(view_indices(indices@.push(ix)) =~= view_indices(indices@).push(
                            ix@,
                        ));
                        indices.push(ix);
                    },
                }
                rest = slice_subrange(rest, close + 1, m);
            },
        }
    }
}

/// Reads one segment of a path: a name without brackets, and then a chain
/// of indices or nothing.
pub fn parse_key_part(part: &str) -> (r: Result<Segment, Error>)
    ensures
        reads(r, segment_of(part@)),
{
    let chars = chars_of(part);
    let n = chars.len();
    let bracket = find_char(chars.as_slice(), '[');
    let name = match bracket {
        Some(b) => slice_subrange(chars.as_slice(), 0, b),
        None => chars.as_slice(),
    };
    proof {
        name@.index_of_first_ensures(']');
    }
    if find_char(name, ']').is_some() {
        return Err(Error::MalformedPath);
    }
    let indices = match bracket {
        Some(b) => match parse_indices(part.substring_char(b, n)) {
            Ok(indices) => indices,
            Err(e) => {
                return Err(e);
            },
        },
        None => Vec::new(),
    };
    assert(bracket is None ==> view_indices(indices@) =~= Seq::empty());
    Ok(Segment { name: text_of(name), indices })
}

/// Parts `key` at its first point that stands outside any bracket: what is
/// before the point, and what is after it. Without such a point the first
/// part is all of `key` and the second is empty.
pub fn split_first_key(key: &str) -> (r: (&str, &str))
    ensures
        r.0@ == first_key(key@),
        r.1@ == after_first_key(key@),
{
    let chars = chars_of(key);
    let n = chars.len();
    match find_cut(chars.as_slice(), '.', false) {
        Some(i) => (key.substring_char(0, i), key.substring_char(i + 1, n)),
        None => (key, key.substring_char(n, n)),
    }
}

/// Reads the path `key`, segment by segment.
pub fn parse_path(key: &str) -> (r: Result<Vec<Segment>, Error>)
    ensures
        match path_of(key@) {
            Some(m) => r is Ok && view_path(r->Ok_0@) == m,
            None => r is Err && r->Err_0 == Error::MalformedPath,
        },
{
    let mut segments: Vec<Segment> = Vec::new();
    let mut rest = key;
    assert(view_path(segments@) =~= Seq::empty());
    loop
        invariant
            path_of(key@) == path_steps(rest@, view_path(segments@)),
        decreases rest@.len(),
    {
        let (head, tail) = split_first_key(rest);
        proof {
            lemma_first_cut(rest@, '.', false);
        }
        match parse_key_part(head) {
            Err(e) => {
                return Err(e);
            },
            Ok(segment) => {
                assert(view_path(segments@.push(segment)) =~= view_path(segments@).push(
                    segment@,
                ));
                segments.push(segment);
            },
        }
        if tail.is_empty() {
            return Ok(segments);
        }
        rest = tail;
    }
}

} // verus!
