//! Nesting of brackets, and the places where a text is cut at its top level.
use vstd::prelude::*;

verus! {

/// `c` opens a bracket: `[`, and `{` where braces count.
pub open spec fn is_opener(c: char, braces: bool) -> bool {
    c == '[' || (braces && c == '{')
}

/// `c` closes a bracket: `]`, and `}` where braces count.
pub open spec fn is_closer(c: char, braces: bool) -> bool {
    c == ']' || (braces && c == '}')
}

/// The number of brackets that `s` opens, less the number that it closes.
pub open spec fn depth(s: Seq<char>, braces: bool) -> int
    decreases s.len(),
{
    if s.len() == 0 {
        0
    } else if is_opener(s.last(), braces) {
        depth(s.drop_last(), braces) + 1
    } else if is_closer(s.last(), braces) {
        depth(s.drop_last(), braces) - 1
    } else {
        depth(s.drop_last(), braces)
    }
}

/// `s` closes every bracket that it opens, and none that it has not opened.
pub open spec fn balanced(s: Seq<char>, braces: bool) -> bool {
    &&& depth(s, braces) == 0
    &&& forall|i: int| 0 <= i <= s.len() ==> depth(#[trigger] s.take(i), braces) >= 0
}

/// At `i` the text `s` holds the separator `sep`, outside any bracket.
pub open spec fn is_cut(s: Seq<char>, sep: char, braces: bool, i: int) -> bool {
    &&& 0 <= i < s.len()
    &&& s[i] == sep
    &&& depth(s.take(i), braces) == 0
}

/// The first place at which `s` holds the separator outside any bracket.
pub open spec fn first_cut(s: Seq<char>, sep: char, braces: bool) -> Option<int>
    decreases s.len(),
{
    if s.len() == 0 {
        None
    } else {
        match first_cut(s.drop_last(), sep, braces) {
            Some(i) => Some(i),
            None => if is_cut(s, sep, braces, s.len() - 1) {
                Some(s.len() - 1)
            } else {
                None
            },
        }
    }
}

/// `first_cut` finds the least cut, and nothing where there is no cut.
pub proof fn lemma_first_cut(s: Seq<char>, sep: char, braces: bool)
    ensures
        match first_cut(s, sep, braces) {
            Some(i) => {
                &&& is_cut(s, sep, braces, i)
                &&& forall|j: int| 0 <= j < i ==> !is_cut(s, sep, braces, j)
            },
            None => forall|j: int| 0 <= j < s.len() ==> !is_cut(s, sep, braces, j),
        },
    decreases s.len(),
{
    if s.len() > 0 {
        let front = s.drop_last();
        lemma_first_cut(front, sep, braces);
        assert forall|j: int| 0 <= j < front.len() implies is_cut(front, sep, braces, j) == is_cut(
            s,
            sep,
            braces,
            j,
        ) by {
            assert(front.take(j) =~= s.take(j));
        }
    }
}

/// The place of the first `sep` in `s` that stands outside any bracket.
pub fn find_cut(s: &[char], sep: char, braces: bool) -> (r: Option<usize>)
    ensures
        match r {
            Some(i) => i < s@.len() && first_cut(s@, sep, braces) == Some(i as int),
            None => first_cut(s@, sep, braces) is None,
        },
{
    let n = s.len();
    let mut opened: usize = 0;
    let mut closed: usize = 0;
    let mut i: usize = 0;
    assert(s@.take(0) =~= Seq::<char>::empty());
    while i < n
        invariant
            i <= n == s@.len(),
            opened <= i,
            closed <= i,
            opened - closed == depth(s@.take(i as int), braces),
            first_cut(s@.take(i as int), sep, braces) is None,
        decreases n - i,
    {
        let c = s[i];
        assert(s@.take(i + 1).drop_last() =~= s@.take(i as int));
        assert(s@.take(i + 1).take(i as int) =~= s@.take(i as int));
        if c == sep && opened == closed {
            proof {
                assert(is_cut(s@.take(i + 1), sep, braces, i as int));
                lemma_first_cut(s@.take(i as int), sep, braces);
                lemma_first_cut(s@, sep, braces);
                assert(is_cut(s@, sep, braces, i as int));
                assert forall|j: int| 0 <= j < i implies !is_cut(s@, sep, braces, j) by {
                    assert(s@.take(i as int).take(j) =~= s@.take(j));
                    assert(!is_cut(s@.take(i as int), sep, braces, j));
                }
            }
            return Some(i);
        }
        if c == '[' || (braces && c == '{') {
            opened += 1;
        } else if c == ']' || (braces && c == '}') {
            closed += 1;
        }
        i += 1;
    }
    assert(s@.take(n as int) =~= s@);
    None
}

/// Whether `s` closes every bracket that it opens, and no other.
pub fn is_balanced(s: &[char], braces: bool) -> (r: bool)
    ensures
        r == balanced(s@, braces),
{
    let n = s.len();
    let mut open: usize = 0;
    let mut i: usize = 0;
    assert(s@.take(0) =~= Seq::<char>::empty());
    while i < n
        invariant
            i <= n == s@.len(),
            open <= i,
            open == depth(s@.take(i as int), braces),
            forall|k: int| 0 <= k <= i ==> depth(#[trigger] s@.take(k), braces) >= 0,
        decreases n - i,
    {
        let c = s[i];
        assert(s@.take(i + 1).drop_last() =~= s@.take(i as int));
        if c == '[' || (braces && c == '{') {
            open += 1;
        } else if c == ']' || (braces && c == '}') {
            if open == 0 {
                assert(depth(s@.take(i + 1), braces) < 0);
                return false;
            }
            open -= 1;
        }
        i += 1;
    }
    assert(s@.take(n as int) =~= s@);
    open == 0
}

} // verus!
