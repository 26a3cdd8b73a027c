//! Numbers as text: decimal digits, integer literals, and the literals that
//! denote a floating-point number.
use vstd::prelude::*;
use vstd::slice::slice_subrange;

verus! {

/// A decimal digit.
pub open spec fn is_digit(c: char) -> bool {
    0x30 <= c as u32 <= 0x39
}

/// The number that the digit `c` stands for.
pub open spec fn digit_value(c: char) -> nat {
    (c as u32 - 0x30) as nat
}

/// Every character of `s` is a decimal digit.
pub open spec fn all_digits(s: Seq<char>) -> bool {
    forall|i: int| 0 <= i < s.len() ==> is_digit(#[trigger] s[i])
}

/// The number that the digits `s` denote in base ten.
pub open spec fn decimal_value(s: Seq<char>) -> nat
    decreases s.len(),
{
    if s.len() == 0 {
        0
    } else {
        decimal_value(s.drop_last()) * 10 + digit_value(s.last())
    }
}

/// The number that `s` denotes, where `s` is one or more digits and the
/// number is at most `limit`.
pub open spec fn decimal_within(s: Seq<char>, limit: nat) -> Option<nat> {
    if s.len() > 0 && all_digits(s) && decimal_value(s) <= limit {
        Some(decimal_value(s))
    } else {
        None
    }
}

/// A run of digits denotes at least what any of its prefixes denotes.
pub proof fn lemma_decimal_value_prefix(s: Seq<char>, k: int)
    requires
        0 <= k <= s.len(),
    ensures
        decimal_value(s.take(k)) <= decimal_value(s),
    decreases s.len(),
{
    if k == s.len() {
        assert(s.take(k) =~= s);
    } else {
        assert(s.drop_last().take(k) =~= s.take(k));
        lemma_decimal_value_prefix(s.drop_last(), k);
    }
}

/// Whether `c` is a decimal digit.
pub fn digit(c: char) -> (r: bool)
    ensures
        r == is_digit(c),
{
    let u: u32 = c as u32;
    0x30 <= u && u <= 0x39
}

/// Reads `s` as a number in base ten that is at most `limit`.
pub fn parse_decimal(s: &[char], limit: u64) -> (r: Option<u64>)
    ensures
        match decimal_within(s@, limit as nat) {
            Some(v) => r == Some(v as u64),
            None => r is None,
        },
{
    let n = s.len();
    if n == 0 {
        return None;
    }
    let mut acc: u64 = 0;
    let mut i: usize = 0;
    while i < n
        invariant
            i <= n == s@.len(),
            all_digits(s@.take(i as int)),
            acc == decimal_value(s@.take(i as int)),
            acc <= limit,
        decreases n - i,
    {
        let c = s[i];
        if !digit(c) {
            return None;
        }
        let d: u64 = (c as u32 - 0x30) as u64;
        assert(s@.take(i + 1).drop_last() =~= s@.take(i as int));
        assert(decimal_value(s@.take(i + 1)) == acc * 10 + d);
        if d > limit || acc > (limit - d) / 10 {
            proof {
                lemma_decimal_value_prefix(s@, i + 1);
            }
            return None;
        }
        acc = acc * 10 + d;
        i += 1;
    }
    assert(s@.take(n as int) =~= s@);
    Some(acc)
}

/// `t` without its sign, where it begins with `+` or `-`.
pub open spec fn unsigned(t: Seq<char>) -> Seq<char> {
    if t.len() > 0 && (t[0] == '+' || t[0] == '-') {
        t.skip(1)
    } else {
        t
    }
}

/// The integer that `t` denotes: an optional sign and one or more digits,
/// within the range of 64 bits with a sign.
pub open spec fn integer_literal(t: Seq<char>) -> Option<int> {
    let digits = unsigned(t);
    let value = if t.len() > 0 && t[0] == '-' {
        -(decimal_value(digits) as int)
    } else {
        decimal_value(digits) as int
    };
    if digits.len() > 0 && all_digits(digits) && i64::MIN <= value <= i64::MAX {
        Some(value)
    } else {
        None
    }
}

/// Reads `s` as an integer of 64 bits with a sign.
pub fn parse_integer(s: &[char]) -> (r: Option<i64>)
    ensures
        match integer_literal(s@) {
            Some(v) => r == Some(v as i64),
            None => r is None,
        },
{
    let n = s.len();
    if n == 0 {
        return None;
    }
    let negative = s[0] == '-';
    let digits = if negative || s[0] == '+' {
        slice_subrange(s, 1, n)
    } else {
        s
    };
    assert(digits@ =~= unsigned(s@));
    let limit: u64 = if negative {
        0x8000_0000_0000_0000
    } else {
        0x7fff_ffff_ffff_ffff
    };
    match parse_decimal(digits, limit) {
        None => None,
        Some(m) => {
            if !negative {
                Some(m as i64)
            } else if m == 0x8000_0000_0000_0000 {
                Some(i64::MIN)
            } else {
                Some(-(m as i64))
            }
        },
    }
}

/// The character that stands for the digit `d`.
pub open spec fn digit_char(d: nat) -> char {
    if d == 0 {
        '0'
    } else if d == 1 {
        '1'
    } else if d == 2 {
        '2'
    } else if d == 3 {
        '3'
    } else if d == 4 {
        '4'
    } else if d == 5 {
        '5'
    } else if d == 6 {
        '6'
    } else if d == 7 {
        '7'
    } else if d == 8 {
        '8'
    } else {
        '9'
    }
}

/// The digits of `n` in base ten, without leading zeros.
pub open spec fn decimal_text(n: nat) -> Seq<char>
    decreases n,
{
    if n < 10 {
        seq![digit_char(n)]
    } else {
        decimal_text(n / 10).push(digit_char(n % 10))
    }
}

/// The integer `i` in base ten, with `-` in front where it is negative.
pub open spec fn integer_text(i: int) -> Seq<char> {
    if i < 0 {
        seq!['-'] + decimal_text((-i) as nat)
    } else {
        decimal_text(i as nat)
    }
}

fn digit_of(d: u64) -> (c: char)
    requires
        d < 10,
    ensures
        c == digit_char(d as nat),
{
    if d == 0 {
        '0'
    } else if d == 1 {
        '1'
    } else if d == 2 {
        '2'
    } else if d == 3 {
        '3'
    } else if d == 4 {
        '4'
    } else if d == 5 {
        '5'
    } else if d == 6 {
        '6'
    } else if d == 7 {
        '7'
    } else if d == 8 {
        '8'
    } else {
        '9'
    }
}

fn push_decimal(out: &mut String, n: u64)
    ensures
        final(out)@ == old(out)@ + decimal_text(n as nat),
    decreases n,
{
    if n >= 10 {
        push_decimal(out, n / 10);
    }
    out.push(digit_of(n % 10));
    assert(out@ =~= old(out)@ + decimal_text(n as nat));
}

/// Writes `i` in base ten.
pub fn format_integer(i: i64) -> (r: String)
    ensures
        r@ == integer_text(i as int),
{
    let mut out = String::new();
    if i < 0 {
        out.push('-');
        let magnitude: u64 = if i == i64::MIN {
            0x8000_0000_0000_0000
        } else {
            (-i) as u64
        };
        push_decimal(&mut out, magnitude);
        assert(out@ =~= seq!['-'] + decimal_text((-i) as nat));
    } else {
        push_decimal(&mut out, i as u64);
        assert(out@ =~= decimal_text(i as nat));
    }
    out
}

/// The number of digits that `s` begins with.
pub open spec fn leading_digits(s: Seq<char>) -> nat
    decreases s.len(),
{
    if s.len() > 0 && is_digit(s[0]) {
        1 + leading_digits(s.skip(1))
    } else {
        0
    }
}

/// An exponent: `e` or `E`, an optional sign, and one or more digits.
pub open spec fn is_exponent(e: Seq<char>) -> bool {
    &&& e.len() > 0
    &&& e[0] == 'e' || e[0] == 'E'
    &&& unsigned(e.skip(1)).len() > 0
    &&& all_digits(unsigned(e.skip(1)))
}

/// A number in decimal notation: digits with at most one point among them,
/// at least one digit in all, and then an exponent or nothing.
pub open spec fn is_decimal_number(b: Seq<char>) -> bool {
    let whole = leading_digits(b);
    let after_whole = b.skip(whole as int);
    let pointed = after_whole.len() > 0 && after_whole[0] == '.';
    let fraction = if pointed {
        leading_digits(after_whole.skip(1))
    } else {
        0
    };
    let rest = if pointed {
        after_whole.skip(1 + fraction as int)
    } else {
        after_whole
    };
    &&& whole + fraction > 0
    &&& rest.len() == 0 || is_exponent(rest)
}

/// `c` in lower case, where it is one of the capital letters A, F, I, N, T
/// and Y, the letters of the words below; any other character unchanged.
pub open spec fn lower(c: char) -> char {
    if c == 'I' {
        'i'
    } else if c == 'N' {
        'n'
    } else if c == 'F' {
        'f'
    } else if c == 'T' {
        't'
    } else if c == 'Y' {
        'y'
    } else if c == 'A' {
        'a'
    } else {
        c
    }
}

/// `a` spells the lower-case word `word`, in letters of either case.
pub open spec fn spells(a: Seq<char>, word: Seq<char>) -> bool {
    &&& a.len() == word.len()
    &&& forall|i: int| 0 <= i < a.len() ==> lower(#[trigger] a[i]) == word[i]
}

/// A literal that denotes a floating-point number: an optional sign, and
/// then `inf`, `infinity` or `nan` in letters of either case, or a number in
/// decimal notation.
pub open spec fn is_float_literal(t: Seq<char>) -> bool {
    let body = unsigned(t);
    ||| spells(body, seq!['i', 'n', 'f'])
    ||| spells(body, seq!['i', 'n', 'f', 'i', 'n', 'i', 't', 'y'])
    ||| spells(body, seq!['n', 'a', 'n'])
    ||| is_decimal_number(body)
}

fn to_lower(c: char) -> (r: char)
    ensures
        r == lower(c),
{
    if c == 'I' {
        'i'
    } else if c == 'N' {
        'n'
    } else if c == 'F' {
        'f'
    } else if c == 'T' {
        't'
    } else if c == 'Y' {
        'y'
    } else if c == 'A' {
        'a'
    } else {
        c
    }
}

fn count_digits(s: &[char], from: usize) -> (r: usize)
    requires
        from <= s@.len(),
    ensures
        r == leading_digits(s@.skip(from as int)),
        from + r <= s@.len(),
{
    let n = s.len();
    let mut i: usize = from;
    while i < n && digit(s[i])
        invariant
            from <= i <= n == s@.len(),
            leading_digits(s@.skip(from as int)) == (i - from) + leading_digits(s@.skip(i as int)),
        decreases n - i,
    {
        assert(s@.skip(i as int).skip(1) =~= s@.skip(i + 1));
        i += 1;
    }
    i - from
}

fn spells_special(s: &[char]) -> (r: bool)
    ensures
        r == (spells(s@, seq!['i', 'n', 'f']) || spells(
            s@,
            seq!['i', 'n', 'f', 'i', 'n', 'i', 't', 'y'],
        ) || spells(s@, seq!['n', 'a', 'n'])),
{
    let n = s.len();
    if n == 3 {
        let a = to_lower(s[0]);
        let b = to_lower(s[1]);
        let c = to_lower(s[2]);
        (a == 'i' && b == 'n' && c == 'f') || (a == 'n' && b == 'a' && c == 'n')
    } else if n == 8 {
        to_lower(s[0]) == 'i' && to_lower(s[1]) == 'n' && to_lower(s[2]) == 'f' && to_lower(s[3])
            == 'i' && to_lower(s[4]) == 'n' && to_lower(s[5]) == 'i' && to_lower(s[6]) == 't'
            && to_lower(s[7]) == 'y'
    } else {
        false
    }
}

/// Whether `s` holds only digits from `from` on.
pub fn all_digits_from(s: &[char], from: usize) -> (r: bool)
    requires
        from <= s@.len(),
    ensures
        r == all_digits(s@.skip(from as int)),
{
    let n = s.len();
    let mut i: usize = from;
    while i < n
        invariant
            from <= i <= n == s@.len(),
            forall|j: int| from <= j < i ==> is_digit(#[trigger] s@[j]),
        decreases n - i,
    {
        if !digit(s[i]) {
            assert(!is_digit(s@.skip(from as int)[i - from]));
            return false;
        }
        i += 1;
    }
    assert forall|j: int| 0 <= j < s@.skip(from as int).len() implies is_digit(
        #[trigger] s@.skip(from as int)[j],
    ) by {
        assert(is_digit(s@[from + j]));
    }
    true
}

fn exponent(s: &[char], from: usize) -> (r: bool)
    requires
        from <= s@.len(),
    ensures
        r == is_exponent(s@.skip(from as int)),
{
    let n = s.len();
    if from >= n || (s[from] != 'e' && s[from] != 'E') {
        return false;
    }
    let signed = from + 1 < n && (s[from + 1] == '+' || s[from + 1] == '-');
    let start = if signed {
        from + 2
    } else {
        from + 1
    };
    assert(s@.skip(from as int).skip(1) =~= s@.skip(from + 1));
    assert(unsigned(s@.skip(from + 1)) =~= s@.skip(start as int));
    start < n && all_digits_from(s, start)
}

/// Whether `s` denotes a floating-point number.
pub fn float_literal(s: &[char]) -> (r: bool)
    ensures
        r == is_float_literal(s@),
{
    let n = s.len();
    let start: usize = if n > 0 && (s[0] == '+' || s[0] == '-') {
        1
    } else {
        0
    };
    let body = slice_subrange(s, start, n);
    assert(body@ =~= unsigned(s@));
    if spells_special(body) {
        return true;
    }
    let m = body.len();
    let whole = count_digits(body, 0);
    assert(body@.skip(0) =~= body@);
    let pointed = whole < m && body[whole] == '.';
    let fraction = if pointed {
        count_digits(body, whole + 1)
    } else {
        0
    };
    let rest = if pointed {
        whole + 1 + fraction
    } else {
        whole
    };
    proof {
        let after_whole = body@.skip(whole as int);
        if pointed {
            assert(after_whole.skip(1) =~= body@.skip(whole + 1));
            assert(after_whole.skip(1 + fraction as int) =~= body@.skip(whole + 1 + fraction));
        }
    }
    if whole == 0 && fraction == 0 {
        return false;
    }
    rest == m || exponent(body, rest)
}

} // verus!
