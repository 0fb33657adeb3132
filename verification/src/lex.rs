//! Lexical ground layer shared by both report parsers: byte classes,
//! scanners over byte strings, unsigned-integer runs, fixed tags, and
//! decimal rendering of numbers.

use vstd::prelude::*;

verus! {

/// Space or tab: the whitespace that may separate tokens within one line.
pub open spec fn is_space(b: u8) -> bool {
    b == 32 || b == 9
}

/// Any whitespace byte; such a byte ends a connector token.
pub open spec fn is_token_break(b: u8) -> bool {
    b == 32 || b == 9 || b == 10 || b == 13
}

/// A decimal digit.
pub open spec fn is_digit(b: u8) -> bool {
    48 <= b && b <= 57
}

/// First index at or after `i` that does not hold a space or tab.
pub open spec fn space_end(s: Seq<u8>, i: int) -> int
    decreases s.len() - i when 0 <= i <= s.len()
{
    if i >= s.len() || !is_space(s[i]) {
        i
    } else {
        space_end(s, i + 1)
    }
}

/// First index at or after `i` that holds whitespace, i.e. the end of the
/// token that starts at `i`.
pub open spec fn token_end(s: Seq<u8>, i: int) -> int
    decreases s.len() - i when 0 <= i <= s.len()
{
    if i >= s.len() || is_token_break(s[i]) {
        i
    } else {
        token_end(s, i + 1)
    }
}

/// First index at or after `i` that holds a line-ending byte (LF or CR).
pub open spec fn eol_at(s: Seq<u8>, i: int) -> int
    decreases s.len() - i when 0 <= i <= s.len()
{
    if i >= s.len() || s[i] == 10 || s[i] == 13 {
        i
    } else {
        eol_at(s, i + 1)
    }
}

/// First index at or after `i` that does not hold a decimal digit.
pub open spec fn digits_end(s: Seq<u8>, i: int) -> int
    decreases s.len() - i when 0 <= i <= s.len()
{
    if i >= s.len() || !is_digit(s[i]) {
        i
    } else {
        digits_end(s, i + 1)
    }
}

pub proof fn lemma_space_end(s: Seq<u8>, i: int)
    requires
        0 <= i <= s.len(),
    ensures
        i <= space_end(s, i) <= s.len(),
        forall|j: int| i <= j < space_end(s, i) ==> is_space(s[j]),
        space_end(s, i) < s.len() ==> !is_space(s[space_end(s, i)]),
    decreases s.len() - i,
{
    if i < s.len() && is_space(s[i]) {
        lemma_space_end(s, i + 1);
    }
}

pub proof fn lemma_token_end(s: Seq<u8>, i: int)
    requires
        0 <= i <= s.len(),
    ensures
        i <= token_end(s, i) <= s.len(),
        forall|j: int| i <= j < token_end(s, i) ==> !is_token_break(s[j]),
        token_end(s, i) < s.len() ==> is_token_break(s[token_end(s, i)]),
    decreases s.len() - i,
{
    if i < s.len() && !is_token_break(s[i]) {
        lemma_token_end(s, i + 1);
    }
}

pub proof fn lemma_eol_at(s: Seq<u8>, i: int)
    requires
        0 <= i <= s.len(),
    ensures
        i <= eol_at(s, i) <= s.len(),
        forall|j: int| i <= j < eol_at(s, i) ==> s[j] != 10 && s[j] != 13,
        eol_at(s, i) < s.len() ==> s[eol_at(s, i)] == 10 || s[eol_at(s, i)] == 13,
    decreases s.len() - i,
{
    if i < s.len() && s[i] != 10 && s[i] != 13 {
        lemma_eol_at(s, i + 1);
    }
}

pub proof fn lemma_digits_end(s: Seq<u8>, i: int)
    requires
        0 <= i <= s.len(),
    ensures
        i <= digits_end(s, i) <= s.len(),
        forall|j: int| i <= j < digits_end(s, i) ==> is_digit(s[j]),
        digits_end(s, i) < s.len() ==> !is_digit(s[digits_end(s, i)]),
    decreases s.len() - i,
{
    if i < s.len() && is_digit(s[i]) {
        lemma_digits_end(s, i + 1);
    }
}

/// Skip spaces and tabs; the index of the first byte that is neither.
pub fn skip_spaces(s: &[u8], from: usize) -> (r: usize)
    requires
        from <= s@.len(),
    ensures
        r == space_end(s@, from as int),
{
    let mut i = from;
    loop
        invariant
            from <= i <= s@.len(),
            space_end(s@, from as int) == space_end(s@, i as int),
        decreases s@.len() - i,
    {
        if i < s.len() && (s[i] == 32 || s[i] == 9) {
            i = i + 1;
        } else {
            return i;
        }
    }
}

/// Skip to the end of the current line: the index of the first line-ending
/// byte at or after `from`, or the input's end.
pub fn skip_to_eol(s: &[u8], from: usize) -> (r: usize)
    requires
        from <= s@.len(),
    ensures
        r == eol_at(s@, from as int),
{
    let mut i = from;
    loop
        invariant
            from <= i <= s@.len(),
            eol_at(s@, from as int) == eol_at(s@, i as int),
        decreases s@.len() - i,
    {
        if i < s.len() && s[i] != 10 && s[i] != 13 {
            i = i + 1;
        } else {
            return i;
        }
    }
}

/// Value of the digit run `s[from..to]`, most significant digit first.
pub open spec fn digits_value(s: Seq<u8>, from: int, to: int) -> int
    decreases to - from when from <= to
{
    if from >= to {
        0
    } else {
        digits_value(s, from, to - 1) * 10 + (s[to - 1] - 48)
    }
}

pub proof fn lemma_digits_value_nonneg(s: Seq<u8>, from: int, to: int)
    requires
        from <= to,
        forall|j: int| from <= j < to ==> is_digit(s[j]),
    ensures
        digits_value(s, from, to) >= 0,
    decreases to - from,
{
    if from < to {
        lemma_digits_value_nonneg(s, from, to - 1);
    }
}

/// A longer digit run never has a smaller value.
pub proof fn lemma_digits_value_mono(s: Seq<u8>, from: int, mid: int, to: int)
    requires
        from <= mid <= to,
        forall|j: int| from <= j < to ==> is_digit(s[j]),
    ensures
        digits_value(s, from, to) >= digits_value(s, from, mid),
    decreases to - mid,
{
    if mid < to {
        lemma_digits_value_mono(s, from, mid, to - 1);
        lemma_digits_value_nonneg(s, from, to - 1);
    }
}

/// The value depends only on the bytes of the run itself.
pub proof fn lemma_digits_value_same(s1: Seq<u8>, s2: Seq<u8>, from: int, to: int)
    requires
        0 <= from <= to,
        to <= s1.len(),
        to <= s2.len(),
        forall|j: int| from <= j < to ==> s1[j] == s2[j],
    ensures
        digits_value(s1, from, to) == digits_value(s2, from, to),
    decreases to - from,
{
    if from < to {
        lemma_digits_value_same(s1, s2, from, to - 1);
    }
}


/// Ten to the `n`.
pub open spec fn pow10(n: int) -> int
    decreases n when n >= 0
{
    if n <= 0 {
        1
    } else {
        10 * pow10(n - 1)
    }
}

/// A run of `to - from` digits reads as a value below ten to that count.
pub proof fn lemma_digits_value_bound(s: Seq<u8>, from: int, to: int)
    requires
        from <= to,
        forall|j: int| from <= j < to ==> is_digit(s[j]),
    ensures
        0 <= digits_value(s, from, to) < pow10(to - from),
    decreases to - from,
{
    if from < to {
        lemma_digits_value_bound(s, from, to - 1);
    }
}

/// Parse a run of decimal digits as a `u32`: at least one digit, and the
/// run's value must fit; the pair is the value and the index after the run.
pub open spec fn spec_parse_u32(s: Seq<u8>, i: int) -> Option<(u32, int)> {
    if 0 <= i < s.len() && is_digit(s[i]) {
        let e = digits_end(s, i);
        let v = digits_value(s, i, e);
        if v <= u32::MAX {
            Some((v as u32, e))
        } else {
            None
        }
    } else {
        None
    }
}

pub proof fn lemma_parse_u32_some(s: Seq<u8>, i: int)
    requires
        0 <= i <= s.len(),
        spec_parse_u32(s, i) is Some,
    ensures
        i < spec_parse_u32(s, i)->Some_0.1 <= s.len(),
{
    lemma_digits_end(s, i);
}

pub fn parse_u32(s: &[u8], from: usize) -> (r: Option<(u32, usize)>)
    requires
        from <= s@.len(),
    ensures
        match spec_parse_u32(s@, from as int) {
            Some(p) => r == Some((p.0, p.1 as usize)),
            None => r is None,
        },
{
    if !(from < s.len() && 48 <= s[from] && s[from] <= 57) {
        return None;
    }
    proof {
        lemma_digits_end(s@, from as int);
    }
    let ghost e = digits_end(s@, from as int);
    let mut i = from;
    let mut acc: u64 = 0;
    loop
        invariant
            from < s@.len(),
            is_digit(s@[from as int]),
            from <= i <= s@.len(),
            i <= e <= s@.len(),
            e == digits_end(s@, from as int),
            e == digits_end(s@, i as int),
            forall|j: int| from <= j < e ==> is_digit(s@[j]),
            acc == digits_value(s@, from as int, i as int),
            acc <= u32::MAX,
        decreases s@.len() - i,
    {
        if i < s.len() && 48 <= s[i] && s[i] <= 57 {
            proof {
                lemma_digits_end(s@, i + 1);
            }
            let d = (s[i] - 48) as u64;
            let next = acc * 10 + d;
            if next > 0xFFFF_FFFFu64 {
                proof {
                    lemma_digits_end(s@, i + 1);
                    lemma_digits_value_mono(s@, from as int, i + 1, e);
                }
                return None;
            }
            acc = next;
            i = i + 1;
        } else {
            assert(i == e);
            return Some((acc as u32, i));
        }
    }
}

/// Does the word "connected" stand at `i`?
pub open spec fn spec_tag_connected(s: Seq<u8>, i: int) -> bool {
    &&& 0 <= i
    &&& i + 9 <= s.len()
    &&& s[i] == 99
    &&& s[i + 1] == 111
    &&& s[i + 2] == 110
    &&& s[i + 3] == 110
    &&& s[i + 4] == 101
    &&& s[i + 5] == 99
    &&& s[i + 6] == 116
    &&& s[i + 7] == 101
    &&& s[i + 8] == 100
}

/// Does the word "disconnected" stand at `i`?
pub open spec fn spec_tag_disconnected(s: Seq<u8>, i: int) -> bool {
    &&& 0 <= i
    &&& i + 3 <= s.len()
    &&& s[i] == 100
    &&& s[i + 1] == 105
    &&& s[i + 2] == 115
    &&& spec_tag_connected(s, i + 3)
}

/// Does the word "primary" stand at `i`?
pub open spec fn spec_tag_primary(s: Seq<u8>, i: int) -> bool {
    &&& 0 <= i
    &&& i + 7 <= s.len()
    &&& s[i] == 112
    &&& s[i + 1] == 114
    &&& s[i + 2] == 105
    &&& s[i + 3] == 109
    &&& s[i + 4] == 97
    &&& s[i + 5] == 114
    &&& s[i + 6] == 121
}

pub fn tag_connected(s: &[u8], from: usize) -> (r: bool)
    requires
        from <= s@.len(),
    ensures
        r == spec_tag_connected(s@, from as int),
{
    s.len() - from >= 9 && s[from] == 99 && s[from + 1] == 111 && s[from + 2] == 110 && s[from + 3]
        == 110 && s[from + 4] == 101 && s[from + 5] == 99 && s[from + 6] == 116 && s[from + 7]
        == 101 && s[from + 8] == 100
}

pub fn tag_disconnected(s: &[u8], from: usize) -> (r: bool)
    requires
        from <= s@.len(),
    ensures
        r == spec_tag_disconnected(s@, from as int),
{
    s.len() - from >= 3 && s[from] == 100 && s[from + 1] == 105 && s[from + 2] == 115
        && tag_connected(s, from + 3)
}

pub fn tag_primary(s: &[u8], from: usize) -> (r: bool)
    requires
        from <= s@.len(),
    ensures
        r == spec_tag_primary(s@, from as int),
{
    s.len() - from >= 7 && s[from] == 112 && s[from + 1] == 114 && s[from + 2] == 105 && s[from + 3]
        == 109 && s[from + 4] == 97 && s[from + 5] == 114 && s[from + 6] == 121
}

/// Byte-for-byte equality of two byte strings.
pub fn bytes_eq(a: &Vec<u8>, b: &Vec<u8>) -> (r: bool)
    ensures
        r == (a@ == b@),
{
    if a.len() != b.len() {
        assert(a@.len() != b@.len());
        return false;
    }
    let mut k: usize = 0;
    while k < a.len()
        invariant
            k <= a.len(),
            a@.len() == b@.len(),
            forall|j: int| 0 <= j < k ==> a@[j] == b@[j],
        decreases a@.len() - k,
    {
        if a[k] != b[k] {
            assert(a@[k as int] != b@[k as int]);
            return false;
        }
        k = k + 1;
    }
    proof {
        assert(a@ =~= b@);
    }
    true
}

/// The decimal digit string of `n`, most significant digit first.
pub open spec fn dec_digits(n: int) -> Seq<u8>
    decreases n when n >= 0
{
    if n < 10 {
        seq![(48 + n) as u8]
    } else {
        dec_digits(n / 10).push((48 + n % 10) as u8)
    }
}

pub proof fn lemma_dec_digits_are_digits(n: int)
    requires
        n >= 0,
    ensures
        dec_digits(n).len() >= 1,
        forall|j: int| 0 <= j < dec_digits(n).len() ==> is_digit(dec_digits(n)[j]),
    decreases n,
{
    if n >= 10 {
        lemma_dec_digits_are_digits(n / 10);
    }
}


/// `digits_end` is the end of any digit run that a non-digit (or the
/// input's end) closes.
pub proof fn lemma_digits_end_is(s: Seq<u8>, i: int, e: int)
    requires
        0 <= i <= e <= s.len(),
        forall|j: int| i <= j < e ==> is_digit(s[j]),
        e == s.len() || !is_digit(s[e]),
    ensures
        digits_end(s, i) == e,
    decreases e - i,
{
    if i < e {
        lemma_digits_end_is(s, i + 1, e);
    }
}

/// `token_end` is the end of any run of token bytes that whitespace (or the
/// input's end) closes.
pub proof fn lemma_token_end_is(s: Seq<u8>, i: int, e: int)
    requires
        0 <= i <= e <= s.len(),
        forall|j: int| i <= j < e ==> !is_token_break(s[j]),
        e == s.len() || is_token_break(s[e]),
    ensures
        token_end(s, i) == e,
    decreases e - i,
{
    if i < e {
        lemma_token_end_is(s, i + 1, e);
    }
}

/// Reading the decimal digit string of `n` back as a number gives `n`.
pub proof fn lemma_dec_value(n: int)
    requires
        n >= 0,
    ensures
        digits_value(dec_digits(n), 0, dec_digits(n).len() as int) == n,
    decreases n,
{
    if n < 10 {
        assert(digits_value(dec_digits(n), 0, 0) == 0);
    } else {
        lemma_dec_value(n / 10);
        let t = dec_digits(n / 10);
        let s2 = dec_digits(n);
        assert(s2 == t.push((48 + n % 10) as u8));
        lemma_digits_value_same(t, s2, 0, t.len() as int);
        assert(s2[s2.len() - 1] == (48 + n % 10) as u8);
        assert(digits_value(s2, 0, s2.len() as int) == digits_value(s2, 0, s2.len() - 1) * 10 + (
        s2[s2.len() - 1] - 48));
    }
}

/// Parsing at the start of the digit string of `n` yields `n` and stops
/// right after it, whenever no digit follows.
pub proof fn lemma_parse_u32_exact(s: Seq<u8>, i: int, n: int)
    requires
        0 <= i,
        0 <= n <= u32::MAX,
        i + dec_digits(n).len() <= s.len(),
        s.subrange(i, i + dec_digits(n).len() as int) == dec_digits(n),
        i + dec_digits(n).len() == s.len() || !is_digit(s[i + dec_digits(n).len()]),
    ensures
        spec_parse_u32(s, i) == Some((n as u32, i + dec_digits(n).len() as int)),
{
    let d = dec_digits(n);
    let e = i + d.len() as int;
    lemma_dec_digits_are_digits(n);
    assert forall|j: int| i <= j < e implies is_digit(s[j]) by {
        assert(s.subrange(i, e)[j - i] == s[j]);
    }
    lemma_digits_end_is(s, i, e);
    lemma_dec_value(n);
    assert forall|j: int| 0 <= j < d.len() implies s[i + j] == d[j] by {
        assert(s.subrange(i, e)[j] == s[i + j]);
    }
    lemma_digits_value_shifted(s, d, i, d.len() as int);
    assert(s[i] == d[0]);
}

/// A digit run equals the value of the string it copies, wherever it
/// stands.
proof fn lemma_digits_value_shifted(s: Seq<u8>, d: Seq<u8>, i: int, l: int)
    requires
        0 <= i,
        0 <= l <= d.len(),
        i + d.len() <= s.len(),
        forall|j: int| 0 <= j < d.len() ==> s[i + j] == d[j],
    ensures
        digits_value(s, i, i + l) == digits_value(d, 0, l),
    decreases l,
{
    if l > 0 {
        lemma_digits_value_shifted(s, d, i, l - 1);
    }
}

/// Append the decimal digits of `n`.
pub fn push_dec_u32(out: &mut Vec<u8>, n: u32)
    ensures
        final(out)@ == old(out)@ + dec_digits(n as int),
    decreases n,
{
    if n < 10 {
        out.push(48 + (n as u8));
        assert(out@ =~= old(out)@ + dec_digits(n as int));
    } else {
        push_dec_u32(out, n / 10);
        out.push(48 + ((n % 10) as u8));
        assert(out@ =~= old(out)@ + dec_digits(n as int));
    }
}

} // verus!
