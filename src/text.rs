//! Byte-level helpers for reading whitespace-separated report lines.
use vstd::prelude::*;
use vstd::utf8::{decode_utf8, valid_utf8};

verus! {

/// Whether a byte separates fields in a report line (space, tab, carriage return).
pub open spec fn is_blank(b: u8) -> bool {
    b == 32u8 || b == 9u8 || b == 13u8
}

pub open spec fn is_digit(b: u8) -> bool {
    48u8 <= b && b <= 57u8
}

/// First index at or after `i` that does not hold a blank.
pub open spec fn skip_blanks(s: Seq<u8>, i: int) -> int
    decreases s.len() - i,
{
    if 0 <= i < s.len() && is_blank(s[i]) {
        skip_blanks(s, i + 1)
    } else {
        i
    }
}

/// First index at or after `i` that holds a blank, or the end of the line.
pub open spec fn word_end(s: Seq<u8>, i: int) -> int
    decreases s.len() - i,
{
    if 0 <= i < s.len() && !is_blank(s[i]) {
        word_end(s, i + 1)
    } else {
        i
    }
}

/// Where field `k` (counting from zero) of a line begins.
pub open spec fn field_start(s: Seq<u8>, k: nat) -> int
    decreases k, 0nat,
{
    if k == 0 {
        skip_blanks(s, 0)
    } else {
        skip_blanks(s, field_end(s, (k - 1) as nat))
    }
}

/// Where field `k` of a line ends.
pub open spec fn field_end(s: Seq<u8>, k: nat) -> int
    decreases k, 1nat,
{
    word_end(s, field_start(s, k))
}

/// Field `k` of a line: its `k`-th maximal run of non-blank bytes, empty when absent.
pub open spec fn field(s: Seq<u8>, k: nat) -> Seq<u8> {
    s.subrange(field_start(s, k), field_end(s, k))
}

pub open spec fn all_digits(s: Seq<u8>) -> bool {
    forall|i: int| 0 <= i < s.len() ==> is_digit(#[trigger] s[i])
}

/// The number that a run of decimal digits spells.
pub open spec fn decimal_value(s: Seq<u8>) -> nat
    decreases s.len(),
{
    if s.len() == 0 {
        0
    } else {
        decimal_value(s.drop_last()) * 10 + (s.last() - 48) as nat
    }
}

/// A field that reads as a `u64`: one or more digits whose value fits.
pub open spec fn decimal_u64(s: Seq<u8>) -> Option<u64> {
    if s.len() > 0 && all_digits(s) && decimal_value(s) <= u64::MAX {
        Some(decimal_value(s) as u64)
    } else {
        None
    }
}

/// The text of a field, when its bytes are valid UTF-8.
pub open spec fn text_of(s: Seq<u8>) -> Option<Seq<char>> {
    if valid_utf8(s) {
        Some(decode_utf8(s))
    } else {
        None
    }
}

/// Skipping blanks from `i` stops at `a` when `i..a` are all blanks and `s[a]` is not.
pub proof fn lemma_skip_to(s: Seq<u8>, i: int, a: int)
    requires
        0 <= i <= a < s.len(),
        forall|j: int| i <= j < a ==> is_blank(#[trigger] s[j]),
        !is_blank(s[a]),
    ensures
        skip_blanks(s, i) == a,
    decreases a - i,
{
    if i < a {
        lemma_skip_to(s, i + 1, a);
    }
}

/// A field that begins at `a` ends at `b` when `a..b` hold no blank and
/// `b` is the end of the line or a blank.
pub proof fn lemma_word_to(s: Seq<u8>, a: int, b: int)
    requires
        0 <= a <= b <= s.len(),
        forall|j: int| a <= j < b ==> !is_blank(#[trigger] s[j]),
        b == s.len() || is_blank(s[b]),
    ensures
        word_end(s, a) == b,
    decreases b - a,
{
    if a < b {
        lemma_word_to(s, a + 1, b);
    }
}

pub fn blank(b: u8) -> (r: bool)
    ensures
        r == is_blank(b),
{
    b == 32u8 || b == 9u8 || b == 13u8
}

/// Finds the next field at or after `from`: returns where it begins and ends.
pub fn next_field(s: &[u8], from: usize) -> (r: (usize, usize))
    requires
        from <= s@.len(),
    ensures
        r.0 == skip_blanks(s@, from as int),
        r.1 == word_end(s@, r.0 as int),
        from <= r.0 <= r.1 <= s@.len(),
{
    let mut i: usize = from;
    while i < s.len() && blank(s[i])
        invariant
            from <= i <= s@.len(),
            skip_blanks(s@, i as int) == skip_blanks(s@, from as int),
        decreases s@.len() - i,
    {
        i = i + 1;
    }
    let mut j: usize = i;
    while j < s.len() && !blank(s[j])
        invariant
            i <= j <= s@.len(),
            word_end(s@, j as int) == word_end(s@, i as int),
        decreases s@.len() - j,
    {
        j = j + 1;
    }
    (i, j)
}

/// Whether `s[a..b]` equals `lit`.
pub fn range_eq(s: &[u8], a: usize, b: usize, lit: &[u8]) -> (r: bool)
    requires
        a <= b <= s@.len(),
    ensures
        r == (s@.subrange(a as int, b as int) == lit@),
{
    if b - a != lit.len() {
        return false;
    }
    let mut i: usize = 0;
    while i < lit.len()
        invariant
            b - a == lit@.len(),
            a <= b <= s@.len(),
            0 <= i <= lit@.len(),
            forall|j: int| 0 <= j < i ==> s@[a + j] == lit@[j],
        decreases lit@.len() - i,
    {
        if s[a + i] != lit[i] {
            return false;
        }
        i = i + 1;
    }
    assert(s@.subrange(a as int, b as int) =~= lit@);
    true
}

/// Whether `s[a..b]` begins with `lit`.
pub fn range_starts_with(s: &[u8], a: usize, b: usize, lit: &[u8]) -> (r: bool)
    requires
        a <= b <= s@.len(),
    ensures
        r == (lit@.len() <= b - a && s@.subrange(a as int, a + lit@.len()) == lit@),
{
    if lit.len() > b - a {
        return false;
    }
    range_eq(s, a, a + lit.len(), lit)
}

proof fn lemma_decimal_prefix_le(s: Seq<u8>, i: int)
    requires
        0 <= i <= s.len(),
    ensures
        decimal_value(s.subrange(0, i)) <= decimal_value(s),
    decreases s.len() - i,
{
    if i < s.len() {
        lemma_decimal_prefix_le(s, i + 1);
        assert(s.subrange(0, i + 1).drop_last() =~= s.subrange(0, i));
    } else {
        assert(s.subrange(0, i) =~= s);
    }
}

/// Reads `s[a..b]` as a decimal `u64`.
pub fn parse_decimal(s: &[u8], a: usize, b: usize) -> (r: Option<u64>)
    requires
        a <= b <= s@.len(),
    ensures
        r == decimal_u64(s@.subrange(a as int, b as int)),
{
    let ghost f = s@.subrange(a as int, b as int);
    if a == b {
        return None;
    }
    let mut v: u64 = 0;
    let mut i: usize = a;
    while i < b
        invariant
            a <= i <= b <= s@.len(),
            f == s@.subrange(a as int, b as int),
            all_digits(f.subrange(0, i - a)),
            v as nat == decimal_value(f.subrange(0, i - a)),
        decreases b - i,
    {
        let c = s[i];
        if c < 48u8 || c > 57u8 {
            assert(f[i - a] == c);
            return None;
        }
        proof {
            assert(f.subrange(0, i - a + 1).drop_last() =~= f.subrange(0, i - a));
        }
        let d: u64 = (c - 48u8) as u64;
        if v > (u64::MAX - d) / 10 {
            proof {
                lemma_decimal_prefix_le(f, i - a + 1);
            }
            return None;
        }
        v = v * 10 + d;
        i = i + 1;
        proof {
            assert forall|j: int| 0 <= j < i - a implies is_digit(#[trigger] f.subrange(0, i - a)[j]) by {
                if j < i - a - 1 {
                    assert(f.subrange(0, i - a)[j] == f.subrange(0, i - a - 1)[j]);
                }
            }
        }
    }
    assert(f.subrange(0, b - a) =~= f);
    Some(v)
}

/// Relies on `std::str::from_utf8`: it accepts exactly the valid UTF-8 byte
/// strings, and the text it returns is the one they encode.
#[verifier::external_body]
pub(crate) fn decode_text(b: &[u8]) -> (r: Option<String>)
    ensures
        r matches Some(t) ==> valid_utf8(b@) && t@ == decode_utf8(b@),
        r is None ==> !valid_utf8(b@),
{
    match std::str::from_utf8(b) {
        Ok(t) => Some(t.to_string()),
        Err(_) => None,
    }
}

/// The text of `s[a..b]`, when those bytes are valid UTF-8.
pub fn text_in(s: &[u8], a: usize, b: usize) -> (r: Option<String>)
    requires
        a <= b <= s@.len(),
    ensures
        r matches Some(t) ==> text_of(s@.subrange(a as int, b as int)) == Some(t@),
        r is None ==> text_of(s@.subrange(a as int, b as int)) is None,
{
    let piece = vstd::slice::slice_subrange(s, a, b);
    decode_text(piece)
}

} // verus!
