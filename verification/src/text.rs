//! Byte-level text helpers shared by the lexer, the block parser and the
//! inline parser: Unicode whitespace trimming, literal comparison, ASCII
//! character classes, and conversion of byte ranges to `String`.
//!
//! All positions are byte offsets into a UTF-8 buffer. Trimming follows
//! `char::is_whitespace` (the Unicode `White_Space` property) on the UTF-8
//! encodings of those characters.
use vstd::prelude::*;
use vstd::utf8::*;
use vstd::string::StringSliceAdditionalSpecFns;

verus! {

/// Text of a byte sequence decoded with `String::from_utf8_lossy`.
pub uninterp spec fn lossy_text(b: Seq<u8>) -> Seq<char>;

/// The text of `b`: its UTF-8 decoding when `b` is valid UTF-8 (as every
/// range of a `&str` cut at character boundaries is), else its lossy
/// decoding.
pub open spec fn utf8_text(b: Seq<u8>) -> Seq<char> {
    if valid_utf8(b) {
        decode_utf8(b)
    } else {
        lossy_text(b)
    }
}

/// `String::from_utf8_lossy` on `b[lo..hi]`, owned. The result is the
/// lossy decoding of those bytes; for valid UTF-8 it is exactly their
/// decoding. What replacement characters invalid input gets is left unsaid.
#[verifier::external_body]
pub fn string_from_range(b: &[u8], lo: usize, hi: usize) -> (s: String)
    requires
        lo <= hi <= b@.len(),
    ensures
        s@ == lossy_text(b@.subrange(lo as int, hi as int)),
        valid_utf8(b@.subrange(lo as int, hi as int)) ==> s@ == decode_utf8(
            b@.subrange(lo as int, hi as int),
        ),
{
    String::from_utf8_lossy(&b[lo..hi]).into_owned()
}

/// `std::str::from_utf8(&b[lo..hi]).unwrap_or("")`: the bytes as text when
/// they are valid UTF-8, the empty string otherwise.
#[verifier::external_body]
pub fn str_from_range<'a>(b: &'a [u8], lo: usize, hi: usize) -> (s: &'a str)
    requires
        lo <= hi <= b@.len(),
    ensures
        valid_utf8(b@.subrange(lo as int, hi as int)) ==> s.spec_bytes() == b@.subrange(
            lo as int,
            hi as int,
        ),
        !valid_utf8(b@.subrange(lo as int, hi as int)) ==> s@.len() == 0,
{
    std::str::from_utf8(&b[lo..hi]).unwrap_or("")
}

/// Whole-buffer form of `string_from_range`.
pub fn string_from_bytes(b: &[u8]) -> (s: String)
    ensures
        s@ == lossy_text(b@),
        valid_utf8(b@) ==> s@ == decode_utf8(b@),
{
    let s = string_from_range(b, 0, b.len());
    proof {
        assert(b@.subrange(0, b@.len() as int) =~= b@);
    }
    s
}

/// Length of the Unicode whitespace character encoded at byte `i` (0 if none).
pub open spec fn ws_len(s: Seq<u8>, i: int) -> int {
    if 0 <= i < s.len() && (s[i] == 0x20 || (0x09 <= s[i] && s[i] <= 0x0D)) {
        1
    } else if 0 <= i && i + 1 < s.len() && s[i] == 0xC2 && (s[i + 1] == 0x85 || s[i + 1] == 0xA0) {
        2
    } else if 0 <= i && i + 2 < s.len() && ((s[i] == 0xE1 && s[i + 1] == 0x9A && s[i + 2] == 0x80)
        || (s[i] == 0xE2 && s[i + 1] == 0x80 && ((0x80 <= s[i + 2] && s[i + 2] <= 0x8A) || s[i + 2]
        == 0xA8 || s[i + 2] == 0xA9 || s[i + 2] == 0xAF)) || (s[i] == 0xE2 && s[i + 1] == 0x81
        && s[i + 2] == 0x9F) || (s[i] == 0xE3 && s[i + 1] == 0x80 && s[i + 2] == 0x80)) {
        3
    } else {
        0
    }
}

/// Length of the Unicode whitespace character whose encoding ends just
/// before byte `i` (0 if none).
pub open spec fn ws_len_before(s: Seq<u8>, i: int) -> int {
    if i >= 1 && ws_len(s, i - 1) == 1 {
        1
    } else if i >= 2 && ws_len(s, i - 2) == 2 {
        2
    } else if i >= 3 && ws_len(s, i - 3) == 3 {
        3
    } else {
        0
    }
}

/// First position in `[lo, hi)` after stripping leading whitespace.
pub open spec fn trim_start_pos(s: Seq<u8>, lo: int, hi: int) -> int
    decreases hi - lo,
{
    if lo < hi && ws_len(s, lo) > 0 && lo + ws_len(s, lo) <= hi {
        trim_start_pos(s, lo + ws_len(s, lo), hi)
    } else {
        lo
    }
}

/// End position of `[lo, hi)` after stripping trailing whitespace.
pub open spec fn trim_end_pos(s: Seq<u8>, lo: int, hi: int) -> int
    decreases hi - lo,
{
    if lo < hi && ws_len_before(s, hi) > 0 && hi - ws_len_before(s, hi) >= lo {
        trim_end_pos(s, lo, hi - ws_len_before(s, hi))
    } else {
        hi
    }
}

pub proof fn lemma_trim_start_bounds(s: Seq<u8>, lo: int, hi: int)
    requires
        lo <= hi,
    ensures
        lo <= trim_start_pos(s, lo, hi) <= hi,
    decreases hi - lo,
{
    if lo < hi && ws_len(s, lo) > 0 && lo + ws_len(s, lo) <= hi {
        lemma_trim_start_bounds(s, lo + ws_len(s, lo), hi);
    }
}

pub proof fn lemma_trim_end_bounds(s: Seq<u8>, lo: int, hi: int)
    requires
        lo <= hi,
    ensures
        lo <= trim_end_pos(s, lo, hi) <= hi,
    decreases hi - lo,
{
    if lo < hi && ws_len_before(s, hi) > 0 && hi - ws_len_before(s, hi) >= lo {
        lemma_trim_end_bounds(s, lo, hi - ws_len_before(s, hi));
    }
}

/// Length of the whitespace character at `i` (0 if none).
pub fn ws_len_at(b: &[u8], i: usize) -> (n: usize)
    ensures
        n == ws_len(b@, i as int),
{
    let len = b.len();
    if i < len && (b[i] == 0x20 || (0x09 <= b[i] && b[i] <= 0x0D)) {
        return 1;
    }
    if i < len && len - i >= 2 && b[i] == 0xC2 && (b[i + 1] == 0x85 || b[i + 1] == 0xA0) {
        return 2;
    }
    if i < len && len - i >= 3 {
        let b0 = b[i];
        let b1 = b[i + 1];
        let b2 = b[i + 2];
        if (b0 == 0xE1 && b1 == 0x9A && b2 == 0x80) || (b0 == 0xE2 && b1 == 0x80 && ((0x80 <= b2
            && b2 <= 0x8A) || b2 == 0xA8 || b2 == 0xA9 || b2 == 0xAF)) || (b0 == 0xE2 && b1 == 0x81
            && b2 == 0x9F) || (b0 == 0xE3 && b1 == 0x80 && b2 == 0x80) {
            return 3;
        }
    }
    0
}

/// Length of the whitespace character ending just before `i` (0 if none).
pub fn ws_len_ending_at(b: &[u8], i: usize) -> (n: usize)
    ensures
        n == ws_len_before(b@, i as int),
{
    if i >= 1 && ws_len_at(b, i - 1) == 1 {
        1
    } else if i >= 2 && ws_len_at(b, i - 2) == 2 {
        2
    } else if i >= 3 && ws_len_at(b, i - 3) == 3 {
        3
    } else {
        0
    }
}

/// Strip leading Unicode whitespace from `b[lo..hi]`.
pub fn trim_start(b: &[u8], lo: usize, hi: usize) -> (p: usize)
    requires
        lo <= hi,
    ensures
        p == trim_start_pos(b@, lo as int, hi as int),
        lo <= p <= hi,
{
    let mut p = lo;
    proof {
        lemma_trim_start_bounds(b@, lo as int, hi as int);
    }
    while p < hi && ws_len_at(b, p) > 0 && ws_len_at(b, p) <= hi - p
        invariant
            lo <= p <= hi,
            trim_start_pos(b@, lo as int, hi as int) == trim_start_pos(b@, p as int, hi as int),
        decreases hi - p,
    {
        let n = ws_len_at(b, p);
        p = p + n;
    }
    p
}

/// Strip trailing Unicode whitespace from `b[lo..hi]`.
pub fn trim_end(b: &[u8], lo: usize, hi: usize) -> (p: usize)
    requires
        lo <= hi,
    ensures
        p == trim_end_pos(b@, lo as int, hi as int),
        lo <= p <= hi,
{
    let mut p = hi;
    proof {
        lemma_trim_end_bounds(b@, lo as int, hi as int);
    }
    while p > lo && ws_len_ending_at(b, p) > 0 && ws_len_ending_at(b, p) <= p - lo
        invariant
            lo <= p <= hi,
            trim_end_pos(b@, lo as int, hi as int) == trim_end_pos(b@, lo as int, p as int),
        decreases p - lo,
    {
        let n = ws_len_ending_at(b, p);
        p = p - n;
    }
    p
}

/// `b[lo..hi]` starts with `lit`.
pub open spec fn starts_with_at(s: Seq<u8>, lo: int, hi: int, lit: Seq<u8>) -> bool {
    0 <= lo && hi - lo >= lit.len() && hi <= s.len() && s.subrange(lo, lo + lit.len()) == lit
}

/// Whether `b[lo..hi]` starts with `lit`.
pub fn has_prefix(b: &[u8], lo: usize, hi: usize, lit: &[u8]) -> (r: bool)
    requires
        lo <= hi <= b@.len(),
    ensures
        r == starts_with_at(b@, lo as int, hi as int, lit@),
{
    if hi - lo < lit.len() {
        return false;
    }
    let mut k: usize = 0;
    while k < lit.len()
        invariant
            k <= lit@.len(),
            lo + lit@.len() <= hi <= b@.len(),
            forall|j: int| 0 <= j < k ==> b@[lo + j] == lit@[j],
        decreases lit@.len() - k,
    {
        if b[lo + k] != lit[k] {
            proof {
                assert(b@.subrange(lo as int, lo + lit@.len())[k as int] != lit@[k as int]);
            }
            return false;
        }
        k = k + 1;
    }
    proof {
        assert(b@.subrange(lo as int, lo + lit@.len()) =~= lit@);
    }
    true
}

/// `b[lo..hi]` equals `lit` byte for byte.
pub fn range_eq(b: &[u8], lo: usize, hi: usize, lit: &[u8]) -> (r: bool)
    requires
        lo <= hi <= b@.len(),
    ensures
        r == (b@.subrange(lo as int, hi as int) == lit@),
{
    if hi - lo != lit.len() {
        proof {
            assert(b@.subrange(lo as int, hi as int).len() != lit@.len());
        }
        return false;
    }
    let r = has_prefix(b, lo, hi, lit);
    proof {
        if r {
            assert(b@.subrange(lo as int, hi as int) =~= b@.subrange(lo as int, lo + lit@.len()));
        } else {
            assert(b@.subrange(lo as int, hi as int) =~= b@.subrange(lo as int, lo + lit@.len()));
        }
    }
    r
}

/// ASCII lowercase of a byte.
pub open spec fn lower(c: u8) -> u8 {
    if 0x41 <= c && c <= 0x5A {
        (c + 32) as u8
    } else {
        c
    }
}

/// ASCII lowercase of a byte sequence.
pub open spec fn lower_seq(s: Seq<u8>) -> Seq<u8> {
    s.map_values(|c: u8| lower(c))
}

pub fn to_lower(c: u8) -> (r: u8)
    ensures
        r == lower(c),
{
    if 0x41 <= c && c <= 0x5A {
        c + 32
    } else {
        c
    }
}

/// `b[lo..hi]` equals `lit` ignoring ASCII case.
pub fn range_eq_ignore_case(b: &[u8], lo: usize, hi: usize, lit: &[u8]) -> (r: bool)
    requires
        lo <= hi <= b@.len(),
    ensures
        r == (lower_seq(b@.subrange(lo as int, hi as int)) == lower_seq(lit@)),
{
    if hi - lo != lit.len() {
        proof {
            assert(lower_seq(b@.subrange(lo as int, hi as int)).len() != lower_seq(lit@).len());
        }
        return false;
    }
    let mut k: usize = 0;
    while k < lit.len()
        invariant
            k <= lit@.len(),
            hi - lo == lit@.len(),
            hi <= b@.len(),
            forall|j: int| 0 <= j < k ==> lower(b@[lo + j]) == lower(lit@[j]),
        decreases lit@.len() - k,
    {
        if to_lower(b[lo + k]) != to_lower(lit[k]) {
            proof {
                assert(lower_seq(b@.subrange(lo as int, hi as int))[k as int] != lower_seq(
                    lit@,
                )[k as int]);
            }
            return false;
        }
        k = k + 1;
    }
    proof {
        assert(lower_seq(b@.subrange(lo as int, hi as int)) =~= lower_seq(lit@));
    }
    true
}

/// ASCII digit.
pub open spec fn is_digit(c: u8) -> bool {
    0x30 <= c <= 0x39
}

/// ASCII letter.
pub open spec fn is_alpha(c: u8) -> bool {
    (0x41 <= c <= 0x5A) || (0x61 <= c <= 0x7A)
}

/// ASCII letter or digit.
pub open spec fn is_alnum(c: u8) -> bool {
    is_alpha(c) || is_digit(c)
}

/// ASCII hexadecimal digit.
pub open spec fn is_hex(c: u8) -> bool {
    is_digit(c) || (0x41 <= c <= 0x46) || (0x61 <= c <= 0x66)
}

/// ASCII whitespace as `u8::is_ascii_whitespace` defines it.
pub open spec fn is_ascii_ws(c: u8) -> bool {
    c == 0x20 || c == 0x09 || c == 0x0A || c == 0x0C || c == 0x0D
}

pub fn digit(c: u8) -> (r: bool)
    ensures
        r == is_digit(c),
{
    0x30 <= c && c <= 0x39
}

pub fn alpha(c: u8) -> (r: bool)
    ensures
        r == is_alpha(c),
{
    (0x41 <= c && c <= 0x5A) || (0x61 <= c && c <= 0x7A)
}

pub fn alnum(c: u8) -> (r: bool)
    ensures
        r == is_alnum(c),
{
    alpha(c) || digit(c)
}

pub fn hexdigit(c: u8) -> (r: bool)
    ensures
        r == is_hex(c),
{
    digit(c) || (0x41 <= c && c <= 0x46) || (0x61 <= c && c <= 0x66)
}

pub fn ascii_ws(c: u8) -> (r: bool)
    ensures
        r == is_ascii_ws(c),
{
    c == 0x20 || c == 0x09 || c == 0x0A || c == 0x0C || c == 0x0D
}

/// Position of the first `c` in `b[lo..hi]`, or `hi`.
pub open spec fn find_byte_pos(s: Seq<u8>, lo: int, hi: int, c: u8) -> int
    decreases hi - lo,
{
    if lo >= hi {
        hi
    } else if s[lo] == c {
        lo
    } else {
        find_byte_pos(s, lo + 1, hi, c)
    }
}

pub proof fn lemma_find_byte_pos(s: Seq<u8>, lo: int, hi: int, c: u8)
    requires
        0 <= lo <= hi <= s.len(),
    ensures
        lo <= find_byte_pos(s, lo, hi, c) <= hi,
        forall|j: int| lo <= j < find_byte_pos(s, lo, hi, c) ==> s[j] != c,
        find_byte_pos(s, lo, hi, c) < hi ==> s[find_byte_pos(s, lo, hi, c)] == c,
    decreases hi - lo,
{
    if lo < hi && s[lo] != c {
        lemma_find_byte_pos(s, lo + 1, hi, c);
    }
}

/// First occurrence of byte `c` in `b[lo..hi]` (or `hi`).
pub fn find_byte(b: &[u8], lo: usize, hi: usize, c: u8) -> (p: usize)
    requires
        lo <= hi <= b@.len(),
    ensures
        p == find_byte_pos(b@, lo as int, hi as int, c),
        lo <= p <= hi,
{
    proof {
        lemma_find_byte_pos(b@, lo as int, hi as int, c);
    }
    let mut p = lo;
    while p < hi
        invariant
            lo <= p <= hi <= b@.len(),
            find_byte_pos(b@, lo as int, hi as int, c) == find_byte_pos(b@, p as int, hi as int, c),
        decreases hi - p,
    {
        if b[p] == c {
            return p;
        }
        p = p + 1;
    }
    p
}

/// Whether byte `c` occurs in `b[lo..hi]`.
pub fn contains_byte(b: &[u8], lo: usize, hi: usize, c: u8) -> (r: bool)
    requires
        lo <= hi <= b@.len(),
    ensures
        r == (exists|j: int| lo <= j < hi && b@[j] == c),
{
    proof {
        lemma_find_byte_pos(b@, lo as int, hi as int, c);
    }
    let p = find_byte(b, lo, hi, c);
    p < hi
}

/// Append `b[lo..hi]` to `out`.
pub fn push_range(out: &mut Vec<u8>, b: &[u8], lo: usize, hi: usize)
    requires
        lo <= hi <= b@.len(),
    ensures
        final(out)@ == old(out)@ + b@.subrange(lo as int, hi as int),
{
    let ghost start = out@;
    let mut k = lo;
    while k < hi
        invariant
            lo <= k <= hi <= b@.len(),
            out@ == start + b@.subrange(lo as int, k as int),
        decreases hi - k,
    {
        out.push(b[k]);
        k = k + 1;
        proof {
            assert(out@ =~= start + b@.subrange(lo as int, k as int));
        }
    }
}

/// Append all of `lit` to `out`.
pub fn push_all(out: &mut Vec<u8>, lit: &[u8])
    ensures
        final(out)@ == old(out)@ + lit@,
{
    push_range(out, lit, 0, lit.len());
    proof {
        assert(lit@.subrange(0, lit@.len() as int) =~= lit@);
    }
}

} // verus!

verus! {

/// Decimal value of the ASCII digits `s[lo..hi]`.
pub open spec fn decimal_value(s: Seq<u8>, lo: int, hi: int) -> int
    decreases hi - lo,
{
    if hi <= lo {
        0
    } else {
        decimal_value(s, lo, hi - 1) * 10 + (s[hi - 1] - 48)
    }
}

/// `str::parse::<u32>` on the digits `b[lo..hi]`, with 1 when the value
/// does not fit (the `unwrap_or(1)` fallback).
pub fn parse_u32_or_one(b: &[u8], lo: usize, hi: usize) -> (v: u32)
    requires
        lo < hi <= b@.len(),
        forall|j: int| lo <= j < hi ==> is_digit(#[trigger] b@[j]),
    ensures
        v == (if decimal_value(b@, lo as int, hi as int) <= u32::MAX {
            decimal_value(b@, lo as int, hi as int)
        } else {
            1
        }),
{
    let mut v: u32 = 0;
    let mut k = lo;
    let mut overflow = false;
    while k < hi
        invariant
            lo <= k <= hi <= b@.len(),
            forall|j: int| lo <= j < hi ==> is_digit(#[trigger] b@[j]),
            !overflow ==> v == decimal_value(b@, lo as int, k as int),
            overflow ==> decimal_value(b@, lo as int, k as int) > u32::MAX,
            decimal_value(b@, lo as int, k as int) >= 0,
        decreases hi - k,
    {
        let d = (b[k] - 48) as u32;
        proof {
            assert(is_digit(b@[k as int]));
            assert(decimal_value(b@, lo as int, k + 1) == decimal_value(b@, lo as int, k as int)
                * 10 + d);
        }
        if !overflow {
            if v > (u32::MAX - d) / 10 {
                overflow = true;
            } else {
                v = v * 10 + d;
            }
        }
        k = k + 1;
    }
    if overflow {
        1
    } else {
        v
    }
}

} // verus!
