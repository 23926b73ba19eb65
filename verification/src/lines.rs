//! Line splitting and line-level classifiers used by the block parser.
//!
//! Every classifier works on a byte range `b[lo..hi]` of the source (usually
//! one line's text, or that text after Unicode trimming) and is specified
//! exactly by a spec function over the bytes.
use vstd::prelude::*;
use crate::text::{
    find_byte, find_byte_pos, lemma_find_byte_pos, trim_end, trim_end_pos, trim_start,
    trim_start_pos, lemma_trim_start_bounds, lemma_trim_end_bounds, has_prefix, starts_with_at,
    hexdigit, is_hex, digit, is_digit, contains_byte, parse_u32_or_one, decimal_value,
};

verus! {

/// A source line: its text `[byte_start, text_end)` (newline and a `\r`
/// before it stripped) and its full extent `[byte_start, byte_end)`.
#[derive(Debug, Clone, Copy)]
pub struct Line {
    pub byte_start: usize,
    pub text_end: usize,
    pub byte_end: usize,
}

/// Line as a triple of positions.
pub open spec fn line_view(l: Line) -> (int, int, int) {
    (l.byte_start as int, l.text_end as int, l.byte_end as int)
}

/// The lines of `s` from position `start`: each line runs to the next `\n`
/// (included in its extent, excluded from its text, as is a `\r` before it);
/// trailing content without a newline forms a last line.
pub open spec fn split_lines_from(s: Seq<u8>, start: int) -> Seq<(int, int, int)>
    decreases s.len() - start,
{
    if start < 0 || start >= s.len() {
        Seq::empty()
    } else {
        let nl = find_byte_pos(s, start, s.len() as int, 10u8);
        let te = if nl > start && s[nl - 1] == 13u8 {
            nl - 1
        } else {
            nl
        };
        let be = if nl < s.len() {
            nl + 1
        } else {
            s.len() as int
        };
        if be <= start {
            Seq::empty()
        } else {
            seq![(start, te, be)] + split_lines_from(s, be)
        }
    }
}

/// The lines of `s`.
pub open spec fn source_lines(s: Seq<u8>) -> Seq<(int, int, int)> {
    split_lines_from(s, 0)
}

/// Structural facts about the lines of a source.
pub open spec fn lines_shape(s: Seq<u8>, ls: Seq<(int, int, int)>, start: int) -> bool {
    &&& forall|k: int|
        0 <= k < ls.len() ==> {
            let l = #[trigger] ls[k];
            &&& start <= l.0 <= l.1 < l.2 || (start <= l.0 <= l.1 <= l.2 && l.0 < l.2)
            &&& l.2 <= s.len()
        }
    &&& forall|k: int| 0 <= k < ls.len() - 1 ==> (#[trigger] ls[k]).2 == ls[k + 1].0
    &&& ls.len() > 0 ==> ls[0].0 == start
    &&& ls.len() > 0 ==> ls[ls.len() - 1].2 == s.len()
    &&& ls.len() == 0 ==> start >= s.len()
}

pub proof fn lemma_lines_shape(s: Seq<u8>, start: int)
    requires
        0 <= start,
    ensures
        lines_shape(s, split_lines_from(s, start), start),
        start <= s.len() ==> split_lines_from(s, start).len() <= s.len() - start,
    decreases s.len() - start,
{
    if start < s.len() {
        lemma_find_byte_pos(s, start, s.len() as int, 10u8);
        let nl = find_byte_pos(s, start, s.len() as int, 10u8);
        let be = if nl < s.len() {
            nl + 1
        } else {
            s.len() as int
        };
        lemma_lines_shape(s, be);
        let rest = split_lines_from(s, be);
        let ls = split_lines_from(s, start);
        assert forall|k: int| 0 <= k < ls.len() - 1 implies (#[trigger] ls[k]).2 == ls[k + 1].0 by {
            if k > 0 {
                assert(ls[k] == rest[k - 1]);
                assert(ls[k + 1] == rest[k]);
            }
        }
        assert forall|k: int| 0 <= k < ls.len() implies {
            let l = #[trigger] ls[k];
            &&& start <= l.0 <= l.1 < l.2 || (start <= l.0 <= l.1 <= l.2 && l.0 < l.2)
            &&& l.2 <= s.len()
        } by {
            if k > 0 {
                assert(ls[k] == rest[k - 1]);
            }
        }
    }
}

/// Split the source into lines (see `split_lines_from`).
pub fn split_lines(b: &[u8]) -> (lines: Vec<Line>)
    ensures
        lines@.map_values(|l: Line| line_view(l)) == source_lines(b@),
{
    let mut lines: Vec<Line> = Vec::new();
    let mut start: usize = 0;
    let len = b.len();
    proof {
        lemma_lines_shape(b@, 0);
    }
    while start < len
        invariant
            len == b@.len(),
            start <= len,
            lines@.map_values(|l: Line| line_view(l)) + split_lines_from(b@, start as int)
                == source_lines(b@),
        decreases len - start,
    {
        let nl = find_byte(b, start, len, 10u8);
        let te = if nl > start && b[nl - 1] == 13u8 {
            nl - 1
        } else {
            nl
        };
        let be = if nl < len {
            nl + 1
        } else {
            len
        };
        let ghost old_lines = lines@;
        lines.push(Line { byte_start: start, text_end: te, byte_end: be });
        proof {
            assert(lines@.map_values(|l: Line| line_view(l)) =~= old_lines.map_values(
                |l: Line| line_view(l),
            ).push((start as int, te as int, be as int)));
            assert(split_lines_from(b@, start as int) =~= seq![(start as int, te as int, be as int)]
                + split_lines_from(b@, be as int));
            assert(lines@.map_values(|l: Line| line_view(l)) + split_lines_from(b@, be as int)
                =~= old_lines.map_values(|l: Line| line_view(l)) + split_lines_from(
                b@,
                start as int,
            ));
        }
        start = be;
    }
    proof {
        assert(split_lines_from(b@, start as int) =~= Seq::<(int, int, int)>::empty());
        assert(lines@.map_values(|l: Line| line_view(l)) + Seq::<(int, int, int)>::empty()
            =~= lines@.map_values(|l: Line| line_view(l)));
    }
    lines
}

/// `[lo, hi)` trimmed of Unicode whitespace on both sides.
pub open spec fn trimmed(s: Seq<u8>, lo: int, hi: int) -> (int, int) {
    let a = trim_start_pos(s, lo, hi);
    (a, trim_end_pos(s, a, hi))
}

/// Trim both sides of `b[lo..hi]`.
pub fn trim(b: &[u8], lo: usize, hi: usize) -> (r: (usize, usize))
    requires
        lo <= hi,
    ensures
        r.0 == trimmed(b@, lo as int, hi as int).0,
        r.1 == trimmed(b@, lo as int, hi as int).1,
        lo <= r.0 <= r.1 <= hi,
{
    let a = trim_start(b, lo, hi);
    let z = trim_end(b, a, hi);
    (a, z)
}

/// `b[lo..hi]` is empty after trimming.
pub open spec fn blank(s: Seq<u8>, lo: int, hi: int) -> bool {
    trim_start_pos(s, lo, hi) == hi
}

pub proof fn lemma_blank_trimmed(s: Seq<u8>, lo: int, hi: int)
    requires
        lo <= hi,
    ensures
        blank(s, lo, hi) <==> trimmed(s, lo, hi).0 == trimmed(s, lo, hi).1,
{
    lemma_trim_start_bounds(s, lo, hi);
    let a = trim_start_pos(s, lo, hi);
    lemma_trim_end_bounds(s, a, hi);
    if a < hi {
        lemma_trim_start_idem(s, lo, hi);
        lemma_trim_end_keeps(s, a, hi);
    }
}

/// Trimming the start twice trims nothing more.
proof fn lemma_trim_start_idem(s: Seq<u8>, lo: int, hi: int)
    requires
        lo <= hi,
    ensures
        trim_start_pos(s, trim_start_pos(s, lo, hi), hi) == trim_start_pos(s, lo, hi),
    decreases hi - lo,
{
    if lo < hi && crate::text::ws_len(s, lo) > 0 && lo + crate::text::ws_len(s, lo) <= hi {
        lemma_trim_start_idem(s, lo + crate::text::ws_len(s, lo), hi);
    }
}

/// Trimming the end never removes the first non-whitespace byte.
proof fn lemma_trim_end_keeps(s: Seq<u8>, a: int, hi: int)
    requires
        a < hi,
        trim_start_pos(s, a, hi) == a,
    ensures
        trim_end_pos(s, a, hi) > a,
    decreases hi - a,
{
    // `trim_start_pos(s, a, hi) == a` means no whitespace character starts at
    // `a` within the range; trimming from the end stops before reaching it.
    let w = crate::text::ws_len(s, a);
    if w > 0 && a + w <= hi {
        lemma_trim_start_bounds(s, a + w, hi);
    }
    lemma_trim_end_stops(s, a, hi);
}

proof fn lemma_trim_end_stops(s: Seq<u8>, a: int, p: int)
    requires
        a < p,
        !(crate::text::ws_len(s, a) > 0 && a + crate::text::ws_len(s, a) <= p),
    ensures
        trim_end_pos(s, a, p) > a,
    decreases p - a,
{
    let w = crate::text::ws_len_before(s, p);
    if w > 0 && p - w >= a {
        if p - w == a {
            // The character ending at `p` would start at `a`.
            assert(crate::text::ws_len(s, a) == w);
        } else {
            lemma_trim_end_stops(s, a, p - w);
        }
    }
}

/// Whether `b[lo..hi]` is blank.
pub fn is_blank(b: &[u8], lo: usize, hi: usize) -> (r: bool)
    requires
        lo <= hi,
    ensures
        r == blank(b@, lo as int, hi as int),
{
    trim_start(b, lo, hi) == hi
}

/// Indented code line: a leading tab followed by non-blank text, or four
/// leading spaces followed by at least one more byte.
pub open spec fn indented_code_line(s: Seq<u8>, lo: int, hi: int) -> bool {
    if hi <= lo {
        false
    } else if s[lo] == 9u8 {
        !blank(s, lo + 1, hi)
    } else if hi - lo >= 4 && s[lo] == 32u8 && s[lo + 1] == 32u8 && s[lo + 2] == 32u8 && s[lo + 3]
        == 32u8 {
        !blank(s, lo + 4, hi) || hi - lo > 4
    } else {
        false
    }
}

pub fn is_indented_code_line(b: &[u8], lo: usize, hi: usize) -> (r: bool)
    requires
        lo <= hi <= b@.len(),
    ensures
        r == indented_code_line(b@, lo as int, hi as int),
{
    if hi <= lo {
        return false;
    }
    if b[lo] == 9u8 {
        return !is_blank(b, lo + 1, hi);
    }
    if hi - lo >= 4 && b[lo] == 32u8 && b[lo + 1] == 32u8 && b[lo + 2] == 32u8 && b[lo + 3]
        == 32u8 {
        return !is_blank(b, lo + 4, hi) || hi - lo > 4;
    }
    false
}

/// Start of an indented code line's content after its 4-space or tab indent.
pub open spec fn code_indent_end(s: Seq<u8>, lo: int, hi: int) -> int {
    if hi > lo && s[lo] == 9u8 {
        lo + 1
    } else if hi - lo >= 4 && s[lo] == 32u8 && s[lo + 1] == 32u8 && s[lo + 2] == 32u8 && s[lo
        + 3] == 32u8 {
        lo + 4
    } else {
        lo
    }
}

pub fn strip_indented_code_indent(b: &[u8], lo: usize, hi: usize) -> (p: usize)
    requires
        lo <= hi <= b@.len(),
    ensures
        p == code_indent_end(b@, lo as int, hi as int),
        lo <= p <= hi,
{
    if hi > lo && b[lo] == 9u8 {
        lo + 1
    } else if hi - lo >= 4 && b[lo] == 32u8 && b[lo + 1] == 32u8 && b[lo + 2] == 32u8 && b[lo
        + 3] == 32u8 {
        lo + 4
    } else {
        lo
    }
}

/// End of the run of bytes equal to `c` starting at `p`, bounded by `hi`.
pub open spec fn run_end(s: Seq<u8>, p: int, hi: int, c: u8) -> int
    decreases hi - p,
{
    if p >= hi || s[p] != c {
        p
    } else {
        run_end(s, p + 1, hi, c)
    }
}

pub proof fn lemma_run_end(s: Seq<u8>, p: int, hi: int, c: u8)
    requires
        0 <= p <= hi <= s.len(),
    ensures
        p <= run_end(s, p, hi, c) <= hi,
        forall|j: int| p <= j < run_end(s, p, hi, c) ==> s[j] == c,
        run_end(s, p, hi, c) < hi ==> s[run_end(s, p, hi, c)] != c,
    decreases hi - p,
{
    if p < hi && s[p] == c {
        lemma_run_end(s, p + 1, hi, c);
    }
}

/// End of the run of `c` bytes starting at `p`.
pub fn scan_run(b: &[u8], p: usize, hi: usize, c: u8) -> (e: usize)
    requires
        p <= hi <= b@.len(),
    ensures
        e == run_end(b@, p as int, hi as int, c),
        p <= e <= hi,
{
    proof {
        lemma_run_end(b@, p as int, hi as int, c);
    }
    let mut e = p;
    while e < hi && b[e] == c
        invariant
            p <= e <= hi <= b@.len(),
            run_end(b@, p as int, hi as int, c) == run_end(b@, e as int, hi as int, c),
        decreases hi - e,
    {
        e = e + 1;
    }
    e
}

/// ATX heading: 1 to 6 `#` followed by a space; level and text start.
pub open spec fn heading_marker(s: Seq<u8>, lo: int, hi: int) -> Option<(u8, int)> {
    let n = run_end(s, lo, hi, 35u8) - lo;
    if 1 <= n <= 6 && lo + n < hi && s[lo + n] == 32u8 {
        Some((n as u8, lo + n + 1))
    } else {
        None
    }
}

pub fn parse_heading(b: &[u8], lo: usize, hi: usize) -> (r: Option<(u8, usize)>)
    requires
        lo <= hi <= b@.len(),
    ensures
        r == (match heading_marker(b@, lo as int, hi as int) {
            Some((level, start)) => Some((level, start as usize)),
            None => None,
        }),
        r matches Some((_, st)) ==> lo < st <= hi,
{
    let e = scan_run(b, lo, hi, 35u8);
    let n = e - lo;
    if 1 <= n && n <= 6 && e < hi && b[e] == 32u8 {
        Some((n as u8, e + 1))
    } else {
        None
    }
}

/// Whether `b[lo..hi]` starts with an ATX heading marker.
pub fn is_heading_line(b: &[u8], lo: usize, hi: usize) -> (r: bool)
    requires
        lo <= hi <= b@.len(),
    ensures
        r == heading_marker(b@, lo as int, hi as int) is Some,
{
    parse_heading(b, lo, hi).is_some()
}

/// Setext underline: up to three spaces, a run of `=` (level 1) or `-`
/// (level 2), then only spaces and tabs.
pub open spec fn setext_underline(s: Seq<u8>, lo: int, hi: int) -> Option<u8> {
    let i = run_end(s, lo, hi, 32u8);
    if i - lo > 3 || i >= hi {
        None
    } else if s[i] != 61u8 && s[i] != 45u8 {
        None
    } else {
        let j = run_end(s, i, hi, s[i]);
        if only_spaces_tabs(s, j, hi) {
            Some(if s[i] == 61u8 { 1u8 } else { 2u8 })
        } else {
            None
        }
    }
}

/// Every byte of `s[p..hi]` is a space or a tab.
pub open spec fn only_spaces_tabs(s: Seq<u8>, p: int, hi: int) -> bool {
    forall|j: int| p <= j < hi ==> (#[trigger] s[j] == 32u8 || s[j] == 9u8)
}

pub fn parse_setext_underline(b: &[u8], lo: usize, hi: usize) -> (r: Option<u8>)
    requires
        lo <= hi <= b@.len(),
    ensures
        r == setext_underline(b@, lo as int, hi as int),
{
    let i = scan_run(b, lo, hi, 32u8);
    if i - lo > 3 || i >= hi {
        return None;
    }
    let c = b[i];
    if c != 61u8 && c != 45u8 {
        return None;
    }
    let j = scan_run(b, i, hi, c);
    let mut k = j;
    while k < hi && (b[k] == 32u8 || b[k] == 9u8)
        invariant
            j <= k <= hi <= b@.len(),
            only_spaces_tabs(b@, j as int, k as int),
        decreases hi - k,
    {
        k = k + 1;
    }
    if k != hi {
        return None;
    }
    Some(if c == 61u8 {
        1
    } else {
        2
    })
}

/// Thematic break on a trimmed line: ignoring spaces, at least three `-` or
/// `_`, or exactly three `*`, and nothing else.
pub open spec fn horizontal_rule(s: Seq<u8>, lo: int, hi: int) -> bool {
    exists|c: u8|
        (c == 45u8 || c == 42u8 || c == 95u8) && all_space_or(s, lo, hi, c) && ({
            let n = count_byte(s, lo, hi, c);
            n >= 3 && (c == 42u8 ==> n == 3)
        })
}

/// Every byte of `s[lo..hi]` is a space or `c`.
pub open spec fn all_space_or(s: Seq<u8>, lo: int, hi: int, c: u8) -> bool {
    forall|j: int| lo <= j < hi ==> (#[trigger] s[j] == 32u8 || s[j] == c)
}

/// Number of bytes equal to `c` in `s[lo..hi]`.
pub open spec fn count_byte(s: Seq<u8>, lo: int, hi: int, c: u8) -> int
    decreases hi - lo,
{
    if hi <= lo {
        0
    } else {
        count_byte(s, lo, hi - 1, c) + (if s[hi - 1] == c { 1int } else { 0int })
    }
}

pub proof fn lemma_count_byte_bound(s: Seq<u8>, lo: int, hi: int, c: u8)
    ensures
        0 <= count_byte(s, lo, hi, c),
        lo <= hi ==> count_byte(s, lo, hi, c) <= hi - lo,
    decreases hi - lo,
{
    if hi > lo {
        lemma_count_byte_bound(s, lo, hi - 1, c);
    }
}

pub fn is_horizontal_rule(b: &[u8], lo: usize, hi: usize) -> (r: bool)
    requires
        lo <= hi <= b@.len(),
    ensures
        r == horizontal_rule(b@, lo as int, hi as int),
{
    // The first non-space byte decides which rule character applies.
    let mut p = lo;
    while p < hi && b[p] == 32u8
        invariant
            lo <= p <= hi <= b@.len(),
            forall|j: int| lo <= j < p ==> b@[j] == 32u8,
        decreases hi - p,
    {
        p = p + 1;
    }
    if p >= hi {
        proof {
            assert forall|c: u8|
                (c == 45u8 || c == 42u8 || c == 95u8) && all_space_or(b@, lo as int, hi as int, c)
                    implies count_byte(b@, lo as int, hi as int, c) == 0 by {
                lemma_count_zero(b@, lo as int, hi as int, c);
            }
        }
        return false;
    }
    let c = b[p];
    if c != 45u8 && c != 42u8 && c != 95u8 {
        proof {
            assert forall|d: u8|
                (d == 45u8 || d == 42u8 || d == 95u8) implies !all_space_or(
                b@,
                lo as int,
                hi as int,
                d,
            ) by {
                assert(b@[p as int] != 32u8 && b@[p as int] != d);
            }
        }
        return false;
    }
    let mut k = lo;
    let mut n: usize = 0;
    while k < hi
        invariant
            lo <= k <= hi <= b@.len(),
            n == count_byte(b@, lo as int, k as int, c),
            all_space_or(b@, lo as int, k as int, c),
            lo <= p < hi,
            b@[p as int] == c,
            c == 45u8 || c == 42u8 || c == 95u8,
        decreases hi - k,
    {
        if b[k] != 32u8 && b[k] != c {
            proof {
                assert forall|d: u8|
                    (d == 45u8 || d == 42u8 || d == 95u8) && all_space_or(
                        b@,
                        lo as int,
                        hi as int,
                        d,
                    ) implies false by {
                    assert(b@[p as int] == d || b@[p as int] == 32u8);
                    assert(b@[k as int] == 32u8 || b@[k as int] == d);
                }
            }
            return false;
        }
        proof {
            lemma_count_byte_bound(b@, lo as int, k as int, c);
        }
        if b[k] == c {
            n = n + 1;
        }
        k = k + 1;
    }
    proof {
        assert forall|d: u8|
            (d == 45u8 || d == 42u8 || d == 95u8) && d != c implies !all_space_or(
            b@,
            lo as int,
            hi as int,
            d,
        ) by {
            assert(b@[p as int] != 32u8);
        }
    }
    n >= 3 && (c != 42u8 || n == 3)
}

proof fn lemma_count_zero(s: Seq<u8>, lo: int, hi: int, c: u8)
    requires
        forall|j: int| lo <= j < hi ==> s[j] == 32u8,
        c != 32u8,
    ensures
        count_byte(s, lo, hi, c) == 0,
    decreases hi - lo,
{
    if hi > lo {
        lemma_count_zero(s, lo, hi - 1, c);
    }
}

/// A list marker space: space or tab.
pub open spec fn marker_space(c: u8) -> bool {
    c == 32u8 || c == 9u8
}

pub fn is_marker_space(c: u8) -> (r: bool)
    ensures
        r == marker_space(c),
{
    c == 32u8 || c == 9u8
}

/// End of a run of marker spaces starting at `p`.
pub open spec fn marker_space_end(s: Seq<u8>, p: int, hi: int) -> int
    decreases hi - p,
{
    if p >= hi || !marker_space(s[p]) {
        p
    } else {
        marker_space_end(s, p + 1, hi)
    }
}

pub proof fn lemma_marker_space_end(s: Seq<u8>, p: int, hi: int)
    requires
        0 <= p <= hi <= s.len(),
    ensures
        p <= marker_space_end(s, p, hi) <= hi,
        forall|j: int| p <= j < marker_space_end(s, p, hi) ==> marker_space(#[trigger] s[j]),
    decreases hi - p,
{
    if p < hi && marker_space(s[p]) {
        lemma_marker_space_end(s, p + 1, hi);
    }
}

fn skip_marker_spaces(b: &[u8], p: usize, hi: usize) -> (e: usize)
    requires
        p <= hi <= b@.len(),
    ensures
        e == marker_space_end(b@, p as int, hi as int),
        p <= e <= hi,
{
    proof {
        lemma_marker_space_end(b@, p as int, hi as int);
    }
    let mut e = p;
    while e < hi && is_marker_space(b[e])
        invariant
            p <= e <= hi <= b@.len(),
            marker_space_end(b@, p as int, hi as int) == marker_space_end(b@, e as int, hi as int),
        decreases hi - e,
    {
        e = e + 1;
    }
    e
}

/// Checkbox after a bullet: `[ ]`, `[x]` or `[X]`, then the end of the line
/// or marker spaces; the checked state and the end of the marker spaces.
pub open spec fn checkbox_tail(s: Seq<u8>, p: int, hi: int) -> Option<(bool, int)> {
    if p + 3 > hi || s[p] != 91u8 {
        None
    } else if !(s[p + 1] == 32u8 || s[p + 1] == 120u8 || s[p + 1] == 88u8) {
        None
    } else if s[p + 2] != 93u8 {
        None
    } else if p + 3 == hi {
        Some((s[p + 1] != 32u8, p + 3))
    } else if !marker_space(s[p + 3]) {
        None
    } else {
        Some((s[p + 1] != 32u8, marker_space_end(s, p + 4, hi)))
    }
}

pub fn parse_checkbox_tail(b: &[u8], p: usize, hi: usize) -> (r: Option<(bool, usize)>)
    requires
        p <= hi <= b@.len(),
    ensures
        r == (match checkbox_tail(b@, p as int, hi as int) {
            Some((c, e)) => Some((c, e as usize)),
            None => None,
        }),
        r matches Some((_, e)) ==> p < e <= hi,
{
    if hi - p < 3 || b[p] != 91u8 {
        return None;
    }
    let state = b[p + 1];
    if !(state == 32u8 || state == 120u8 || state == 88u8) {
        return None;
    }
    let checked = state != 32u8;
    if b[p + 2] != 93u8 {
        return None;
    }
    let after = p + 3;
    if after == hi {
        return Some((checked, after));
    }
    if !is_marker_space(b[after]) {
        return None;
    }
    let e = skip_marker_spaces(b, after + 1, hi);
    Some((checked, e))
}

/// Kind of a list marker.
#[derive(Debug, Clone, Copy, PartialEq, Eq)]
pub enum ParsedListKind {
    Bullet,
    Ordered,
    Checkbox(bool),
}

/// A list marker found at the start of a line. Positions are absolute byte
/// offsets into the source.
#[derive(Debug, Clone, Copy)]
pub struct ParsedListMarker {
    pub kind: ParsedListKind,
    /// Column of the marker (leading spaces and tabs, tabs expanded).
    pub indent: usize,
    pub marker_start: usize,
    pub marker_end: usize,
    pub content_start: usize,
    /// Bullet byte (`-`, `+`, `*`) for bullets and checkboxes.
    pub unordered_marker: Option<u8>,
    /// `.` or `)` for ordered markers.
    pub ordered_delimiter: Option<u8>,
    /// Digits of an ordered marker (empty range otherwise).
    pub number_start: usize,
    pub number_end: usize,
    pub ordered_number: u32,
}

/// End of the run of spaces and tabs starting at `p`, bounded by `hi`.
pub open spec fn lead_end(s: Seq<u8>, p: int, hi: int) -> int
    decreases hi - p,
{
    if p < hi && (s[p] == 32u8 || s[p] == 9u8) {
        lead_end(s, p + 1, hi)
    } else {
        p
    }
}

/// The column reached after the bytes `s[lo..p]`: a tab moves to the next
/// multiple of 4, any other byte one column on.
pub open spec fn lead_cols(s: Seq<u8>, lo: int, p: int) -> int
    decreases p - lo,
{
    if p <= lo {
        0
    } else {
        let c = lead_cols(s, lo, p - 1);
        if s[p - 1] == 9u8 {
            c - c % 4 + 4
        } else {
            c + 1
        }
    }
}

/// The column count grows with every byte.
pub proof fn lemma_lead_cols_mono(s: Seq<u8>, lo: int, p: int, q: int)
    requires
        lo <= p <= q,
    ensures
        lead_cols(s, lo, p) + (q - p) <= lead_cols(s, lo, q),
    decreases q - p,
{
    if p < q {
        lemma_lead_cols_mono(s, lo, p, q - 1);
    }
}

pub proof fn lemma_lead_end(s: Seq<u8>, p: int, hi: int)
    requires
        p <= hi,
    ensures
        p <= lead_end(s, p, hi) <= hi,
    decreases hi - p,
{
    if p < hi && (s[p] == 32u8 || s[p] == 9u8) {
        lemma_lead_end(s, p + 1, hi);
    }
}

/// The leading spaces and tabs are whitespace the trim skips too.
pub proof fn lemma_lead_before_trim(s: Seq<u8>, lo: int, hi: int)
    requires
        0 <= lo <= hi <= s.len(),
    ensures
        lead_end(s, lo, hi) <= crate::text::trim_start_pos(s, lo, hi),
        lead_end(s, lo, hi) < crate::text::trim_start_pos(s, lo, hi) ==> crate::text::ws_len(
            s,
            lead_end(s, lo, hi),
        ) > 0,
    decreases hi - lo,
{
    crate::text::lemma_trim_start_bounds(s, lo, hi);
    if lo < hi && (s[lo] == 32u8 || s[lo] == 9u8) {
        lemma_lead_before_trim(s, lo + 1, hi);
    }
}

/// A blank line carries no list marker.
pub proof fn lemma_blank_no_marker(s: Seq<u8>, lo: int, hi: int)
    requires
        0 <= lo <= hi <= s.len(),
        blank(s, lo, hi),
    ensures
        list_marker(s, lo, hi) is None,
{
    lemma_lead_before_trim(s, lo, hi);
    lemma_lead_end(s, lo, hi);
}

/// The largest column at which a list marker may start.
pub open spec fn max_marker_indent() -> int {
    32
}

/// The list marker at the start of the line `s[lo..hi]`, if any: leading
/// spaces and tabs reaching at most column 32 (tabs expanded to the next
/// multiple of 4), then `-`/`+`/`*` and marker spaces (optionally a
/// checkbox), or 1 to 9 digits, `.` or `)`, and marker spaces. The indent is
/// that column.
pub open spec fn list_marker(s: Seq<u8>, lo: int, hi: int) -> Option<ParsedListMarker> {
    let ms = lead_end(s, lo, hi);
    let indent = lead_cols(s, lo, ms);
    if indent > max_marker_indent() || ms >= hi {
        None
    } else {
        let m = s[ms];
        if m == 45u8 || m == 43u8 || m == 42u8 {
            if ms + 1 >= hi || !marker_space(s[ms + 1]) {
                None
            } else {
                let be = marker_space_end(s, ms + 2, hi);
                match checkbox_tail(s, be, hi) {
                    Some((checked, ce)) => Some(
                        ParsedListMarker {
                            kind: ParsedListKind::Checkbox(checked),
                            indent: indent as usize,
                            marker_start: ms as usize,
                            marker_end: ce as usize,
                            content_start: ce as usize,
                            unordered_marker: Some(m),
                            ordered_delimiter: None,
                            number_start: ms as usize,
                            number_end: ms as usize,
                            ordered_number: 0,
                        },
                    ),
                    None => Some(
                        ParsedListMarker {
                            kind: ParsedListKind::Bullet,
                            indent: indent as usize,
                            marker_start: ms as usize,
                            marker_end: be as usize,
                            content_start: be as usize,
                            unordered_marker: Some(m),
                            ordered_delimiter: None,
                            number_start: ms as usize,
                            number_end: ms as usize,
                            ordered_number: 0,
                        },
                    ),
                }
            }
        } else if is_digit(m) {
            let ne = digits_end(s, ms, hi);
            let dc = ne - ms;
            if dc == 0 || dc > 9 || ne >= hi {
                None
            } else if s[ne] != 46u8 && s[ne] != 41u8 {
                None
            } else if ne + 1 >= hi || !marker_space(s[ne + 1]) {
                None
            } else {
                let me = marker_space_end(s, ne + 2, hi);
                Some(
                    ParsedListMarker {
                        kind: ParsedListKind::Ordered,
                        indent: indent as usize,
                        marker_start: ms as usize,
                        marker_end: me as usize,
                        content_start: me as usize,
                        unordered_marker: None,
                        ordered_delimiter: Some(s[ne]),
                        number_start: ms as usize,
                        number_end: ne as usize,
                        ordered_number: crate::text::decimal_value(s, ms, ne) as u32,
                    },
                )
            }
        } else {
            None
        }
    }
}

/// End of the run of ASCII digits starting at `p`.
pub open spec fn digits_end(s: Seq<u8>, p: int, hi: int) -> int
    decreases hi - p,
{
    if p >= hi || !is_digit(s[p]) {
        p
    } else {
        digits_end(s, p + 1, hi)
    }
}

pub proof fn lemma_digits_end(s: Seq<u8>, p: int, hi: int)
    requires
        0 <= p <= hi <= s.len(),
    ensures
        p <= digits_end(s, p, hi) <= hi,
        forall|j: int| p <= j < digits_end(s, p, hi) ==> is_digit(#[trigger] s[j]),
    decreases hi - p,
{
    if p < hi && is_digit(s[p]) {
        lemma_digits_end(s, p + 1, hi);
    }
}

/// Nine decimal digits fit in a `u32`.
proof fn lemma_nine_digits(s: Seq<u8>, lo: int, hi: int)
    requires
        lo <= hi <= lo + 9,
        forall|j: int| lo <= j < hi ==> is_digit(#[trigger] s[j]),
    ensures
        0 <= crate::text::decimal_value(s, lo, hi) < pow10(hi - lo),
    decreases hi - lo,
{
    if hi > lo {
        lemma_nine_digits(s, lo, hi - 1);
        assert(is_digit(s[hi - 1]));
    }
}

/// Powers of ten up to 10^9.
pub open spec fn pow10(n: int) -> int
    decreases n,
{
    if n <= 0 {
        1
    } else {
        10 * pow10(n - 1)
    }
}

proof fn lemma_pow10_bound(n: int)
    requires
        0 <= n <= 9,
    ensures
        pow10(n) <= 1_000_000_000,
    decreases 9 - n,
{
    if n == 9 {
        reveal_with_fuel(pow10, 10);
    } else {
        lemma_pow10_bound(n + 1);
        assert(pow10(n + 1) == 10 * pow10(n));
    }
}

proof fn lemma_lead_end_at(s: Seq<u8>, p: int, j: int, hi: int)
    requires
        0 <= p <= j < hi <= s.len(),
        forall|k: int| p <= k < j ==> s[k] == 32u8 || s[k] == 9u8,
        s[j] != 32u8 && s[j] != 9u8,
    ensures
        lead_end(s, p, hi) == j,
    decreases j - p,
{
    if p < j {
        lemma_lead_end_at(s, p + 1, j, hi);
    }
}

proof fn lemma_lead_cols_at_most(s: Seq<u8>, lo: int, p: int)
    requires
        lo <= p,
    ensures
        lead_cols(s, lo, p) <= 4 * (p - lo),
        lead_cols(s, lo, p) >= 0,
    decreases p - lo,
{
    if p > lo {
        lemma_lead_cols_at_most(s, lo, p - 1);
        let c = lead_cols(s, lo, p - 1);
        assert(c % 4 >= 0);
    }
}

proof fn lemma_lead_cols_frame(s: Seq<u8>, t: Seq<u8>, lo: int, p: int)
    requires
        0 <= lo <= p <= s.len(),
        p <= t.len(),
        forall|k: int| lo <= k < p ==> s[k] == t[k],
    ensures
        lead_cols(s, lo, p) == lead_cols(t, lo, p),
    decreases p - lo,
{
    if p > lo {
        lemma_lead_cols_frame(s, t, lo, p - 1);
    }
}

proof fn lemma_marker_space_end_frame(s: Seq<u8>, t: Seq<u8>, p: int, hi: int)
    requires
        0 <= p,
        hi <= s.len(),
        hi <= t.len(),
        forall|k: int| p <= k < hi ==> s[k] == t[k],
    ensures
        marker_space_end(s, p, hi) == marker_space_end(t, p, hi),
    decreases hi - p,
{
    if p < hi {
        lemma_marker_space_end_frame(s, t, p + 1, hi);
    }
}

/// A line whose first byte after at most 8 leading spaces or tabs is `-`,
/// `+` or `*`, followed by a space or tab, starts a bullet list item (a
/// plain bullet or a task checkbox) at that byte, with that byte as its
/// marker; and the three bullet bytes are alike: putting another of them
/// in its place changes nothing but the marker byte.
pub proof fn lemma_bullet_bytes_start_items(s: Seq<u8>, lo: int, hi: int, j: int, c: u8)
    requires
        0 <= lo <= j,
        j + 1 < hi <= s.len(),
        hi <= usize::MAX,
        j - lo <= 8,
        forall|k: int| lo <= k < j ==> s[k] == 32u8 || s[k] == 9u8,
        s[j] == 45u8 || s[j] == 43u8 || s[j] == 42u8,
        s[j + 1] == 32u8 || s[j + 1] == 9u8,
        c == 45u8 || c == 43u8 || c == 42u8,
    ensures
        list_marker(s, lo, hi) is Some,
        list_marker(s, lo, hi)->0.kind is Bullet || list_marker(s, lo, hi)->0.kind is Checkbox,
        list_marker(s, lo, hi)->0.marker_start == j,
        list_marker(s, lo, hi)->0.unordered_marker == Some(s[j]),
        list_marker(s, lo, hi)->0.content_start > j + 1,
        list_marker(s.update(j, c), lo, hi) is Some,
        list_marker(s.update(j, c), lo, hi)->0.kind == list_marker(s, lo, hi)->0.kind,
        list_marker(s.update(j, c), lo, hi)->0.indent == list_marker(s, lo, hi)->0.indent,
        list_marker(s.update(j, c), lo, hi)->0.marker_start == j,
        list_marker(s.update(j, c), lo, hi)->0.marker_end == list_marker(s, lo, hi)->0.marker_end,
        list_marker(s.update(j, c), lo, hi)->0.content_start == list_marker(s, lo, hi)->0.content_start,
        list_marker(s.update(j, c), lo, hi)->0.unordered_marker == Some(c),
{
    let t = s.update(j, c);
    lemma_lead_end_at(s, lo, j, hi);
    lemma_lead_end_at(t, lo, j, hi);
    lemma_lead_cols_at_most(s, lo, j);
    lemma_lead_cols_frame(s, t, lo, j);
    lemma_marker_space_end_frame(s, t, j + 2, hi);
    lemma_marker_space_end(s, j + 2, hi);
    let be = marker_space_end(s, j + 2, hi);
    lemma_marker_space_end_frame(s, t, be + 4, hi);
    assert(checkbox_tail(t, be, hi) == checkbox_tail(s, be, hi));
    if be + 4 <= hi {
        lemma_marker_space_end(s, be + 4, hi);
    }
}

/// Parse the list marker at the start of `b[lo..hi]`.
pub fn parse_list_marker(b: &[u8], lo: usize, hi: usize) -> (r: Option<ParsedListMarker>)
    requires
        lo <= hi <= b@.len(),
    ensures
        r == list_marker(b@, lo as int, hi as int),
        r matches Some(m) ==> lo <= m.marker_start < m.marker_end == m.content_start <= hi
            && m.indent <= 32 && m.number_start <= m.number_end <= m.marker_end,
{
    proof {
        lemma_lead_end(b@, lo as int, hi as int);
    }
    let mut ms = lo;
    let mut indent: usize = 0;
    while ms < hi && (b[ms] == 32u8 || b[ms] == 9u8)
        invariant
            lo <= ms <= hi <= b@.len(),
            indent == lead_cols(b@, lo as int, ms as int),
            indent <= 32,
            lead_end(b@, ms as int, hi as int) == lead_end(b@, lo as int, hi as int),
        decreases hi - ms,
    {
        if b[ms] == 9u8 {
            indent = indent - indent % 4 + 4;
        } else {
            indent = indent + 1;
        }
        ms = ms + 1;
        if indent > 32 {
            proof {
                lemma_lead_end(b@, ms as int, hi as int);
                lemma_lead_cols_mono(b@, lo as int, ms as int, lead_end(b@, lo as int, hi as int));
            }
            return None;
        }
    }
    if indent > 32 || ms >= hi {
        return None;
    }
    let m = b[ms];
    if m == 45u8 || m == 43u8 || m == 42u8 {
        if ms + 1 >= hi || !is_marker_space(b[ms + 1]) {
            return None;
        }
        let be = skip_marker_spaces(b, ms + 2, hi);
        match parse_checkbox_tail(b, be, hi) {
            Some((checked, ce)) => {
                return Some(
                    ParsedListMarker {
                        kind: ParsedListKind::Checkbox(checked),
                        indent,
                        marker_start: ms,
                        marker_end: ce,
                        content_start: ce,
                        unordered_marker: Some(m),
                        ordered_delimiter: None,
                        number_start: ms,
                        number_end: ms,
                        ordered_number: 0,
                    },
                );
            },
            None => {
                return Some(
                    ParsedListMarker {
                        kind: ParsedListKind::Bullet,
                        indent,
                        marker_start: ms,
                        marker_end: be,
                        content_start: be,
                        unordered_marker: Some(m),
                        ordered_delimiter: None,
                        number_start: ms,
                        number_end: ms,
                        ordered_number: 0,
                    },
                );
            },
        }
    }
    if digit(m) {
        proof {
            lemma_digits_end(b@, ms as int, hi as int);
        }
        let mut ne = ms;
        while ne < hi && digit(b[ne])
            invariant
                ms <= ne <= hi <= b@.len(),
                digits_end(b@, ms as int, hi as int) == digits_end(b@, ne as int, hi as int),
            decreases hi - ne,
        {
            ne = ne + 1;
        }
        let dc = ne - ms;
        if dc == 0 || dc > 9 || ne >= hi {
            return None;
        }
        let delim = b[ne];
        if delim != 46u8 && delim != 41u8 {
            return None;
        }
        if ne + 1 >= hi || !is_marker_space(b[ne + 1]) {
            return None;
        }
        let me = skip_marker_spaces(b, ne + 2, hi);
        proof {
            lemma_nine_digits(b@, ms as int, ne as int);
            lemma_pow10_bound(ne - ms);
        }
        let number = parse_u32_or_one(b, ms, ne);
        return Some(
            ParsedListMarker {
                kind: ParsedListKind::Ordered,
                indent,
                marker_start: ms,
                marker_end: me,
                content_start: me,
                unordered_marker: None,
                ordered_delimiter: Some(delim),
                number_start: ms,
                number_end: ne,
                ordered_number: number,
            },
        );
    }
    None
}

/// The line `s[lo..hi]` belongs to an indented code block: it is indented
/// code and carries no list marker (an indented marker starts a nested list
/// item).
pub open spec fn code_line(s: Seq<u8>, lo: int, hi: int) -> bool {
    indented_code_line(s, lo, hi) && list_marker(s, lo, hi) is None
}

pub fn is_code_line(b: &[u8], lo: usize, hi: usize) -> (r: bool)
    requires
        lo <= hi <= b@.len(),
    ensures
        r == code_line(b@, lo as int, hi as int),
{
    is_indented_code_line(b, lo, hi) && parse_list_marker(b, lo, hi).is_none()
}

/// Checkbox at the very start of a trimmed line (`- [x] ...`): marker end,
/// and checked state.
pub open spec fn checkbox_any_indent(s: Seq<u8>, lo: int, hi: int) -> Option<(int, bool)> {
    if hi <= lo || !(s[lo] == 45u8 || s[lo] == 43u8 || s[lo] == 42u8) || lo + 1 >= hi || s[lo
        + 1] != 32u8 {
        None
    } else {
        match checkbox_tail(s, lo + 2, hi) {
            Some((checked, end)) => Some((end, checked)),
            None => None,
        }
    }
}

pub fn parse_checkbox_any_indent(b: &[u8], lo: usize, hi: usize) -> (r: Option<(usize, bool)>)
    requires
        lo <= hi <= b@.len(),
    ensures
        r == (match checkbox_any_indent(b@, lo as int, hi as int) {
            Some((e, c)) => Some((e as usize, c)),
            None => None,
        }),
        r matches Some((e, _)) ==> lo < e <= hi,
{
    if hi <= lo || !(b[lo] == 45u8 || b[lo] == 43u8 || b[lo] == 42u8) || lo + 1 >= hi || b[lo
        + 1] != 32u8 {
        return None;
    }
    match parse_checkbox_tail(b, lo + 2, hi) {
        Some((checked, end)) => Some((end, checked)),
        None => None,
    }
}

/// `s[lo..hi]` has the 8-4-4-4-12 hexadecimal UUID shape.
pub open spec fn uuid_format(s: Seq<u8>, lo: int, hi: int) -> bool {
    hi - lo == 36 && forall|i: int|
        0 <= i < 36 ==> if i == 8 || i == 13 || i == 18 || i == 23 {
            #[trigger] s[lo + i] == 45u8
        } else {
            is_hex(s[lo + i])
        }
}

pub fn is_uuid_format(b: &[u8], lo: usize, hi: usize) -> (r: bool)
    requires
        lo <= hi <= b@.len(),
    ensures
        r == uuid_format(b@, lo as int, hi as int),
{
    if hi - lo != 36 {
        return false;
    }
    let mut i: usize = 0;
    while i < 36
        invariant
            hi - lo == 36,
            hi <= b@.len(),
            i <= 36,
            forall|k: int|
                0 <= k < i ==> if k == 8 || k == 13 || k == 18 || k == 23 {
                    #[trigger] b@[lo + k] == 45u8
                } else {
                    is_hex(b@[lo + k])
                },
        decreases 36 - i,
    {
        let c = b[lo + i];
        if i == 8 || i == 13 || i == 18 || i == 23 {
            if c != 45u8 {
                return false;
            }
        } else if !hexdigit(c) {
            return false;
        }
        i = i + 1;
    }
    true
}

/// Block-level image marker: the trimmed line is exactly `![](` + scheme +
/// UUID + `)`; the UUID's range.
pub open spec fn image_marker_line(s: Seq<u8>, lo: int, hi: int, scheme: Seq<u8>) -> Option<
    (int, int),
> {
    let pre = 4 + scheme.len();
    if hi - lo >= pre + 1 && s[lo] == 33u8 && s[lo + 1] == 91u8 && s[lo + 2] == 93u8 && s[lo + 3]
        == 40u8 && s.subrange(lo + 4, lo + pre) == scheme && s[hi - 1] == 41u8 && uuid_format(
        s,
        lo + pre,
        hi - 1,
    ) {
        Some((lo + pre, hi - 1))
    } else {
        None
    }
}

pub fn parse_image_marker_line(b: &[u8], lo: usize, hi: usize, scheme: &[u8]) -> (r: Option<
    (usize, usize),
>)
    requires
        lo <= hi <= b@.len(),
    ensures
        r == (match image_marker_line(b@, lo as int, hi as int, scheme@) {
            Some((a, z)) => Some((a as usize, z as usize)),
            None => None,
        }),
        r matches Some((a, z)) ==> lo <= a <= z <= hi,
{
    if hi - lo < 5 || scheme.len() > hi - lo - 5 {
        return None;
    }
    let pre = 4 + scheme.len();
    if !(b[lo] == 33u8 && b[lo + 1] == 91u8 && b[lo + 2] == 93u8 && b[lo + 3] == 40u8) {
        return None;
    }
    if !crate::text::range_eq(b, lo + 4, lo + pre, scheme) {
        return None;
    }
    if b[hi - 1] != 41u8 {
        return None;
    }
    if !is_uuid_format(b, lo + pre, hi - 1) {
        return None;
    }
    Some((lo + pre, hi - 1))
}

/// Footnote definition on a trimmed line: `[^label]:` with a non-empty
/// label (up to the first `]` of the line); label range and trimmed text range.
pub open spec fn footnote_def(s: Seq<u8>, lo: int, hi: int) -> Option<(int, int, int, int)> {
    let close = find_byte_pos(s, lo, hi, 93u8);
    if !(hi - lo >= 2 && s[lo] == 91u8 && s[lo + 1] == 94u8) || close >= hi || close <= lo + 2
        || close + 1 >= hi || s[close + 1] != 58u8 {
        None
    } else {
        let ts = close + 2;
        if ts < hi {
            let t = trimmed(s, ts, hi);
            Some((lo + 2, close, t.0, t.1))
        } else {
            Some((lo + 2, close, hi, hi))
        }
    }
}

pub fn parse_footnote_def(b: &[u8], lo: usize, hi: usize) -> (r: Option<
    (usize, usize, usize, usize),
>)
    requires
        lo <= hi <= b@.len(),
    ensures
        r == (match footnote_def(b@, lo as int, hi as int) {
            Some((a, c, d, e)) => Some((a as usize, c as usize, d as usize, e as usize)),
            None => None,
        }),
        r matches Some((a, c, d, e)) ==> lo <= a <= c <= d <= e <= hi,
        footnote_def(b@, lo as int, hi as int) matches Some((a, c, d, e)) ==> lo <= a <= c <= d
            <= e <= hi,
{
    if !(hi - lo >= 2 && b[lo] == 91u8 && b[lo + 1] == 94u8) {
        return None;
    }
    let close = find_byte(b, lo, hi, 93u8);
    if close >= hi || close <= lo + 2 || close + 1 >= hi || b[close + 1] != 58u8 {
        return None;
    }
    let ts = close + 2;
    if ts < hi {
        let (a, z) = trim(b, ts, hi);
        Some((lo + 2, close, a, z))
    } else {
        Some((lo + 2, close, hi, hi))
    }
}

/// Table row: contains `|` and does not start with `|--` after trimming.
pub open spec fn table_row(s: Seq<u8>, lo: int, hi: int) -> bool {
    (exists|j: int| lo <= j < hi && s[j] == 124u8) && !starts_with_at(
        s,
        trim_start_pos(s, lo, hi),
        hi,
        seq![124u8, 45u8, 45u8],
    )
}

pub fn is_table_row(b: &[u8], lo: usize, hi: usize) -> (r: bool)
    requires
        lo <= hi <= b@.len(),
    ensures
        r == table_row(b@, lo as int, hi as int),
{
    let has_pipe = contains_byte(b, lo, hi, 124u8);
    let a = trim_start(b, lo, hi);
    let lit: [u8; 3] = [124u8, 45u8, 45u8];
    let starts = has_prefix(b, a, hi, lit.as_slice());
    proof {
        assert(lit@ =~= seq![124u8, 45u8, 45u8]);
    }
    has_pipe && !starts
}

/// Table separator: only spaces, `|`, `-` and `:`, with at least one `-`
/// and one `|`.
pub open spec fn table_separator(s: Seq<u8>, lo: int, hi: int) -> bool {
    (forall|j: int|
        lo <= j < hi ==> (#[trigger] s[j] == 32u8 || s[j] == 124u8 || s[j] == 45u8 || s[j]
            == 58u8)) && (exists|j: int| lo <= j < hi && s[j] == 45u8) && (exists|j: int|
        lo <= j < hi && s[j] == 124u8)
}

pub fn is_table_separator(b: &[u8], lo: usize, hi: usize) -> (r: bool)
    requires
        lo <= hi <= b@.len(),
    ensures
        r == table_separator(b@, lo as int, hi as int),
{
    let mut k = lo;
    while k < hi
        invariant
            lo <= k <= hi <= b@.len(),
            forall|j: int|
                lo <= j < k ==> (#[trigger] b@[j] == 32u8 || b@[j] == 124u8 || b@[j] == 45u8
                    || b@[j] == 58u8),
        decreases hi - k,
    {
        let c = b[k];
        if !(c == 32u8 || c == 124u8 || c == 45u8 || c == 58u8) {
            return false;
        }
        k = k + 1;
    }
    contains_byte(b, lo, hi, 45u8) && contains_byte(b, lo, hi, 124u8)
}

/// The `|`-separated cells of `s[lo..hi]`, each trimmed, without an empty
/// first or last cell.
pub open spec fn pipe_segments(s: Seq<u8>, lo: int, hi: int) -> Seq<(int, int)>
    decreases hi - lo,
{
    let p = find_byte_pos(s, lo, hi, 124u8);
    if lo > hi {
        Seq::empty()
    } else if p >= hi || p < lo {
        seq![(lo, hi)]
    } else {
        seq![(lo, p)] + pipe_segments(s, p + 1, hi)
    }
}


/// `find_byte_pos` lands on the first `c`.
pub proof fn lemma_find_at(s: Seq<u8>, p: int, q: int, e: int, c: u8)
    requires
        0 <= p <= q < e <= s.len(),
        s[q] == c,
        forall|j: int| p <= j < q ==> s[j] != c,
    ensures
        crate::text::find_byte_pos(s, p, e, c) == q,
    decreases q - p,
{
    if p < q {
        lemma_find_at(s, p + 1, q, e, c);
    }
}

/// The `[` of a checkbox marker is the first `[` of the marker, and its
/// state byte lies inside the line.
pub proof fn lemma_list_marker_checkbox(s: Seq<u8>, lo: int, hi: int)
    requires
        0 <= lo <= hi <= s.len(),
        s.len() <= usize::MAX,
        list_marker(s, lo, hi) matches Some(m) && m.kind is Checkbox,
    ensures
        ({
            let m = list_marker(s, lo, hi)->0;
            let q = crate::text::find_byte_pos(s, m.marker_start as int, m.marker_end as int, 91u8);
            lo <= q && q + 2 < hi && s[q] == 91u8
        }),
{
    let ms = lead_end(s, lo, hi);
    lemma_lead_end(s, lo, hi);
    lemma_marker_space_end(s, ms + 2, hi);
    let be = marker_space_end(s, ms + 2, hi);
    let m = list_marker(s, lo, hi)->0;
    assert(m.marker_start == ms);
    assert(s[be] == 91u8);
    assert forall|j: int| ms <= j < be implies s[j] != 91u8 by {
        if j > ms + 1 {
            assert(marker_space(s[j]));
        }
    }
    if be + 4 <= hi {
        lemma_marker_space_end(s, be + 4, hi);
    }
    assert(m.marker_end >= be + 3);
    lemma_find_at(s, ms, be, m.marker_end as int, 91u8);
}

} // verus!
