//! Inline span parser.
//!
//! Scans the text of each block for inline formatting, in priority order:
//! inline code, `%%comments%%`, wiki links, markdown links, angle-bracket
//! autolinks, bare URLs / emails / subreddits, hex colors, emphasis (a
//! delimiter-run algorithm), strikethrough, highlights, HTML underline,
//! tilde underline and footnote references. A higher-priority span claims
//! its byte range; most lower-priority spans that overlap a claim are
//! dropped.
//!
//! All positions are absolute byte offsets into the source; a block's text
//! is the window `[lo, hi)`. Every span lies inside the window, its content
//! inside its markers, and the spans of a block come sorted by start.
use vstd::prelude::*;
use crate::ast::{BlockKind, BlockNode, InlineKind, InlineSpan};
use crate::text::{
    alnum, alpha, ascii_ws, digit, hexdigit, has_prefix, range_eq, range_eq_ignore_case,
    string_from_range, string_from_bytes, push_range, push_all, to_lower, lossy_text, utf8_text,
    is_alnum, is_hex, lower_seq,
};
use crate::utf16::{Utf16Map, utf16_offset, lemma_utf16_offset_mono};

verus! {

// ---------------------------------------------------------------------------
// Spans and claims
// ---------------------------------------------------------------------------

/// Every byte of `s[a..z]` is `c`.
pub open spec fn all_byte(s: Seq<u8>, a: int, z: int, c: u8) -> bool {
    forall|j: int| a <= j < z ==> #[trigger] s[j] == c
}

/// The bytes as text when they are valid UTF-8, else the empty text.
pub open spec fn utf8_or_empty(x: Seq<u8>) -> Seq<char> {
    if vstd::utf8::valid_utf8(x) {
        vstd::utf8::decode_utf8(x)
    } else {
        Seq::empty()
    }
}

/// The bytes `s[a..e]` are a span of kind `k` whose content is `s[c0..c1]`:
/// the markers around the content are those of the kind.
pub open spec fn shape_at(s: Seq<u8>, k: InlineKind, a: int, c0: int, c1: int, e: int) -> bool {
    match k {
        InlineKind::InlineCode => a < c0 && c0 - a == e - c1 && all_byte(s, a, c0, 96u8)
            && all_byte(s, c1, e, 96u8),
        InlineKind::Comment => c0 == a + 2 && e == c1 + 2 && all_byte(s, a, c0, 37u8) && all_byte(
            s,
            c1,
            e,
            37u8,
        ),
        InlineKind::Strikethrough => c0 == a + 2 && e == c1 + 2 && all_byte(s, a, c0, 126u8)
            && all_byte(s, c1, e, 126u8),
        InlineKind::UnderlineTilde => c0 == a + 1 && e == c1 + 1 && s[a] == 126u8 && s[c1]
            == 126u8,
        InlineKind::WikiLink => a + 2 <= c0 && e == c1 + 2 && all_byte(s, a, a + 2, 91u8)
            && all_byte(s, c1, e, 93u8),
        InlineKind::Link { url } => c0 == a + 1 && s[a] == 91u8 && s[c1] == 93u8 && c1 + 1 < e
            && s[c1 + 1] == 40u8 && s[e - 1] == 41u8 && url@ == utf8_or_empty(
            s.subrange(c1 + 2, e - 1),
        ),
        InlineKind::AutoLink { .. } => (c0 == a + 1 && e == c1 + 1 && s[a] == 60u8 && s[c1]
            == 62u8) || (a == c0 && c1 == e && a < e),
        InlineKind::UnderlineHtml => c0 == a + 3 && e == c1 + 4 && s.subrange(a, c0) == seq![
            60u8,
            117u8,
            62u8,
        ] && s.subrange(c1, e) == seq![60u8, 47u8, 117u8, 62u8],
        InlineKind::FootnoteRef => c0 == a + 2 && e == c1 + 1 && s[a] == 91u8 && s[a + 1] == 94u8
            && s[c1] == 93u8 && c0 < c1,
        InlineKind::HexColor { hex } => c0 == a + 1 && c1 == e && s[a] == 35u8 && (e - c0 == 3
            || e - c0 == 4 || e - c0 == 6 || e - c0 == 8) && hex@ == utf8_text(
            normalized_hex(s, c0, e - c0),
        ),
        InlineKind::Highlight => a + 2 <= c0 && e == c1 + 2 && all_byte(s, a, a + 2, 61u8)
            && all_byte(s, c1, e, 61u8),
        InlineKind::HighlightColor(c) => c < 6 && a + 2 <= c0 && e == c1 + 2 && all_byte(s, a, a + 2, 61u8)
            && all_byte(s, c1, e, 61u8),
        InlineKind::HighlightHex { .. } => a + 2 <= c0 && e == c1 + 2 && all_byte(
            s,
            a,
            a + 2,
            61u8,
        ) && all_byte(s, c1, e, 61u8),
        InlineKind::Italic => c0 == a + 1 && e == c1 + 1 && all_byte(s, a, c0, 42u8) && all_byte(
            s,
            c1,
            e,
            42u8,
        ),
        InlineKind::Bold => c0 == a + 2 && e == c1 + 2 && all_byte(s, a, c0, 42u8) && all_byte(
            s,
            c1,
            e,
            42u8,
        ),
        InlineKind::BoldItalic => c0 == a + 3 && e == c1 + 3 && all_byte(s, a, c0, 42u8)
            && all_byte(s, c1, e, 42u8),
    }
}

/// The span covers bytes `s[a..e]` of the window `[lo, hi)` with content
/// `s[c0..c1]`, and its markers are those of its kind.
pub open spec fn span_bytes(s: Seq<u8>, sp: InlineSpan, lo: int, hi: int) -> bool {
    exists|a: int, c0: int, c1: int, e: int|
        #![trigger shape_at(s, sp.kind, a, c0, c1, e)]
        lo <= a <= c0 <= c1 <= e <= hi && sp.utf16_start == utf16_offset(s, a) && sp.utf16_end
            == utf16_offset(s, e) && sp.content_utf16_start == utf16_offset(s, c0)
            && sp.content_utf16_end == utf16_offset(s, c1) && shape_at(s, sp.kind, a, c0, c1, e)
}

/// The span lies in the window `[lo, hi)` of `s` (in UTF-16 units), with its
/// content inside its markers, and comes from bytes of the window that carry
/// the markers of its kind.
pub open spec fn span_in(s: Seq<u8>, sp: InlineSpan, lo: int, hi: int) -> bool {
    &&& utf16_offset(s, lo) <= sp.utf16_start
    &&& sp.nested()
    &&& sp.utf16_end <= utf16_offset(s, hi)
    &&& span_bytes(s, sp, lo, hi)
}

/// Every span lies in the window.
pub open spec fn all_in(s: Seq<u8>, sps: Seq<InlineSpan>, lo: int, hi: int) -> bool {
    forall|k: int| 0 <= k < sps.len() ==> span_in(s, #[trigger] sps[k], lo, hi)
}

/// Spans ordered by start.
pub open spec fn sorted_by_start(sps: Seq<InlineSpan>) -> bool {
    forall|i: int, j: int| 0 <= i < j < sps.len() ==> #[trigger] sps[i].utf16_start <= #[trigger] sps[j].utf16_start
}

/// Build a span from absolute byte positions.
fn make_span(
    kind: InlineKind,
    a: usize,
    e: usize,
    c0: usize,
    c1: usize,
    b: &[u8],
    map: &Utf16Map,
    lo: Ghost<int>,
    hi: Ghost<int>,
) -> (sp: InlineSpan)
    requires
        map.wf_for(b@),
        lo@ <= a <= c0 <= c1 <= e <= hi@ <= b@.len(),
        shape_at(b@, kind, a as int, c0 as int, c1 as int, e as int),
    ensures
        sp.kind == kind,
        sp.utf16_start == utf16_offset(b@, a as int),
        sp.utf16_end == utf16_offset(b@, e as int),
        sp.content_utf16_start == utf16_offset(b@, c0 as int),
        sp.content_utf16_end == utf16_offset(b@, c1 as int),
        span_in(b@, sp, lo@, hi@),
{
    proof {
        lemma_utf16_offset_mono(b@, lo@, a as int);
        lemma_utf16_offset_mono(b@, a as int, c0 as int);
        lemma_utf16_offset_mono(b@, c0 as int, c1 as int);
        lemma_utf16_offset_mono(b@, c1 as int, e as int);
        lemma_utf16_offset_mono(b@, e as int, hi@);
    }
    InlineSpan {
        kind,
        utf16_start: map.byte_to_utf16(a as u32, b),
        utf16_end: map.byte_to_utf16(e as u32, b),
        content_utf16_start: map.byte_to_utf16(c0 as u32, b),
        content_utf16_end: map.byte_to_utf16(c1 as u32, b),
    }
}

/// `[start, end)` overlaps one of the ranges.
pub open spec fn overlaps_in(rs: Seq<(usize, usize)>, start: int, end: int) -> bool {
    exists|k: int| 0 <= k < rs.len() && start < (#[trigger] rs[k]).1 && end > rs[k].0
}

/// The span of kind `k` on `s[a..e]` with content `s[c0..c1]`.
pub open spec fn span_of(s: Seq<u8>, k: InlineKind, a: int, c0: int, c1: int, e: int) -> InlineSpan {
    InlineSpan {
        kind: k,
        utf16_start: utf16_offset(s, a) as u32,
        utf16_end: utf16_offset(s, e) as u32,
        content_utf16_start: utf16_offset(s, c0) as u32,
        content_utf16_end: utf16_offset(s, c1) as u32,
    }
}

/// A span found by a scan: its kind, its bytes `a..e` and content `c0..c1`.
pub struct Found {
    pub kind: InlineKind,
    pub a: int,
    pub c0: int,
    pub c1: int,
    pub e: int,
}

/// The spans of what a scan found.
pub open spec fn found_spans(s: Seq<u8>, f: Seq<Found>) -> Seq<InlineSpan> {
    f.map_values(|x: Found| span_of(s, x.kind, x.a, x.c0, x.c1, x.e))
}

/// The ranges a scan claimed: those of what it found.
pub open spec fn found_claims(f: Seq<Found>) -> Seq<(usize, usize)> {
    f.map_values(|x: Found| (x.a as usize, x.e as usize))
}

/// A link found by an autolink scan: its bytes `a..e`, content `c0..c1`,
/// and its URL: `pre` followed by the text of `s[ua..uz]`.
pub struct LinkFound {
    pub a: int,
    pub c0: int,
    pub c1: int,
    pub e: int,
    pub pre: Seq<u8>,
    pub ua: int,
    pub uz: int,
}

/// The URL text of `x`: the UTF-8 text of `s[ua..uz]` (empty when invalid)
/// without a prefix; with one, the prefix and those bytes as text.
pub open spec fn link_url_fits(s: Seq<u8>, url: Seq<char>, x: LinkFound) -> bool {
    if x.pre.len() == 0 {
        url == utf8_or_empty(s.subrange(x.ua, x.uz))
    } else {
        vstd::utf8::valid_utf8(s.subrange(x.ua, x.uz)) ==> url == lossy_text(
            x.pre + s.subrange(x.ua, x.uz),
        )
    }
}

/// `sp` is the autolink span of `x`.
pub open spec fn link_fits(s: Seq<u8>, sp: InlineSpan, x: LinkFound) -> bool {
    &&& sp.kind matches InlineKind::AutoLink { url } && link_url_fits(s, url@, x)
    &&& sp.utf16_start == utf16_offset(s, x.a)
    &&& sp.utf16_end == utf16_offset(s, x.e)
    &&& sp.content_utf16_start == utf16_offset(s, x.c0)
    &&& sp.content_utf16_end == utf16_offset(s, x.c1)
}

/// `sps` are the spans of the links `f`, in order.
pub open spec fn links_fit(s: Seq<u8>, sps: Seq<InlineSpan>, f: Seq<LinkFound>) -> bool {
    &&& sps.len() == f.len()
    &&& forall|k: int| 0 <= k < f.len() ==> link_fits(s, #[trigger] sps[k], f[k])
}

/// The ranges the links `f` claim.
pub open spec fn link_claims(f: Seq<LinkFound>) -> Seq<(usize, usize)> {
    f.map_values(|x: LinkFound| (x.a as usize, x.e as usize))
}

/// `sps` is `sp0` followed by the spans of the links `f`.
pub open spec fn extends_with_links(s: Seq<u8>, sps: Seq<InlineSpan>, sp0: Seq<InlineSpan>, f: Seq<LinkFound>) -> bool {
    &&& sps.len() == sp0.len() + f.len()
    &&& sps.subrange(0, sp0.len() as int) == sp0
    &&& links_fit(s, sps.subrange(sp0.len() as int, sps.len() as int), f)
}

/// Appending the span of one more link keeps `extends_with_links`.
pub proof fn lemma_links_push(
    s: Seq<u8>,
    sps: Seq<InlineSpan>,
    sp0: Seq<InlineSpan>,
    f: Seq<LinkFound>,
    sp: InlineSpan,
    x: LinkFound,
)
    requires
        extends_with_links(s, sps, sp0, f),
        link_fits(s, sp, x),
    ensures
        extends_with_links(s, sps.push(sp), sp0, f.push(x)),
        link_claims(f.push(x)) == link_claims(f).push((x.a as usize, x.e as usize)),
{
    let t0 = sps.subrange(sp0.len() as int, sps.len() as int);
    let n = sps.push(sp);
    let t1 = n.subrange(sp0.len() as int, n.len() as int);
    assert(n.subrange(0, sp0.len() as int) =~= sps.subrange(0, sp0.len() as int));
    assert(t1 =~= t0.push(sp));
    assert forall|k: int| 0 <= k < f.len() + 1 implies link_fits(s, #[trigger] t1[k], f.push(x)[k]) by {
        if k < f.len() {
            assert(t1[k] == t0[k]);
        }
    }
    assert(link_claims(f.push(x)) =~= link_claims(f).push((x.a as usize, x.e as usize)));
}

/// Byte ranges taken by higher-priority spans.
pub struct ClaimedRanges {
    pub ranges: Vec<(usize, usize)>,
}

impl ClaimedRanges {
    /// `[start, end)` overlaps a claimed range.
    pub open spec fn overlaps_spec(&self, start: int, end: int) -> bool {
        overlaps_in(self.ranges@, start, end)
    }

    pub fn new() -> (c: Self)
        ensures
            c.ranges@.len() == 0,
    {
        ClaimedRanges { ranges: Vec::new() }
    }

    pub fn claim(&mut self, start: usize, end: usize)
        ensures
            final(self).ranges@ == old(self).ranges@.push((start, end)),
    {
        self.ranges.push((start, end));
    }

    pub fn overlaps(&self, start: usize, end: usize) -> (r: bool)
        ensures
            r == self.overlaps_spec(start as int, end as int),
    {
        let mut k: usize = 0;
        while k < self.ranges.len()
            invariant
                k <= self.ranges@.len(),
                forall|j: int|
                    0 <= j < k ==> !(start < (#[trigger] self.ranges@[j]).1 && end
                        > self.ranges@[j].0),
            decreases self.ranges@.len() - k,
        {
            let (rs, re) = self.ranges[k];
            if start < re && end > rs {
                return true;
            }
            k = k + 1;
        }
        false
    }
}

// ---------------------------------------------------------------------------
// Escapes and small helpers
// ---------------------------------------------------------------------------

/// Number of consecutive backslashes right before `p` inside the window.
pub open spec fn backslash_run(s: Seq<u8>, lo: int, p: int) -> int
    decreases p - lo,
{
    if p > lo && s[p - 1] == 92u8 {
        1 + backslash_run(s, lo, p - 1)
    } else {
        0
    }
}

/// The byte at `p` is escaped: an odd run of backslashes precedes it.
pub open spec fn escaped(s: Seq<u8>, lo: int, p: int) -> bool {
    backslash_run(s, lo, p) % 2 == 1
}

fn is_escaped(b: &[u8], lo: usize, p: usize) -> (r: bool)
    requires
        lo <= p <= b@.len(),
    ensures
        r == escaped(b@, lo as int, p as int),
{
    let mut count: usize = 0;
    let mut i = p;
    while i > lo && b[i - 1] == 92u8
        invariant
            lo <= i <= p <= b@.len(),
            count == p - i,
            count + backslash_run(b@, lo as int, i as int) == backslash_run(
                b@,
                lo as int,
                p as int,
            ),
        decreases i - lo,
    {
        count = count + 1;
        i = i - 1;
    }
    count % 2 == 1
}

/// `b[p..]` (within `hi`) starts with `lit`.
fn at(b: &[u8], p: usize, hi: usize, lit: &[u8]) -> (r: bool)
    requires
        p <= hi <= b@.len(),
    ensures
        r == crate::text::starts_with_at(b@, p as int, hi as int, lit@),
{
    has_prefix(b, p, hi, lit)
}

// ---------------------------------------------------------------------------
// Inline code
// ---------------------------------------------------------------------------

/// The first run of exactly `n` backticks in `s[j..hi]`: its start and end;
/// runs of other lengths are passed over.
pub open spec fn closing_run(s: Seq<u8>, j: int, hi: int, n: int) -> Option<(int, int)>
    decreases hi - j,
{
    if j < 0 || j >= hi || hi > s.len() {
        None
    } else if s[j] == 96u8 {
        let e = crate::lines::run_end(s, j, hi, 96u8);
        if e - j == n {
            Some((j, e))
        } else {
            proof {
                crate::lines::lemma_run_end(s, j, hi, 96u8);
            }
            closing_run(s, e, hi, n)
        }
    } else {
        closing_run(s, j + 1, hi, n)
    }
}

/// Bounds of a closing run.
pub proof fn lemma_closing_run(s: Seq<u8>, j: int, hi: int, n: int)
    requires
        0 <= j,
    ensures
        closing_run(s, j, hi, n) matches Some((cs, ce)) ==> j <= cs && cs + n == ce && ce <= hi
            && all_byte(s, cs, ce, 96u8),
    decreases hi - j,
{
    if 0 <= j < hi && hi <= s.len() {
        crate::lines::lemma_run_end(s, j, hi, 96u8);
        if s[j] == 96u8 {
            let e = crate::lines::run_end(s, j, hi, 96u8);
            if e - j != n {
                lemma_closing_run(s, e, hi, n);
            }
        } else {
            lemma_closing_run(s, j + 1, hi, n);
        }
    }
}

/// The inline code spans of the window `s[lo..hi]` from position `i` on, as
/// `(start, content start, content end, end)`: an unescaped backtick run
/// opens, the first later run of the same length closes, and scanning goes
/// on after it; an opening run that is never closed ends the scan.
pub open spec fn code_runs(s: Seq<u8>, lo: int, i: int, hi: int) -> Seq<(int, int, int, int)>
    decreases hi - i,
{
    if i < 0 || i >= hi || hi > s.len() {
        Seq::empty()
    } else if s[i] == 96u8 && !escaped(s, lo, i) {
        let oe = crate::lines::run_end(s, i, hi, 96u8);
        match closing_run(s, oe, hi, oe - i) {
            Some((cs, ce)) => {
                proof {
                    crate::lines::lemma_run_end(s, i, hi, 96u8);
                    lemma_closing_run(s, oe, hi, oe - i);
                }
                seq![(i, oe, cs, ce)] + code_runs(s, lo, ce, hi)
            },
            None => Seq::empty(),
        }
    } else {
        code_runs(s, lo, i + 1, hi)
    }
}

/// The span of an inline code run.
pub open spec fn code_span(s: Seq<u8>, t: (int, int, int, int)) -> InlineSpan {
    InlineSpan {
        kind: InlineKind::InlineCode,
        utf16_start: utf16_offset(s, t.0) as u32,
        utf16_end: utf16_offset(s, t.3) as u32,
        content_utf16_start: utf16_offset(s, t.1) as u32,
        content_utf16_end: utf16_offset(s, t.2) as u32,
    }
}

/// The spans of the inline code runs of `s[lo..hi]` from `i` on.
pub open spec fn code_spans(s: Seq<u8>, lo: int, i: int, hi: int) -> Seq<InlineSpan> {
    code_runs(s, lo, i, hi).map_values(|t: (int, int, int, int)| code_span(s, t))
}

/// The ranges the inline code runs of `s[lo..hi]` from `i` on claim.
pub open spec fn code_claims(s: Seq<u8>, lo: int, i: int, hi: int) -> Seq<(usize, usize)> {
    code_runs(s, lo, i, hi).map_values(|t: (int, int, int, int)| (t.0 as usize, t.3 as usize))
}

/// Inline code: a backtick run closed by a run of exactly the same length.
#[verifier::loop_isolation(false)]
fn parse_inline_code(
    b: &[u8],
    lo: usize,
    hi: usize,
    map: &Utf16Map,
    spans: &mut Vec<InlineSpan>,
    claimed: &mut ClaimedRanges,
)
    requires
        lo <= hi <= b@.len(),
        map.wf_for(b@),
        all_in(b@, old(spans)@, lo as int, hi as int),
    ensures
        all_in(b@, final(spans)@, lo as int, hi as int),
        final(spans)@ == old(spans)@ + code_spans(b@, lo as int, lo as int, hi as int),
        final(claimed).ranges@ == old(claimed).ranges@ + code_claims(b@, lo as int, lo as int, hi as int),
{
    let ghost start = spans@;
    let ghost c0 = claimed.ranges@;
    let mut i = lo;
    while i < hi
        invariant
            lo <= i <= hi <= b@.len(),
            all_in(b@, spans@, lo as int, hi as int),
            spans@ + code_spans(b@, lo as int, i as int, hi as int) == start + code_spans(
                b@,
                lo as int,
                lo as int,
                hi as int,
            ),
            claimed.ranges@ + code_claims(b@, lo as int, i as int, hi as int) == c0 + code_claims(
                b@,
                lo as int,
                lo as int,
                hi as int,
            ),
        decreases hi - i,
    {
        if b[i] == 96u8 {
            if is_escaped(b, lo, i) {
                i = i + 1;
                continue;
            }
            let open = i;
            while i < hi && b[i] == 96u8
                invariant
                    open <= i <= hi,
                    all_byte(b@, open as int, i as int, 96u8),
                    crate::lines::run_end(b@, i as int, hi as int, 96u8) == crate::lines::run_end(
                        b@,
                        open as int,
                        hi as int,
                        96u8,
                    ),
                decreases hi - i,
            {
                i = i + 1;
            }
            let open_count = i - open;
            let ghost before = spans@;
            let ghost cl0 = claimed.ranges@;
            let ghost oe = i as int;
            while i < hi
                invariant
                    open + open_count <= i <= hi,
                    oe == open + open_count,
                    open_count > 0,
                    all_byte(b@, open as int, open + open_count, 96u8),
                    all_in(b@, spans@, lo as int, hi as int),
                    spans@ == before,
                    claimed.ranges@ == cl0,
                    closing_run(b@, i as int, hi as int, open_count as int) == closing_run(
                        b@,
                        oe,
                        hi as int,
                        open_count as int,
                    ),
                decreases hi - i,
            {
                if b[i] == 96u8 {
                    let close_start = i;
                    while i < hi && b[i] == 96u8
                        invariant
                            close_start <= i <= hi,
                            all_byte(b@, close_start as int, i as int, 96u8),
                            crate::lines::run_end(b@, i as int, hi as int, 96u8)
                                == crate::lines::run_end(b@, close_start as int, hi as int, 96u8),
                        decreases hi - i,
                    {
                        i = i + 1;
                    }
                    let close_count = i - close_start;
                    if close_count == open_count {
                        claimed.claim(open, i);
                        let sp = make_span(
                            InlineKind::InlineCode,
                            open,
                            i,
                            open + open_count,
                            close_start,
                            b,
                            map,
                            Ghost(lo as int),
                            Ghost(hi as int),
                        );
                        spans.push(sp);
                        proof {
                            let t = (open as int, oe, close_start as int, i as int);
                            assert(code_runs(b@, lo as int, open as int, hi as int) =~= seq![t]
                                + code_runs(b@, lo as int, i as int, hi as int));
                            assert(sp == code_span(b@, t));
                            assert(code_spans(b@, lo as int, open as int, hi as int) =~= seq![
                                sp,
                            ] + code_spans(b@, lo as int, i as int, hi as int));
                            assert(code_claims(b@, lo as int, open as int, hi as int) =~= seq![
                                (open, i),
                            ] + code_claims(b@, lo as int, i as int, hi as int));
                            assert(claimed.ranges@ + code_claims(b@, lo as int, i as int, hi as int)
                                =~= cl0 + code_claims(b@, lo as int, open as int, hi as int));
                        }
                        break;
                    }
                } else {
                    i = i + 1;
                }
            }
            proof {
                if spans@ == before {
                    // No closing run: the scan ends.
                    assert(i == hi);
                    assert(code_spans(b@, lo as int, open as int, hi as int) =~= Seq::<
                        InlineSpan,
                    >::empty());
                    assert(code_spans(b@, lo as int, i as int, hi as int) =~= Seq::<
                        InlineSpan,
                    >::empty());
                    assert(code_claims(b@, lo as int, open as int, hi as int) =~= Seq::<
                        (usize, usize),
                    >::empty());
                    assert(code_claims(b@, lo as int, i as int, hi as int) =~= Seq::<
                        (usize, usize),
                    >::empty());
                }
            }
        } else {
            i = i + 1;
        }
    }
    proof {
        assert(code_spans(b@, lo as int, i as int, hi as int) =~= Seq::<InlineSpan>::empty());
        assert(spans@ =~= start + code_spans(b@, lo as int, lo as int, hi as int));
        assert(code_claims(b@, lo as int, i as int, hi as int) =~= Seq::<(usize, usize)>::empty());
        assert(claimed.ranges@ =~= c0 + code_claims(b@, lo as int, lo as int, hi as int));
    }
}

// ---------------------------------------------------------------------------
// Generic paired markers
// ---------------------------------------------------------------------------

/// A copy of an inline kind.
pub(crate) fn copy_inline_kind(k: &InlineKind) -> (r: InlineKind)
    ensures
        r == *k,
{
    match k {
        InlineKind::Bold => InlineKind::Bold,
        InlineKind::Italic => InlineKind::Italic,
        InlineKind::BoldItalic => InlineKind::BoldItalic,
        InlineKind::Strikethrough => InlineKind::Strikethrough,
        InlineKind::UnderlineTilde => InlineKind::UnderlineTilde,
        InlineKind::UnderlineHtml => InlineKind::UnderlineHtml,
        InlineKind::InlineCode => InlineKind::InlineCode,
        InlineKind::Highlight => InlineKind::Highlight,
        InlineKind::HighlightColor(c) => InlineKind::HighlightColor(*c),
        InlineKind::HighlightHex { hex } => InlineKind::HighlightHex { hex: hex.clone() },
        InlineKind::Link { url } => InlineKind::Link { url: url.clone() },
        InlineKind::AutoLink { url } => InlineKind::AutoLink { url: url.clone() },
        InlineKind::WikiLink => InlineKind::WikiLink,
        InlineKind::FootnoteRef => InlineKind::FootnoteRef,
        InlineKind::Comment => InlineKind::Comment,
        InlineKind::HexColor { hex } => InlineKind::HexColor { hex: hex.clone() },
    }
}

/// The first unescaped two-byte marker `m` at or after `j`.
pub open spec fn pair_close(s: Seq<u8>, lo: int, j: int, hi: int, m: Seq<u8>) -> Option<int>
    decreases hi - j,
{
    if j < 0 || hi > s.len() || j + 2 > hi {
        None
    } else if crate::text::starts_with_at(s, j, hi, m) && !escaped(s, lo, j) {
        Some(j)
    } else {
        pair_close(s, lo, j + 1, hi, m)
    }
}

pub proof fn lemma_pair_close(s: Seq<u8>, lo: int, j: int, hi: int, m: Seq<u8>)
    ensures
        pair_close(s, lo, j, hi, m) matches Some(c) ==> j <= c && c + 2 <= hi,
    decreases hi - j,
{
    if !(j < 0 || hi > s.len() || j + 2 > hi) && !(crate::text::starts_with_at(s, j, hi, m)
        && !escaped(s, lo, j)) {
        lemma_pair_close(s, lo, j + 1, hi, m);
    }
}

/// The first `</u>` at or after `j`.
pub open spec fn u_close(s: Seq<u8>, j: int, hi: int) -> Option<int>
    decreases hi - j,
{
    if j < 0 || hi > s.len() || j + 4 > hi {
        None
    } else if crate::text::starts_with_at(s, j, hi, seq![60u8, 47u8, 117u8, 62u8]) {
        Some(j)
    } else {
        u_close(s, j + 1, hi)
    }
}

pub proof fn lemma_u_close(s: Seq<u8>, j: int, hi: int)
    ensures
        u_close(s, j, hi) matches Some(c) ==> j <= c && c + 4 <= hi,
    decreases hi - j,
{
    if !(j < 0 || hi > s.len() || j + 4 > hi) && !crate::text::starts_with_at(
        s,
        j,
        hi,
        seq![60u8, 47u8, 117u8, 62u8],
    ) {
        lemma_u_close(s, j + 1, hi);
    }
}

/// The `<u>…</u>` spans a scan of `s[lo..hi]` from `i` finds, given the
/// claimed ranges: an unescaped `<u>`, the first `</u>` after it; a span
/// overlapping a claim is dropped, a found span is claimed; an opener
/// without a closer ends the scan.
pub open spec fn u_scan(s: Seq<u8>, lo: int, i: int, hi: int, claims: Seq<(usize, usize)>) -> Seq<
    Found,
>
    decreases hi - i,
{
    if i < 0 || hi > s.len() || i + 3 > hi {
        Seq::empty()
    } else if crate::text::starts_with_at(s, i, hi, seq![60u8, 117u8, 62u8]) && !escaped(s, lo, i) {
        match u_close(s, i + 3, hi) {
            Some(c) => {
                proof {
                    lemma_u_close(s, i + 3, hi);
                }
                if overlaps_in(claims, i, c + 4) {
                    u_scan(s, lo, c + 4, hi, claims)
                } else {
                    seq![Found { kind: InlineKind::UnderlineHtml, a: i, c0: i + 3, c1: c, e: c + 4 }]
                        + u_scan(s, lo, c + 4, hi, claims.push((i as usize, (c + 4) as usize)))
                }
            },
            None => Seq::empty(),
        }
    } else {
        u_scan(s, lo, i + 1, hi, claims)
    }
}

/// No `<u>…</u>` fits in `s[i..hi]` when fewer than seven bytes are left.
pub proof fn lemma_u_scan_tail(s: Seq<u8>, lo: int, i: int, hi: int, claims: Seq<(usize, usize)>)
    requires
        i + 7 > hi,
    ensures
        u_scan(s, lo, i, hi, claims) == Seq::<Found>::empty(),
    decreases hi - i,
{
    if !(i < 0 || hi > s.len() || i + 3 > hi) {
        if !(crate::text::starts_with_at(s, i, hi, seq![60u8, 117u8, 62u8]) && !escaped(s, lo, i)) {
            lemma_u_scan_tail(s, lo, i + 1, hi, claims);
        }
    }
}

/// The `m ... m` spans of kind `k` that a scan of `s[lo..hi]` from `i`
/// finds, given the claimed ranges `claims`: an unescaped opening marker,
/// the first unescaped closing marker after it; a span overlapping a claim
/// is dropped (scanning goes on after its closer), a found span is claimed;
/// an opener without a closer ends the scan.
pub open spec fn pair_scan(
    s: Seq<u8>,
    lo: int,
    i: int,
    hi: int,
    m: Seq<u8>,
    k: InlineKind,
    claims: Seq<(usize, usize)>,
) -> Seq<Found>
    decreases hi - i,
{
    if i < 0 || hi > s.len() || i + 2 > hi {
        Seq::empty()
    } else if crate::text::starts_with_at(s, i, hi, m) && !escaped(s, lo, i) {
        match pair_close(s, lo, i + 2, hi, m) {
            Some(c) => {
                proof {
                    lemma_pair_close(s, lo, i + 2, hi, m);
                }
                if overlaps_in(claims, i, c + 2) {
                    pair_scan(s, lo, c + 2, hi, m, k, claims)
                } else {
                    seq![Found { kind: k, a: i, c0: i + 2, c1: c, e: c + 2 }] + pair_scan(
                        s,
                        lo,
                        c + 2,
                        hi,
                        m,
                        k,
                        claims.push((i as usize, (c + 2) as usize)),
                    )
                }
            },
            None => Seq::empty(),
        }
    } else {
        pair_scan(s, lo, i + 1, hi, m, k, claims)
    }
}

/// `open` ... `close` pairs (strikethrough `~~`, comments `%%`): the
/// closer must not be escaped; overlapping a claim drops the span.
#[verifier::loop_isolation(false)]
fn parse_paired_marker(
    b: &[u8],
    lo: usize,
    hi: usize,
    map: &Utf16Map,
    open_marker: &[u8],
    close_marker: &[u8],
    kind: InlineKind,
    spans: &mut Vec<InlineSpan>,
    claimed: &mut ClaimedRanges,
)
    requires
        lo <= hi <= b@.len(),
        map.wf_for(b@),
        all_in(b@, old(spans)@, lo as int, hi as int),
        (kind is Comment && open_marker@ == seq![37u8, 37u8] && close_marker@ == seq![37u8, 37u8])
            || (kind is Strikethrough && open_marker@ == seq![126u8, 126u8] && close_marker@
            == seq![126u8, 126u8]),
    ensures
        all_in(b@, final(spans)@, lo as int, hi as int),
        ({
            let f = pair_scan(b@, lo as int, lo as int, hi as int, open_marker@, kind, old(claimed).ranges@);
            &&& final(spans)@ == old(spans)@ + found_spans(b@, f)
            &&& final(claimed).ranges@ == old(claimed).ranges@ + found_claims(f)
        }),
{
    let ghost m = open_marker@;
    let ghost sp0 = spans@;
    let ghost c0 = claimed.ranges@;
    let ghost fnd: Seq<Found> = Seq::empty();
    let open_len = open_marker.len();
    let close_len = close_marker.len();
    let mut i = lo;
    while i < hi && open_len <= hi - i
        invariant
            lo <= i <= hi <= b@.len(),
            open_len == 2 && close_len == 2,
            close_marker@ == m,
            open_marker@ == m,
            all_in(b@, spans@, lo as int, hi as int),
            spans@ == sp0 + found_spans(b@, fnd),
            claimed.ranges@ == c0 + found_claims(fnd),
            fnd + pair_scan(b@, lo as int, i as int, hi as int, m, kind, claimed.ranges@) == pair_scan(
                b@,
                lo as int,
                lo as int,
                hi as int,
                m,
                kind,
                c0,
            ),
        decreases hi - i,
    {
        if at(b, i, hi, open_marker) {
            if is_escaped(b, lo, i) {
                i = i + 1;
                continue;
            }
            let open = i;
            i = i + open_len;
            let ghost cl = claimed.ranges@;
            let ghost sp1 = spans@;
            while i < hi && close_len <= hi - i
                invariant
                    open + open_len <= i <= hi <= b@.len(),
                    open_len == 2 && close_len == 2,
                    close_marker@ == m,
                    all_in(b@, spans@, lo as int, hi as int),
                    claimed.ranges@ == cl,
                    spans@ == sp1,
                    spans@ == sp0 + found_spans(b@, fnd),
                    claimed.ranges@ == c0 + found_claims(fnd),
                    fnd + pair_scan(b@, lo as int, open as int, hi as int, m, kind, cl) == pair_scan(
                        b@,
                        lo as int,
                        lo as int,
                        hi as int,
                        m,
                        kind,
                        c0,
                    ),
                    pair_close(b@, lo as int, i as int, hi as int, m) == pair_close(
                        b@,
                        lo as int,
                        open + 2,
                        hi as int,
                        m,
                    ),
                decreases hi - i,
            {
                if at(b, i, hi, close_marker) && !is_escaped(b, lo, i) {
                    let e = i + close_len;
                    if !claimed.overlaps(open, e) {
                        claimed.claim(open, e);
                        let sp = make_span(
                            copy_inline_kind(&kind),
                            open,
                            e,
                            open + open_len,
                            i,
                            b,
                            map,
                            Ghost(lo as int),
                            Ghost(hi as int),
                        );
                        spans.push(sp);
                        proof {
                            let x = Found { kind: kind, a: open as int, c0: open + 2, c1: i as int, e: e as int };
                            assert(pair_scan(b@, lo as int, open as int, hi as int, m, kind, cl) == seq![x]
                                + pair_scan(b@, lo as int, e as int, hi as int, m, kind, claimed.ranges@));
                            assert(found_spans(b@, fnd.push(x)) =~= found_spans(b@, fnd).push(sp));
                            assert(found_claims(fnd.push(x)) =~= found_claims(fnd).push((open, e)));
                            assert(spans@ =~= sp0 + found_spans(b@, fnd.push(x)));
                            assert(claimed.ranges@ =~= c0 + found_claims(fnd.push(x)));
                            assert(fnd.push(x) + pair_scan(b@, lo as int, e as int, hi as int, m, kind, claimed.ranges@)
                                =~= fnd + (seq![x] + pair_scan(b@, lo as int, e as int, hi as int, m, kind, claimed.ranges@)));
                            fnd = fnd.push(x);
                        }
                    }
                    i = e;
                    break;
                }
                i = i + 1;
            }
        } else {
            i = i + 1;
        }
    }
}


/// `std::str::from_utf8(b[a..z]).unwrap_or("")` as an owned string.
fn text_or_empty(b: &[u8], a: usize, z: usize) -> (r: String)
    requires
        a <= z <= b@.len(),
    ensures
        r@ == utf8_or_empty(b@.subrange(a as int, z as int)),
{
    let t = crate::text::str_from_range(b, a, z);
    let r = t.to_owned();
    proof {
        if vstd::utf8::valid_utf8(b@.subrange(a as int, z as int)) {
            vstd::utf8::encode_utf8_decode_utf8(t@);
        }
    }
    r
}

/// `prefix` followed by `std::str::from_utf8(b[a..z]).unwrap_or("")`.
fn prefixed_text(prefix: &[u8], b: &[u8], a: usize, z: usize) -> (r: String)
    requires
        a <= z <= b@.len(),
    ensures
        vstd::utf8::valid_utf8(b@.subrange(a as int, z as int)) ==> r@ == lossy_text(
            prefix@ + b@.subrange(a as int, z as int),
        ),
{
    let t = crate::text::str_from_range(b, a, z);
    let mut v: Vec<u8> = Vec::new();
    push_all(&mut v, prefix);
    push_all(&mut v, t.as_bytes());
    string_from_bytes(v.as_slice())
}

// ---------------------------------------------------------------------------
// Wiki links and markdown links
// ---------------------------------------------------------------------------

/// The first `]]` at or after `j`.
pub open spec fn dbl_close(s: Seq<u8>, j: int, hi: int) -> Option<int>
    decreases hi - j,
{
    if j < 0 || hi > s.len() || j + 1 >= hi {
        None
    } else if s[j] == 93u8 && s[j + 1] == 93u8 {
        Some(j)
    } else {
        dbl_close(s, j + 1, hi)
    }
}

pub proof fn lemma_dbl_close(s: Seq<u8>, j: int, hi: int)
    ensures
        dbl_close(s, j, hi) matches Some(c) ==> j <= c && c + 2 <= hi,
    decreases hi - j,
{
    if !(j < 0 || hi > s.len() || j + 1 >= hi) && !(s[j] == 93u8 && s[j + 1] == 93u8) {
        lemma_dbl_close(s, j + 1, hi);
    }
}

/// The first unescaped `|` in `s[j..c]`.
pub open spec fn first_pipe(s: Seq<u8>, lo: int, j: int, c: int) -> Option<int>
    decreases c - j,
{
    if j >= c {
        None
    } else if s[j] == 124u8 && !escaped(s, lo, j) {
        Some(j)
    } else {
        first_pipe(s, lo, j + 1, c)
    }
}

/// Looking one byte further for the first `|`.
pub proof fn lemma_first_pipe_ext(s: Seq<u8>, lo: int, j: int, c: int)
    requires
        j <= c,
    ensures
        first_pipe(s, lo, j, c + 1) == match first_pipe(s, lo, j, c) {
            Some(p) => Some(p),
            None => if s[c] == 124u8 && !escaped(s, lo, c) {
                Some(c)
            } else {
                None
            },
        },
    decreases c - j,
{
    if j < c {
        lemma_first_pipe_ext(s, lo, j + 1, c);
    } else {
        assert(first_pipe(s, lo, c + 1, c + 1) is None);
    }
}

/// The wiki links `[[target]]` / `[[target|label]]` a scan of `s[lo..hi]`
/// from `i` finds, given the claimed ranges: an unescaped `[[`, the first
/// `]]` after it; the content starts after the first unescaped `|`, if any;
/// a span overlapping a claim is dropped, a found span is claimed; an
/// opener without a closer ends the scan.
pub open spec fn wiki_scan(s: Seq<u8>, lo: int, i: int, hi: int, claims: Seq<(usize, usize)>) -> Seq<
    Found,
>
    decreases hi - i,
{
    if i < 0 || hi > s.len() || i + 1 >= hi {
        Seq::empty()
    } else if s[i] == 91u8 && s[i + 1] == 91u8 && !escaped(s, lo, i) {
        match dbl_close(s, i + 2, hi) {
            Some(c) => {
                proof {
                    lemma_dbl_close(s, i + 2, hi);
                }
                let c0 = match first_pipe(s, lo, i + 2, c) {
                    Some(p) => p + 1,
                    None => i + 2,
                };
                if overlaps_in(claims, i, c + 2) {
                    wiki_scan(s, lo, c + 2, hi, claims)
                } else {
                    seq![Found { kind: InlineKind::WikiLink, a: i, c0: c0, c1: c, e: c + 2 }]
                        + wiki_scan(s, lo, c + 2, hi, claims.push((i as usize, (c + 2) as usize)))
                }
            },
            None => Seq::empty(),
        }
    } else {
        wiki_scan(s, lo, i + 1, hi, claims)
    }
}

/// `[[target]]` / `[[target|alias]]`; the content is the alias when an
/// unescaped `|` is present, the target otherwise.
#[verifier::loop_isolation(false)]
fn parse_wiki_links(
    b: &[u8],
    lo: usize,
    hi: usize,
    map: &Utf16Map,
    spans: &mut Vec<InlineSpan>,
    claimed: &mut ClaimedRanges,
)
    requires
        lo <= hi <= b@.len(),
        map.wf_for(b@),
        all_in(b@, old(spans)@, lo as int, hi as int),
    ensures
        all_in(b@, final(spans)@, lo as int, hi as int),
        ({
            let f = wiki_scan(b@, lo as int, lo as int, hi as int, old(claimed).ranges@);
            &&& final(spans)@ == old(spans)@ + found_spans(b@, f)
            &&& final(claimed).ranges@ == old(claimed).ranges@ + found_claims(f)
        }),
{
    let ghost sp0 = spans@;
    let ghost c0s = claimed.ranges@;
    let ghost fnd: Seq<Found> = Seq::empty();
    let mut i = lo;
    while i + 1 < hi
        invariant
            lo <= i <= hi <= b@.len(),
            all_in(b@, spans@, lo as int, hi as int),
            spans@ == sp0 + found_spans(b@, fnd),
            claimed.ranges@ == c0s + found_claims(fnd),
            fnd + wiki_scan(b@, lo as int, i as int, hi as int, claimed.ranges@) == wiki_scan(
                b@,
                lo as int,
                lo as int,
                hi as int,
                c0s,
            ),
        decreases hi - i,
    {
        if b[i] == 91u8 && b[i + 1] == 91u8 {
            if is_escaped(b, lo, i) {
                i = i + 1;
                continue;
            }
            let open = i;
            let content_start = i + 2;
            i = i + 2;
            let mut pipe: Option<usize> = None;
            let ghost cl = claimed.ranges@;
            while i + 1 < hi
                invariant
                    content_start <= i <= hi <= b@.len(),
                    content_start == open + 2,
                    pipe matches Some(p) ==> content_start <= p < i,
                    all_in(b@, spans@, lo as int, hi as int),
                    claimed.ranges@ == cl,
                    spans@ == sp0 + found_spans(b@, fnd),
                    claimed.ranges@ == c0s + found_claims(fnd),
                    fnd + wiki_scan(b@, lo as int, open as int, hi as int, cl) == wiki_scan(
                        b@,
                        lo as int,
                        lo as int,
                        hi as int,
                        c0s,
                    ),
                    dbl_close(b@, i as int, hi as int) == dbl_close(b@, open + 2, hi as int),
                    match pipe {
                        Some(p) => first_pipe(b@, lo as int, open + 2, i as int) == Some(p as int),
                        None => first_pipe(b@, lo as int, open + 2, i as int) is None,
                    },
                decreases hi - i,
            {
                if b[i] == 93u8 && b[i + 1] == 93u8 {
                    let e = i + 2;
                    if !claimed.overlaps(open, e) {
                        claimed.claim(open, e);
                        let c0 = match pipe {
                            Some(p) => p + 1,
                            None => content_start,
                        };
                        let sp = make_span(
                            InlineKind::WikiLink,
                            open,
                            e,
                            c0,
                            i,
                            b,
                            map,
                            Ghost(lo as int),
                            Ghost(hi as int),
                        );
                        spans.push(sp);
                        proof {
                            let x = Found {
                                kind: InlineKind::WikiLink,
                                a: open as int,
                                c0: c0 as int,
                                c1: i as int,
                                e: e as int,
                            };
                            assert(wiki_scan(b@, lo as int, open as int, hi as int, cl) == seq![x]
                                + wiki_scan(b@, lo as int, e as int, hi as int, claimed.ranges@));
                            assert(found_spans(b@, fnd.push(x)) =~= found_spans(b@, fnd).push(sp));
                            assert(found_claims(fnd.push(x)) =~= found_claims(fnd).push((open, e)));
                            assert(spans@ =~= sp0 + found_spans(b@, fnd.push(x)));
                            assert(claimed.ranges@ =~= c0s + found_claims(fnd.push(x)));
                            assert(fnd.push(x) + wiki_scan(b@, lo as int, e as int, hi as int, claimed.ranges@)
                                =~= fnd + (seq![x] + wiki_scan(b@, lo as int, e as int, hi as int, claimed.ranges@)));
                            fnd = fnd.push(x);
                        }
                    }
                    i = e;
                    break;
                }
                proof {
                    lemma_first_pipe_ext(b@, lo as int, open + 2, i as int);
                }
                if b[i] == 124u8 && pipe.is_none() && !is_escaped(b, lo, i) {
                    pipe = Some(i);
                }
                i = i + 1;
            }
        } else {
            i = i + 1;
        }
    }
}

/// The position of the bracket closing a group opened before `j` (`depth`
/// groups open), counting nested `op`/`cl` pairs; `hi` when it is not closed.
pub open spec fn match_close(s: Seq<u8>, j: int, hi: int, depth: int, op: u8, cl: u8) -> int
    decreases hi - j,
{
    if j >= hi {
        hi
    } else if s[j] == op {
        match_close(s, j + 1, hi, depth + 1, op, cl)
    } else if s[j] == cl {
        if depth == 1 {
            j
        } else {
            match_close(s, j + 1, hi, depth - 1, op, cl)
        }
    } else {
        match_close(s, j + 1, hi, depth, op, cl)
    }
}

pub proof fn lemma_match_close(s: Seq<u8>, j: int, hi: int, depth: int, op: u8, cl: u8)
    requires
        j <= hi,
    ensures
        j <= match_close(s, j, hi, depth, op, cl) <= hi,
        match_close(s, j, hi, depth, op, cl) < hi ==> s[match_close(s, j, hi, depth, op, cl)] == cl,
    decreases hi - j,
{
    if j < hi {
        if s[j] == op {
            lemma_match_close(s, j + 1, hi, depth + 1, op, cl);
        } else if s[j] == cl {
            if depth != 1 {
                lemma_match_close(s, j + 1, hi, depth - 1, op, cl);
            }
        } else {
            lemma_match_close(s, j + 1, hi, depth, op, cl);
        }
    }
}

/// The links `[text](url)` a scan of `s[lo..hi]` from `i` finds, as
/// `(start, closing bracket, closing parenthesis)`, given the claimed
/// ranges: an unescaped `[` (not `[[` or `[^`), its balanced `]`, then `(`
/// and its balanced `)`; a link overlapping a claim is dropped, a found one
/// is claimed; an unclosed bracket or parenthesis ends the scan.
pub open spec fn md_scan(s: Seq<u8>, lo: int, i: int, hi: int, claims: Seq<(usize, usize)>) -> Seq<
    (int, int, int),
>
    decreases hi - i,
{
    if i < 0 || i >= hi || hi > s.len() {
        Seq::empty()
    } else if s[i] == 91u8 {
        if i + 1 < hi && (s[i + 1] == 91u8 || s[i + 1] == 94u8) {
            md_scan(s, lo, i + 1, hi, claims)
        } else if escaped(s, lo, i) {
            md_scan(s, lo, i + 1, hi, claims)
        } else {
            let cb = match_close(s, i + 1, hi, 1, 91u8, 93u8);
            proof {
                lemma_match_close(s, i + 1, hi, 1, 91u8, 93u8);
            }
            if cb >= hi {
                Seq::empty()
            } else if cb + 1 < hi && s[cb + 1] == 40u8 {
                let cp = match_close(s, cb + 2, hi, 1, 40u8, 41u8);
                proof {
                    lemma_match_close(s, cb + 2, hi, 1, 40u8, 41u8);
                }
                if cp >= hi {
                    Seq::empty()
                } else if overlaps_in(claims, i, cp + 1) {
                    md_scan(s, lo, cp + 1, hi, claims)
                } else {
                    seq![(i, cb, cp)] + md_scan(s, lo, cp + 1, hi, claims.push((i as usize, (cp + 1) as usize)))
                }
            } else {
                md_scan(s, lo, cb + 1, hi, claims)
            }
        }
    } else {
        md_scan(s, lo, i + 1, hi, claims)
    }
}

/// The span of the link `t`: kind `Link` with the URL text between the
/// parentheses, content between the brackets.
pub open spec fn md_span_fits(s: Seq<u8>, sp: InlineSpan, t: (int, int, int)) -> bool {
    &&& sp.kind matches InlineKind::Link { url } && url@ == utf8_or_empty(s.subrange(t.1 + 2, t.2))
    &&& sp.utf16_start == utf16_offset(s, t.0)
    &&& sp.utf16_end == utf16_offset(s, t.2 + 1)
    &&& sp.content_utf16_start == utf16_offset(s, t.0 + 1)
    &&& sp.content_utf16_end == utf16_offset(s, t.1)
}

/// The spans `sps` are those of the links `f`, in order.
pub open spec fn md_spans_fit(s: Seq<u8>, sps: Seq<InlineSpan>, f: Seq<(int, int, int)>) -> bool {
    &&& sps.len() == f.len()
    &&& forall|k: int| 0 <= k < f.len() ==> md_span_fits(s, #[trigger] sps[k], f[k])
}

/// `[text](url)` with balanced brackets and parentheses; not `[[` or `[^`.
#[verifier::loop_isolation(false)]
fn parse_markdown_links(
    b: &[u8],
    lo: usize,
    hi: usize,
    map: &Utf16Map,
    spans: &mut Vec<InlineSpan>,
    claimed: &mut ClaimedRanges,
)
    requires
        lo <= hi <= b@.len(),
        map.wf_for(b@),
        all_in(b@, old(spans)@, lo as int, hi as int),
    ensures
        all_in(b@, final(spans)@, lo as int, hi as int),
        ({
            let f = md_scan(b@, lo as int, lo as int, hi as int, old(claimed).ranges@);
            &&& final(spans)@.subrange(0, old(spans)@.len() as int) == old(spans)@
            &&& final(spans)@.len() >= old(spans)@.len()
            &&& md_spans_fit(b@, final(spans)@.subrange(old(spans)@.len() as int, final(spans)@.len() as int), f)
            &&& final(claimed).ranges@ == old(claimed).ranges@ + f.map_values(
                |t: (int, int, int)| (t.0 as usize, (t.2 + 1) as usize),
            )
        }),
{
    let ghost sp0 = spans@;
    let ghost c0 = claimed.ranges@;
    let ghost fnd: Seq<(int, int, int)> = Seq::empty();
    let mut i = lo;
    while i < hi
        invariant
            lo <= i <= hi <= b@.len(),
            all_in(b@, spans@, lo as int, hi as int),
            spans@.len() == sp0.len() + fnd.len(),
            spans@.subrange(0, sp0.len() as int) == sp0,
            md_spans_fit(b@, spans@.subrange(sp0.len() as int, spans@.len() as int), fnd),
            claimed.ranges@ == c0 + fnd.map_values(|t: (int, int, int)| (t.0 as usize, (t.2 + 1) as usize)),
            fnd + md_scan(b@, lo as int, i as int, hi as int, claimed.ranges@) == md_scan(
                b@,
                lo as int,
                lo as int,
                hi as int,
                c0,
            ),
        decreases hi - i,
    {
        if b[i] == 91u8 {
            if i + 1 < hi && (b[i + 1] == 91u8 || b[i + 1] == 94u8) {
                i = i + 1;
                continue;
            }
            if is_escaped(b, lo, i) {
                i = i + 1;
                continue;
            }
            let open_bracket = i;
            i = i + 1;
            let mut depth: usize = 1;
            while i < hi && depth > 0
                invariant
                    open_bracket < i <= hi,
                    depth <= i - open_bracket,
                    depth == 0 ==> i < hi && b@[i as int] == 93u8,
                    depth == 0 ==> match_close(b@, open_bracket + 1, hi as int, 1, 91u8, 93u8) == i,
                    depth > 0 ==> match_close(b@, i as int, hi as int, depth as int, 91u8, 93u8)
                        == match_close(b@, open_bracket + 1, hi as int, 1, 91u8, 93u8),
                decreases hi - i, depth,
            {
                if b[i] == 91u8 {
                    depth = depth + 1;
                } else if b[i] == 93u8 {
                    depth = depth - 1;
                }
                if depth > 0 {
                    i = i + 1;
                }
            }
            if depth != 0 {
                continue;
            }
            let close_bracket = i;
            i = i + 1;
            if i < hi && b[i] == 40u8 {
                let url_open = i;
                i = i + 1;
                let mut pdepth: usize = 1;
                while i < hi && pdepth > 0
                    invariant
                        url_open < i <= hi,
                        pdepth <= i - url_open,
                        pdepth == 0 ==> i < hi && b@[i as int] == 41u8,
                        pdepth == 0 ==> match_close(b@, url_open + 1, hi as int, 1, 40u8, 41u8) == i,
                        pdepth > 0 ==> match_close(b@, i as int, hi as int, pdepth as int, 40u8, 41u8)
                            == match_close(b@, url_open + 1, hi as int, 1, 40u8, 41u8),
                    decreases hi - i, pdepth,
                {
                    if b[i] == 40u8 {
                        pdepth = pdepth + 1;
                    } else if b[i] == 41u8 {
                        pdepth = pdepth - 1;
                    }
                    if pdepth > 0 {
                        i = i + 1;
                    }
                }
                if pdepth == 0 {
                    let close_paren = i;
                    let e = close_paren + 1;
                    if !claimed.overlaps(open_bracket, e) {
                        let url = text_or_empty(b, url_open + 1, close_paren);
                        let ghost cl = claimed.ranges@;
                        let ghost sp1 = spans@;
                        claimed.claim(open_bracket, e);
                        let sp = make_span(
                            InlineKind::Link { url },
                            open_bracket,
                            e,
                            open_bracket + 1,
                            close_bracket,
                            b,
                            map,
                            Ghost(lo as int),
                            Ghost(hi as int),
                        );
                        spans.push(sp);
                        proof {
                            let f = |t: (int, int, int)| (t.0 as usize, (t.2 + 1) as usize);
                            let x = (open_bracket as int, close_bracket as int, close_paren as int);
                            assert(md_scan(b@, lo as int, open_bracket as int, hi as int, cl) == seq![x]
                                + md_scan(b@, lo as int, e as int, hi as int, claimed.ranges@));
                            assert(fnd.push(x).map_values(f) =~= fnd.map_values(f).push((open_bracket, e)));
                            assert(claimed.ranges@ =~= c0 + fnd.push(x).map_values(f));
                            assert(spans@.subrange(0, sp0.len() as int) =~= sp1.subrange(0, sp0.len() as int));
                            let tail = spans@.subrange(sp0.len() as int, spans@.len() as int);
                            assert(tail =~= sp1.subrange(sp0.len() as int, sp1.len() as int).push(sp));
                            assert(md_span_fits(b@, tail[fnd.len() as int], x));
                            assert forall|k: int| 0 <= k < fnd.len() + 1 implies md_span_fits(
                                b@,
                                #[trigger] tail[k],
                                fnd.push(x)[k],
                            ) by {
                                if k < fnd.len() {
                                    assert(tail[k] == sp1.subrange(sp0.len() as int, sp1.len() as int)[k]);
                                }
                            }
                            assert(fnd.push(x) + md_scan(b@, lo as int, e as int, hi as int, claimed.ranges@)
                                =~= fnd + (seq![x] + md_scan(b@, lo as int, e as int, hi as int, claimed.ranges@)));
                            fnd = fnd.push(x);
                        }
                    }
                    i = i + 1;
                }
            }
        } else {
            i = i + 1;
        }
    }
}

// ---------------------------------------------------------------------------
// Angle-bracket autolinks
// ---------------------------------------------------------------------------

/// A URI autolink body: an ASCII letter, then letters, digits, `+`, `-`, `.`
/// for a scheme of 2 to 32 bytes, then `:`.
pub open spec fn uri_autolink(s: Seq<u8>, a: int, z: int) -> bool {
    a < z && crate::text::is_alpha(s[a]) && exists|e: int|
        a + 2 <= e <= a + 32 && e < z && s[e] == 58u8 && (forall|j: int|
            a + 1 <= j < e ==> scheme_char(#[trigger] s[j])) && !scheme_char(s[e])
}

pub open spec fn scheme_char(c: u8) -> bool {
    is_alnum(c) || c == 43u8 || c == 45u8 || c == 46u8
}

fn uri_autolink_scheme_ok(b: &[u8], a: usize, z: usize) -> (r: bool)
    requires
        a <= z <= b@.len(),
    ensures
        r == uri_autolink(b@, a as int, z as int),
{
    if a >= z || !alpha(b[a]) {
        return false;
    }
    let mut i = a + 1;
    while i < z && (alnum(b[i]) || b[i] == 43u8 || b[i] == 45u8 || b[i] == 46u8)
        invariant
            a + 1 <= i <= z <= b@.len(),
            forall|j: int| a + 1 <= j < i ==> scheme_char(#[trigger] b@[j]),
        decreases z - i,
    {
        i = i + 1;
    }
    let ok = i - a >= 2 && i - a <= 32 && i < z && b[i] == 58u8;
    proof {
        if !ok && uri_autolink(b@, a as int, z as int) {
            let e = choose|e: int|
                a + 2 <= e <= a + 32 && e < z && b@[e] == 58u8 && (forall|j: int|
                    a + 1 <= j < e ==> scheme_char(#[trigger] b@[j])) && !scheme_char(b@[e]);
            if e < i {
                assert(scheme_char(b@[e]));
            } else if e > i {
                assert(i < z);
                assert(scheme_char(b@[i as int]));
            }
        }
    }
    ok
}

/// Local-part characters of an email autolink.
pub open spec fn email_local_char(c: u8) -> bool {
    is_alnum(c) || c == 46u8 || c == 33u8 || c == 35u8 || c == 36u8 || c == 37u8 || c == 38u8
        || c == 39u8 || c == 42u8 || c == 43u8 || c == 47u8 || c == 61u8 || c == 63u8 || c
        == 94u8 || c == 95u8 || c == 96u8 || c == 123u8 || c == 124u8 || c == 125u8 || c
        == 126u8 || c == 45u8
}

/// Domain characters of an email autolink.
pub open spec fn email_domain_char(c: u8) -> bool {
    is_alnum(c) || c == 46u8 || c == 45u8
}

/// An email autolink body: local part, `@` (the first one), and a domain
/// that contains a dot.
pub open spec fn email_autolink(s: Seq<u8>, a: int, z: int) -> bool {
    let at = crate::text::find_byte_pos(s, a, z, 64u8);
    &&& at < z
    &&& at > a
    &&& at + 1 < z
    &&& forall|j: int| a <= j < at ==> email_local_char(#[trigger] s[j])
    &&& forall|j: int| at + 1 <= j < z ==> email_domain_char(#[trigger] s[j])
    &&& exists|j: int| at + 1 <= j < z && s[j] == 46u8
}

#[verifier::loop_isolation(false)]
fn email_autolink_ok(b: &[u8], a: usize, z: usize) -> (r: bool)
    requires
        a <= z <= b@.len(),
    ensures
        r == email_autolink(b@, a as int, z as int),
{
    let at = crate::text::find_byte(b, a, z, 64u8);
    if at >= z || at == a || at + 1 >= z {
        return false;
    }
    let mut j = a;
    while j < at
        invariant
            a <= j <= at < z <= b@.len(),
            forall|k: int| a <= k < j ==> email_local_char(#[trigger] b@[k]),
        decreases at - j,
    {
        let c = b[j];
        if !(alnum(c) || c == 46u8 || c == 33u8 || c == 35u8 || c == 36u8 || c == 37u8 || c == 38u8
            || c == 39u8 || c == 42u8 || c == 43u8 || c == 47u8 || c == 61u8 || c == 63u8 || c
            == 94u8 || c == 95u8 || c == 96u8 || c == 123u8 || c == 124u8 || c == 125u8 || c
            == 126u8 || c == 45u8) {
            proof {
                assert(!email_local_char(b@[j as int]));
                assert(!(forall|m: int| a <= m < at ==> email_local_char(#[trigger] b@[m])));
            }
            return false;
        }
        j = j + 1;
    }
    let mut k = at + 1;
    while k < z
        invariant
            at + 1 <= k <= z <= b@.len(),
            forall|m: int| at + 1 <= m < k ==> email_domain_char(#[trigger] b@[m]),
        decreases z - k,
    {
        let c = b[k];
        if !(alnum(c) || c == 46u8 || c == 45u8) {
            proof {
                assert(!email_domain_char(b@[k as int]));
                assert(!(forall|m: int| at + 1 <= m < z ==> email_domain_char(#[trigger] b@[m])));
            }
            return false;
        }
        k = k + 1;
    }
    crate::text::contains_byte(b, at + 1, z, 46u8)
}

/// The first `>`, ASCII whitespace or `<` at or after `j`, or `hi`.
pub open spec fn angle_stop(s: Seq<u8>, j: int, hi: int) -> int
    decreases hi - j,
{
    if j >= hi || s[j] == 62u8 || crate::text::is_ascii_ws(s[j]) || s[j] == 60u8 {
        j
    } else {
        angle_stop(s, j + 1, hi)
    }
}

pub proof fn lemma_angle_stop(s: Seq<u8>, j: int, hi: int)
    requires
        j <= hi,
    ensures
        j <= angle_stop(s, j, hi) <= hi,
    decreases hi - j,
{
    if !(j >= hi || s[j] == 62u8 || crate::text::is_ascii_ws(s[j]) || s[j] == 60u8) {
        lemma_angle_stop(s, j + 1, hi);
    }
}

/// The angle-bracket autolinks a scan of `s[lo..hi]` from `i` finds, given
/// the claimed ranges: an unescaped `<`, a body without whitespace or `<`
/// up to `>` that is a URI (`uri_autolink`) or an email (`email_autolink`,
/// its URL gets `mailto:`); one overlapping a claim is skipped, a found one
/// is claimed.
pub open spec fn angle_scan(s: Seq<u8>, lo: int, i: int, hi: int, claims: Seq<(usize, usize)>) -> Seq<
    LinkFound,
>
    decreases hi - i,
{
    if i < lo || i >= hi || hi > s.len() {
        Seq::empty()
    } else if s[i] != 60u8 || escaped(s, lo, i) {
        angle_scan(s, lo, i + 1, hi, claims)
    } else {
        let j = angle_stop(s, i + 1, hi);
        proof {
            lemma_angle_stop(s, i + 1, hi);
        }
        if j >= hi || s[j] != 62u8 || !(uri_autolink(s, i + 1, j) || email_autolink(s, i + 1, j)) {
            angle_scan(s, lo, i + 1, hi, claims)
        } else if overlaps_in(claims, i, j + 1) {
            angle_scan(s, lo, j + 1, hi, claims)
        } else {
            let pre = if uri_autolink(s, i + 1, j) {
                Seq::empty()
            } else {
                mailto_prefix()
            };
            seq![LinkFound { a: i, c0: i + 1, c1: j, e: j + 1, pre, ua: i + 1, uz: j }]
                + angle_scan(s, lo, j + 1, hi, claims.push((i as usize, (j + 1) as usize)))
        }
    }
}

/// `<scheme:rest>` and `<local@domain>` autolinks; the URL is the body, with
/// `mailto:` before an email.
#[verifier::loop_isolation(false)]
fn parse_angle_autolinks(
    b: &[u8],
    lo: usize,
    hi: usize,
    map: &Utf16Map,
    spans: &mut Vec<InlineSpan>,
    claimed: &mut ClaimedRanges,
)
    requires
        lo <= hi <= b@.len(),
        map.wf_for(b@),
        all_in(b@, old(spans)@, lo as int, hi as int),
    ensures
        all_in(b@, final(spans)@, lo as int, hi as int),
        ({
            let f = angle_scan(b@, lo as int, lo as int, hi as int, old(claimed).ranges@);
            &&& extends_with_links(b@, final(spans)@, old(spans)@, f)
            &&& final(claimed).ranges@ == old(claimed).ranges@ + link_claims(f)
        }),
{
    let ghost sp0 = spans@;
    let ghost c0 = claimed.ranges@;
    let ghost fnd: Seq<LinkFound> = Seq::empty();
    proof {
        assert(spans@.subrange(0, sp0.len() as int) =~= sp0);
        assert(spans@.subrange(sp0.len() as int, spans@.len() as int) =~= Seq::<InlineSpan>::empty());
        assert(link_claims(fnd) =~= Seq::<(usize, usize)>::empty());
        assert(c0 + link_claims(fnd) =~= c0);
    }
    let mut i = lo;
    while i < hi
        invariant
            lo <= i <= hi <= b@.len(),
            all_in(b@, spans@, lo as int, hi as int),
            extends_with_links(b@, spans@, sp0, fnd),
            claimed.ranges@ == c0 + link_claims(fnd),
            fnd + angle_scan(b@, lo as int, i as int, hi as int, claimed.ranges@) == angle_scan(
                b@,
                lo as int,
                lo as int,
                hi as int,
                c0,
            ),
        decreases hi - i,
    {
        if b[i] != 60u8 || is_escaped(b, lo, i) {
            i = i + 1;
            continue;
        }
        let cs = i + 1;
        let mut j = cs;
        let mut bad = false;
        while j < hi
            invariant
                cs <= j <= hi,
                !bad,
                angle_stop(b@, j as int, hi as int) == angle_stop(b@, cs as int, hi as int),
            decreases hi - j,
        {
            let c = b[j];
            if c == 62u8 {
                break;
            }
            if ascii_ws(c) || c == 60u8 {
                bad = true;
                break;
            }
            j = j + 1;
        }
        proof {
            assert(j < hi ==> angle_stop(b@, j as int, hi as int) == j);
        }
        if bad || j >= hi {
            i = i + 1;
            continue;
        }
        let is_uri = uri_autolink_scheme_ok(b, cs, j);
        let url: Option<String> = if is_uri {
            Some(text_or_empty(b, cs, j))
        } else if email_autolink_ok(b, cs, j) {
            let pre: [u8; 7] = [109u8, 97u8, 105u8, 108u8, 116u8, 111u8, 58u8];
            proof {
                assert(pre@ =~= mailto_prefix());
            }
            Some(prefixed_text(pre.as_slice(), b, cs, j))
        } else {
            None
        };
        match url {
            Some(url) => {
                let e = j + 1;
                if !claimed.overlaps(i, e) {
                    let ghost cl = claimed.ranges@;
                    let ghost sp1 = spans@;
                    let ghost x = LinkFound {
                        a: i as int,
                        c0: i + 1,
                        c1: j as int,
                        e: e as int,
                        pre: if is_uri {
                            Seq::empty()
                        } else {
                            mailto_prefix()
                        },
                        ua: cs as int,
                        uz: j as int,
                    };
                    proof {
                        assert(link_url_fits(b@, url@, x));
                    }
                    claimed.claim(i, e);
                    let sp = make_span(
                        InlineKind::AutoLink { url },
                        i,
                        e,
                        i + 1,
                        j,
                        b,
                        map,
                        Ghost(lo as int),
                        Ghost(hi as int),
                    );
                    spans.push(sp);
                    proof {
                        assert(angle_scan(b@, lo as int, i as int, hi as int, cl) == seq![x]
                            + angle_scan(b@, lo as int, e as int, hi as int, claimed.ranges@));
                        lemma_links_push(b@, sp1, sp0, fnd, sp, x);
                        assert(claimed.ranges@ =~= c0 + link_claims(fnd.push(x)));
                        assert(fnd.push(x) + angle_scan(b@, lo as int, e as int, hi as int, claimed.ranges@)
                            =~= fnd + (seq![x] + angle_scan(b@, lo as int, e as int, hi as int, claimed.ranges@)));
                        fnd = fnd.push(x);
                    }
                }
                i = e;
            },
            None => {
                i = i + 1;
            },
        }
    }
}

// ---------------------------------------------------------------------------
// Underlines and footnote references
// ---------------------------------------------------------------------------

/// `<u>...</u>`.
#[verifier::loop_isolation(false)]
fn parse_html_underline(
    b: &[u8],
    lo: usize,
    hi: usize,
    map: &Utf16Map,
    spans: &mut Vec<InlineSpan>,
    claimed: &mut ClaimedRanges,
)
    requires
        lo <= hi <= b@.len(),
        map.wf_for(b@),
        all_in(b@, old(spans)@, lo as int, hi as int),
    ensures
        all_in(b@, final(spans)@, lo as int, hi as int),
        ({
            let f = u_scan(b@, lo as int, lo as int, hi as int, old(claimed).ranges@);
            &&& final(spans)@ == old(spans)@ + found_spans(b@, f)
            &&& final(claimed).ranges@ == old(claimed).ranges@ + found_claims(f)
        }),
{
    let ghost sp0 = spans@;
    let ghost c0 = claimed.ranges@;
    let ghost fnd: Seq<Found> = Seq::empty();
    let open_tag: [u8; 3] = [60u8, 117u8, 62u8];
    let close_tag: [u8; 4] = [60u8, 47u8, 117u8, 62u8];
    proof {
        assert(open_tag@ =~= seq![60u8, 117u8, 62u8]);
        assert(close_tag@ =~= seq![60u8, 47u8, 117u8, 62u8]);
    }
    let mut i = lo;
    while i + 3 <= hi
        invariant
            lo <= i <= hi <= b@.len(),
            open_tag@ == seq![60u8, 117u8, 62u8],
            close_tag@ == seq![60u8, 47u8, 117u8, 62u8],
            all_in(b@, spans@, lo as int, hi as int),
            spans@ == sp0 + found_spans(b@, fnd),
            claimed.ranges@ == c0 + found_claims(fnd),
            fnd + u_scan(b@, lo as int, i as int, hi as int, claimed.ranges@) == u_scan(
                b@,
                lo as int,
                lo as int,
                hi as int,
                c0,
            ),
        decreases hi - i,
    {
        if at(b, i, hi, open_tag.as_slice()) {
            if is_escaped(b, lo, i) {
                i = i + 1;
                continue;
            }
            let open = i;
            i = i + 3;
            let ghost cl = claimed.ranges@;
            let ghost sp1 = spans@;
            while i < hi && hi - i >= 4
                invariant
                    open + 3 <= i <= hi <= b@.len(),
                    close_tag@ == seq![60u8, 47u8, 117u8, 62u8],
                    all_in(b@, spans@, lo as int, hi as int),
                    claimed.ranges@ == cl,
                    spans@ == sp1,
                    spans@ == sp0 + found_spans(b@, fnd),
                    claimed.ranges@ == c0 + found_claims(fnd),
                    fnd + u_scan(b@, lo as int, open as int, hi as int, cl) == u_scan(
                        b@,
                        lo as int,
                        lo as int,
                        hi as int,
                        c0,
                    ),
                    u_close(b@, i as int, hi as int) == u_close(b@, open + 3, hi as int),
                decreases hi - i,
            {
                if at(b, i, hi, close_tag.as_slice()) {
                    let e = i + 4;
                    if !claimed.overlaps(open, e) {
                        claimed.claim(open, e);
                        let sp = make_span(
                            InlineKind::UnderlineHtml,
                            open,
                            e,
                            open + 3,
                            i,
                            b,
                            map,
                            Ghost(lo as int),
                            Ghost(hi as int),
                        );
                        spans.push(sp);
                        proof {
                            let x = Found {
                                kind: InlineKind::UnderlineHtml,
                                a: open as int,
                                c0: open + 3,
                                c1: i as int,
                                e: e as int,
                            };
                            assert(u_scan(b@, lo as int, open as int, hi as int, cl) == seq![x] + u_scan(
                                b@,
                                lo as int,
                                e as int,
                                hi as int,
                                claimed.ranges@,
                            ));
                            assert(found_spans(b@, fnd.push(x)) =~= found_spans(b@, fnd).push(sp));
                            assert(found_claims(fnd.push(x)) =~= found_claims(fnd).push((open, e)));
                            assert(spans@ =~= sp0 + found_spans(b@, fnd.push(x)));
                            assert(claimed.ranges@ =~= c0 + found_claims(fnd.push(x)));
                            assert(fnd.push(x) + u_scan(b@, lo as int, e as int, hi as int, claimed.ranges@)
                                =~= fnd + (seq![x] + u_scan(b@, lo as int, e as int, hi as int, claimed.ranges@)));
                            fnd = fnd.push(x);
                        }
                    }
                    i = e;
                    break;
                }
                i = i + 1;
            }
            proof {
                if i + 7 > hi {
                    lemma_u_scan_tail(b@, lo as int, i as int, hi as int, claimed.ranges@);
                }
            }
        } else {
            i = i + 1;
        }
    }
}

/// End of the run of unescaped `~` from `p`.
pub open spec fn tilde_end(s: Seq<u8>, lo: int, p: int, hi: int) -> int
    decreases hi - p,
{
    if p < hi && s[p] == 126u8 && !escaped(s, lo, p) {
        tilde_end(s, lo, p + 1, hi)
    } else {
        p
    }
}

pub proof fn lemma_tilde_end(s: Seq<u8>, lo: int, p: int, hi: int)
    ensures
        p <= tilde_end(s, lo, p, hi),
        p <= hi ==> tilde_end(s, lo, p, hi) <= hi,
    decreases hi - p,
{
    if p < hi && s[p] == 126u8 && !escaped(s, lo, p) {
        lemma_tilde_end(s, lo, p + 1, hi);
    }
}

/// The first lone unescaped `~` (a run of one) at or after `j`.
pub open spec fn single_tilde(s: Seq<u8>, lo: int, j: int, hi: int) -> Option<int>
    decreases hi - j,
{
    if j < 0 || j >= hi || hi > s.len() {
        None
    } else if s[j] == 126u8 && !escaped(s, lo, j) {
        let e = tilde_end(s, lo, j, hi);
        proof {
            lemma_tilde_end(s, lo, j + 1, hi);
        }
        if e - j == 1 {
            Some(j)
        } else {
            single_tilde(s, lo, e, hi)
        }
    } else {
        single_tilde(s, lo, j + 1, hi)
    }
}

pub proof fn lemma_single_tilde(s: Seq<u8>, lo: int, j: int, hi: int)
    ensures
        single_tilde(s, lo, j, hi) matches Some(c) ==> j <= c && c + 1 <= hi,
    decreases hi - j,
{
    if !(j < 0 || j >= hi || hi > s.len()) {
        if s[j] == 126u8 && !escaped(s, lo, j) {
            lemma_tilde_end(s, lo, j + 1, hi);
            let e = tilde_end(s, lo, j, hi);
            if e - j != 1 {
                lemma_single_tilde(s, lo, e, hi);
            }
        } else {
            lemma_single_tilde(s, lo, j + 1, hi);
        }
    }
}

/// The `~…~` spans a scan of `s[lo..hi]` from `i` finds, given the claimed
/// ranges: a lone unescaped `~` not in a claim opens, the next lone
/// unescaped `~` closes; runs of two or more are passed over; a span
/// overlapping a claim is dropped, a found span is claimed; an opener
/// without a closer ends the scan.
pub open spec fn tilde_scan(s: Seq<u8>, lo: int, i: int, hi: int, claims: Seq<(usize, usize)>) -> Seq<
    Found,
>
    decreases hi - i,
{
    if i < 0 || i >= hi || hi > s.len() {
        Seq::empty()
    } else if s[i] == 126u8 && !escaped(s, lo, i) {
        let r = tilde_end(s, lo, i, hi);
        proof {
            lemma_tilde_end(s, lo, i + 1, hi);
        }
        if r - i != 1 {
            tilde_scan(s, lo, r, hi, claims)
        } else if overlaps_in(claims, i, i + 1) {
            tilde_scan(s, lo, i + 1, hi, claims)
        } else {
            match single_tilde(s, lo, i + 1, hi) {
                Some(c) => {
                    proof {
                        lemma_single_tilde(s, lo, i + 1, hi);
                    }
                    if overlaps_in(claims, i, c + 1) {
                        tilde_scan(s, lo, c + 1, hi, claims)
                    } else {
                        seq![Found { kind: InlineKind::UnderlineTilde, a: i, c0: i + 1, c1: c, e: c + 1 }]
                            + tilde_scan(s, lo, c + 1, hi, claims.push((i as usize, (c + 1) as usize)))
                    }
                },
                None => Seq::empty(),
            }
        }
    } else {
        tilde_scan(s, lo, i + 1, hi, claims)
    }
}

/// End of the run of unescaped `~` starting at `p`.
fn tilde_run_end(b: &[u8], lo: usize, p: usize, hi: usize) -> (e: usize)
    requires
        lo <= p <= hi <= b@.len(),
    ensures
        p <= e <= hi,
        e == tilde_end(b@, lo as int, p as int, hi as int),
{
    let mut e = p;
    while e < hi && b[e] == 126u8 && !is_escaped(b, lo, e)
        invariant
            lo <= p <= e <= hi <= b@.len(),
            tilde_end(b@, lo as int, e as int, hi as int) == tilde_end(b@, lo as int, p as int, hi as int),
        decreases hi - e,
    {
        e = e + 1;
    }
    e
}

/// Single `~...~` (runs of two or more tildes are not delimiters).
#[verifier::loop_isolation(false)]
fn parse_tilde_underline(
    b: &[u8],
    lo: usize,
    hi: usize,
    map: &Utf16Map,
    spans: &mut Vec<InlineSpan>,
    claimed: &mut ClaimedRanges,
)
    requires
        lo <= hi <= b@.len(),
        map.wf_for(b@),
        all_in(b@, old(spans)@, lo as int, hi as int),
    ensures
        all_in(b@, final(spans)@, lo as int, hi as int),
        ({
            let f = tilde_scan(b@, lo as int, lo as int, hi as int, old(claimed).ranges@);
            &&& final(spans)@ == old(spans)@ + found_spans(b@, f)
            &&& final(claimed).ranges@ == old(claimed).ranges@ + found_claims(f)
        }),
{
    let ghost sp0 = spans@;
    let ghost c0 = claimed.ranges@;
    let ghost fnd: Seq<Found> = Seq::empty();
    let mut i = lo;
    while i < hi
        invariant
            lo <= i <= hi <= b@.len(),
            all_in(b@, spans@, lo as int, hi as int),
            spans@ == sp0 + found_spans(b@, fnd),
            claimed.ranges@ == c0 + found_claims(fnd),
            fnd + tilde_scan(b@, lo as int, i as int, hi as int, claimed.ranges@) == tilde_scan(
                b@,
                lo as int,
                lo as int,
                hi as int,
                c0,
            ),
        decreases hi - i,
    {
        if b[i] == 126u8 {
            if is_escaped(b, lo, i) {
                i = i + 1;
                continue;
            }
            let run_start = i;
            i = tilde_run_end(b, lo, i, hi);
            proof {
                lemma_tilde_end(b@, lo as int, run_start + 1, hi as int);
            }
            if i - run_start != 1 {
                if i == run_start {
                    i = i + 1;
                }
                continue;
            }
            let open = run_start;
            if claimed.overlaps(open, open + 1) {
                continue;
            }
            let ghost cl = claimed.ranges@;
            let mut j = i;
            while j < hi
                invariant
                    open < i <= j <= hi <= b@.len(),
                    i == open + 1,
                    all_in(b@, spans@, lo as int, hi as int),
                    claimed.ranges@ == cl,
                    !overlaps_in(cl, open as int, open + 1),
                    spans@ == sp0 + found_spans(b@, fnd),
                    claimed.ranges@ == c0 + found_claims(fnd),
                    fnd + tilde_scan(b@, lo as int, open as int, hi as int, cl) == tilde_scan(
                        b@,
                        lo as int,
                        lo as int,
                        hi as int,
                        c0,
                    ),
                    tilde_end(b@, lo as int, open as int, hi as int) == open + 1,
                    b@[open as int] == 126u8,
                    !escaped(b@, lo as int, open as int),
                    single_tilde(b@, lo as int, j as int, hi as int) == single_tilde(
                        b@,
                        lo as int,
                        open + 1,
                        hi as int,
                    ),
                decreases hi - j,
            {
                if b[j] == 126u8 {
                    if is_escaped(b, lo, j) {
                        j = j + 1;
                        continue;
                    }
                    let close_start = j;
                    j = tilde_run_end(b, lo, j, hi);
                    proof {
                        lemma_tilde_end(b@, lo as int, close_start + 1, hi as int);
                    }
                    if j - close_start != 1 {
                        if j == close_start {
                            j = j + 1;
                        }
                        continue;
                    }
                    let e = close_start + 1;
                    if !claimed.overlaps(open, e) {
                        claimed.claim(open, e);
                        let sp = make_span(
                            InlineKind::UnderlineTilde,
                            open,
                            e,
                            open + 1,
                            close_start,
                            b,
                            map,
                            Ghost(lo as int),
                            Ghost(hi as int),
                        );
                        spans.push(sp);
                        proof {
                            let x = Found {
                                kind: InlineKind::UnderlineTilde,
                                a: open as int,
                                c0: open + 1,
                                c1: close_start as int,
                                e: e as int,
                            };
                            assert(tilde_scan(b@, lo as int, open as int, hi as int, cl) == seq![x]
                                + tilde_scan(b@, lo as int, e as int, hi as int, claimed.ranges@));
                            assert(found_spans(b@, fnd.push(x)) =~= found_spans(b@, fnd).push(sp));
                            assert(found_claims(fnd.push(x)) =~= found_claims(fnd).push((open, e)));
                            assert(spans@ =~= sp0 + found_spans(b@, fnd.push(x)));
                            assert(claimed.ranges@ =~= c0 + found_claims(fnd.push(x)));
                            assert(fnd.push(x) + tilde_scan(b@, lo as int, e as int, hi as int, claimed.ranges@)
                                =~= fnd + (seq![x] + tilde_scan(b@, lo as int, e as int, hi as int, claimed.ranges@)));
                            fnd = fnd.push(x);
                        }
                    }
                    i = j;
                    break;
                }
                j = j + 1;
            }
            if j >= hi {
                i = j;
            }
        } else {
            i = i + 1;
        }
    }
}

/// End of a footnote label from `j`: the first `]` or line break, or `hi`.
pub open spec fn label_end(s: Seq<u8>, j: int, hi: int) -> int
    decreases hi - j,
{
    if j < hi && s[j] != 93u8 && s[j] != 10u8 {
        label_end(s, j + 1, hi)
    } else {
        j
    }
}

pub proof fn lemma_label_end(s: Seq<u8>, j: int, hi: int)
    ensures
        j <= label_end(s, j, hi),
        j <= hi ==> label_end(s, j, hi) <= hi,
    decreases hi - j,
{
    if j < hi && s[j] != 93u8 && s[j] != 10u8 {
        lemma_label_end(s, j + 1, hi);
    }
}

/// The footnote references `[^label]` a scan of `s[lo..hi]` from `i`
/// finds, given the claimed ranges: an unescaped `[^`, a non-empty label up
/// to `]` on the same line, not followed by `:` (a definition); a span
/// overlapping a claim is dropped, a found span is claimed.
pub open spec fn fn_scan(s: Seq<u8>, lo: int, i: int, hi: int, claims: Seq<(usize, usize)>) -> Seq<
    Found,
>
    decreases hi - i,
{
    if i < 0 || hi > s.len() || i + 2 >= hi {
        Seq::empty()
    } else if s[i] == 91u8 && s[i + 1] == 94u8 && !escaped(s, lo, i) {
        let le = label_end(s, i + 2, hi);
        proof {
            lemma_label_end(s, i + 2, hi);
        }
        if le < hi && s[le] == 93u8 {
            if le + 1 < hi && s[le + 1] == 58u8 {
                fn_scan(s, lo, le + 1, hi, claims)
            } else if le > i + 2 && !overlaps_in(claims, i, le + 1) {
                seq![Found { kind: InlineKind::FootnoteRef, a: i, c0: i + 2, c1: le, e: le + 1 }]
                    + fn_scan(s, lo, le + 1, hi, claims.push((i as usize, (le + 1) as usize)))
            } else {
                fn_scan(s, lo, le + 1, hi, claims)
            }
        } else {
            fn_scan(s, lo, le, hi, claims)
        }
    } else {
        fn_scan(s, lo, i + 1, hi, claims)
    }
}

/// `[^label]` not followed by `:`; the label stops at `]` or a newline.
#[verifier::loop_isolation(false)]
fn parse_footnote_refs(
    b: &[u8],
    lo: usize,
    hi: usize,
    map: &Utf16Map,
    spans: &mut Vec<InlineSpan>,
    claimed: &mut ClaimedRanges,
)
    requires
        lo <= hi <= b@.len(),
        map.wf_for(b@),
        all_in(b@, old(spans)@, lo as int, hi as int),
    ensures
        all_in(b@, final(spans)@, lo as int, hi as int),
        ({
            let f = fn_scan(b@, lo as int, lo as int, hi as int, old(claimed).ranges@);
            &&& final(spans)@ == old(spans)@ + found_spans(b@, f)
            &&& final(claimed).ranges@ == old(claimed).ranges@ + found_claims(f)
        }),
{
    let ghost sp0 = spans@;
    let ghost c0 = claimed.ranges@;
    let ghost fnd: Seq<Found> = Seq::empty();
    let mut i = lo;
    while i + 2 < hi
        invariant
            lo <= i <= hi <= b@.len(),
            all_in(b@, spans@, lo as int, hi as int),
            spans@ == sp0 + found_spans(b@, fnd),
            claimed.ranges@ == c0 + found_claims(fnd),
            fnd + fn_scan(b@, lo as int, i as int, hi as int, claimed.ranges@) == fn_scan(
                b@,
                lo as int,
                lo as int,
                hi as int,
                c0,
            ),
        decreases hi - i,
    {
        if b[i] == 91u8 && b[i + 1] == 94u8 {
            if is_escaped(b, lo, i) {
                i = i + 1;
                continue;
            }
            let open = i;
            i = i + 2;
            let label_start = i;
            while i < hi && b[i] != 93u8 && b[i] != 10u8
                invariant
                    label_start <= i <= hi,
                    label_end(b@, i as int, hi as int) == label_end(b@, label_start as int, hi as int),
                decreases hi - i,
            {
                i = i + 1;
            }
            if i < hi && b[i] == 93u8 {
                if i + 1 < hi && b[i + 1] == 58u8 {
                    i = i + 1;
                    continue;
                }
                if i > label_start {
                    let e = i + 1;
                    if !claimed.overlaps(open, e) {
                        claimed.claim(open, e);
                        let sp = make_span(
                            InlineKind::FootnoteRef,
                            open,
                            e,
                            label_start,
                            i,
                            b,
                            map,
                            Ghost(lo as int),
                            Ghost(hi as int),
                        );
                        spans.push(sp);
                        proof {
                            let x = Found {
                                kind: InlineKind::FootnoteRef,
                                a: open as int,
                                c0: label_start as int,
                                c1: i as int,
                                e: e as int,
                            };
                            let before = claimed.ranges@.drop_last();
                            assert(before == c0 + found_claims(fnd));
                            assert(fn_scan(b@, lo as int, open as int, hi as int, before) == seq![x] + fn_scan(
                                b@,
                                lo as int,
                                e as int,
                                hi as int,
                                claimed.ranges@,
                            ));
                            assert(found_spans(b@, fnd.push(x)) =~= found_spans(b@, fnd).push(sp));
                            assert(found_claims(fnd.push(x)) =~= found_claims(fnd).push((open, e)));
                            assert(spans@ =~= sp0 + found_spans(b@, fnd.push(x)));
                            assert(claimed.ranges@ =~= c0 + found_claims(fnd.push(x)));
                            assert(fnd.push(x) + fn_scan(b@, lo as int, e as int, hi as int, claimed.ranges@)
                                =~= fnd + (seq![x] + fn_scan(b@, lo as int, e as int, hi as int, claimed.ranges@)));
                            fnd = fnd.push(x);
                        }
                    }
                }
                i = i + 1;
            }
        } else {
            i = i + 1;
        }
    }
}


// ---------------------------------------------------------------------------
// Bare URLs, domains, emails and subreddits
// ---------------------------------------------------------------------------

/// Bytes that end a bare URL.
pub open spec fn url_stop(c: u8) -> bool {
    crate::text::is_ascii_ws(c) || c == 60u8 || c == 62u8 || c == 34u8
}

/// Trailing punctuation stripped from a bare URL.
pub open spec fn url_trailing(c: u8) -> bool {
    c == 46u8 || c == 44u8 || c == 59u8 || c == 58u8 || c == 33u8 || c == 63u8 || c == 39u8 || c
        == 93u8
}

/// Where a URL body from `e` stops: at whitespace, `<`, `>`, `"`, an
/// unbalanced `)` (`depth` parentheses are open), or `hi`.
pub open spec fn url_body_end(s: Seq<u8>, e: int, hi: int, depth: int) -> int
    decreases hi - e,
{
    if e >= hi {
        e
    } else {
        let c = s[e];
        if crate::text::is_ascii_ws(c) || c == 60u8 || c == 62u8 || c == 34u8 {
            e
        } else if c == 40u8 {
            url_body_end(s, e + 1, hi, depth + 1)
        } else if c == 41u8 {
            if depth == 0 {
                e
            } else {
                url_body_end(s, e + 1, hi, depth - 1)
            }
        } else {
            url_body_end(s, e + 1, hi, depth)
        }
    }
}

/// `e` moved back over trailing URL punctuation, not below `lo`.
pub open spec fn url_trim_back(s: Seq<u8>, lo: int, e: int) -> int
    decreases e - lo,
{
    if e > lo && url_trailing(s[e - 1]) {
        url_trim_back(s, lo, e - 1)
    } else {
        e
    }
}

/// The end of a bare URL whose body starts at `p`, if any is left.
pub open spec fn url_end(s: Seq<u8>, p: int, hi: int) -> Option<int> {
    if p >= hi || crate::text::is_ascii_ws(s[p]) {
        None
    } else {
        let e = url_trim_back(s, p, url_body_end(s, p, hi, 0));
        if e <= p {
            None
        } else {
            Some(e)
        }
    }
}

/// End of a bare URL whose body starts at `scan_start`: up to whitespace,
/// `<`, `>`, `"` or an unbalanced `)`, minus trailing punctuation; `None`
/// when nothing is left.
#[verifier::loop_isolation(false)]
fn scan_url_end(b: &[u8], scan_start: usize, hi: usize) -> (r: Option<usize>)
    requires
        scan_start <= hi <= b@.len(),
    ensures
        r matches Some(e) ==> scan_start < e <= hi,
        r == (match url_end(b@, scan_start as int, hi as int) {
            Some(e) => Some(e as usize),
            None => None,
        }),
{
    let mut e = scan_start;
    if e >= hi || ascii_ws(b[e]) {
        return None;
    }
    let mut depth: usize = 0;
    while e < hi
        invariant
            scan_start <= e <= hi <= b@.len(),
            depth <= e - scan_start,
            url_body_end(b@, e as int, hi as int, depth as int) == url_body_end(
                b@,
                scan_start as int,
                hi as int,
                0,
            ),
        decreases hi - e,
    {
        let c = b[e];
        if ascii_ws(c) || c == 60u8 || c == 62u8 || c == 34u8 {
            break;
        }
        if c == 40u8 {
            depth = depth + 1;
        } else if c == 41u8 {
            if depth == 0 {
                break;
            }
            depth = depth - 1;
        }
        e = e + 1;
    }
    let ghost be = e as int;
    while e > scan_start
        invariant
            scan_start <= e <= hi <= b@.len(),
            url_trim_back(b@, scan_start as int, e as int) == url_trim_back(
                b@,
                scan_start as int,
                be,
            ),
            be == url_body_end(b@, scan_start as int, hi as int, 0),
        decreases e - scan_start,
    {
        let c = b[e - 1];
        if c == 46u8 || c == 44u8 || c == 59u8 || c == 58u8 || c == 33u8 || c == 63u8 || c == 39u8
            || c == 93u8 {
            e = e - 1;
        } else {
            break;
        }
    }
    if e <= scan_start {
        return None;
    }
    Some(e)
}

pub proof fn lemma_url_end(s: Seq<u8>, p: int, hi: int)
    ensures
        url_end(s, p, hi) matches Some(e) ==> p < e && (p <= hi ==> e <= hi),
{
    if !(p >= hi || crate::text::is_ascii_ws(s[p])) {
        lemma_url_body_end(s, p, hi, 0);
        lemma_url_trim_back(s, p, url_body_end(s, p, hi, 0));
    }
}

pub proof fn lemma_url_body_end(s: Seq<u8>, e: int, hi: int, depth: int)
    ensures
        e <= url_body_end(s, e, hi, depth),
        e <= hi ==> url_body_end(s, e, hi, depth) <= hi,
    decreases hi - e,
{
    if e < hi {
        let c = s[e];
        if !(crate::text::is_ascii_ws(c) || c == 60u8 || c == 62u8 || c == 34u8) {
            if c == 40u8 {
                lemma_url_body_end(s, e + 1, hi, depth + 1);
            } else if c == 41u8 {
                if depth != 0 {
                    lemma_url_body_end(s, e + 1, hi, depth - 1);
                }
            } else {
                lemma_url_body_end(s, e + 1, hi, depth);
            }
        }
    }
}

pub proof fn lemma_url_trim_back(s: Seq<u8>, lo: int, e: int)
    ensures
        url_trim_back(s, lo, e) <= e,
    decreases e - lo,
{
    if e > lo && url_trailing(s[e - 1]) {
        lemma_url_trim_back(s, lo, e - 1);
    }
}

/// The `https://` or `http://` prefix length at `i`, 0 for neither.
pub open spec fn scheme_len(s: Seq<u8>, i: int, hi: int) -> int {
    if crate::text::starts_with_at(s, i, hi, seq![104u8, 116u8, 116u8, 112u8, 115u8, 58u8, 47u8, 47u8]) {
        8
    } else if crate::text::starts_with_at(s, i, hi, seq![104u8, 116u8, 116u8, 112u8, 58u8, 47u8, 47u8]) {
        7
    } else {
        0
    }
}

/// The scheme URLs a scan of `s[lo..hi]` from `i` finds, given the claimed
/// ranges: `http://` or `https://` not after an ASCII letter or digit, then
/// a URL body (`url_end`); one overlapping a claim is skipped, a found one
/// is claimed.
pub open spec fn scheme_scan(s: Seq<u8>, lo: int, i: int, hi: int, claims: Seq<(usize, usize)>) -> Seq<
    LinkFound,
>
    decreases hi - i,
{
    if i < lo || i >= hi || hi > s.len() {
        Seq::empty()
    } else {
        let plen = scheme_len(s, i, hi);
        if plen == 0 || (i > lo && is_alnum(s[i - 1])) || i + plen > hi {
            scheme_scan(s, lo, i + 1, hi, claims)
        } else {
            match url_end(s, i + plen, hi) {
                Some(e) => {
                    proof {
                        lemma_url_end(s, i + plen, hi);
                    }
                    if overlaps_in(claims, i, e) {
                        scheme_scan(s, lo, e, hi, claims)
                    } else {
                        seq![LinkFound { a: i, c0: i, c1: e, e, pre: Seq::empty(), ua: i, uz: e }]
                            + scheme_scan(s, lo, e, hi, claims.push((i as usize, e as usize)))
                    }
                },
                None => scheme_scan(s, lo, i + 1, hi, claims),
            }
        }
    }
}

/// `https://` and `http://` URLs not preceded by an ASCII letter or digit.
#[verifier::loop_isolation(false)]
fn parse_scheme_urls(
    b: &[u8],
    lo: usize,
    hi: usize,
    map: &Utf16Map,
    spans: &mut Vec<InlineSpan>,
    claimed: &mut ClaimedRanges,
)
    requires
        lo <= hi <= b@.len(),
        map.wf_for(b@),
        all_in(b@, old(spans)@, lo as int, hi as int),
    ensures
        all_in(b@, final(spans)@, lo as int, hi as int),
        ({
            let f = scheme_scan(b@, lo as int, lo as int, hi as int, old(claimed).ranges@);
            &&& extends_with_links(b@, final(spans)@, old(spans)@, f)
            &&& final(claimed).ranges@ == old(claimed).ranges@ + link_claims(f)
        }),
{
    let ghost sp0 = spans@;
    let ghost c0 = claimed.ranges@;
    let ghost fnd: Seq<LinkFound> = Seq::empty();
    let https: [u8; 8] = [104u8, 116u8, 116u8, 112u8, 115u8, 58u8, 47u8, 47u8];
    let http: [u8; 7] = [104u8, 116u8, 116u8, 112u8, 58u8, 47u8, 47u8];
    proof {
        assert(https@ =~= seq![104u8, 116u8, 116u8, 112u8, 115u8, 58u8, 47u8, 47u8]);
        assert(http@ =~= seq![104u8, 116u8, 116u8, 112u8, 58u8, 47u8, 47u8]);
        assert(spans@.subrange(0, sp0.len() as int) =~= sp0);
        assert(spans@.subrange(sp0.len() as int, spans@.len() as int) =~= Seq::<InlineSpan>::empty());
        assert(link_claims(fnd) =~= Seq::<(usize, usize)>::empty());
        assert(c0 + link_claims(fnd) =~= c0);
    }
    let mut i = lo;
    while i < hi
        invariant
            lo <= i <= hi <= b@.len(),
            https@ == seq![104u8, 116u8, 116u8, 112u8, 115u8, 58u8, 47u8, 47u8],
            http@ == seq![104u8, 116u8, 116u8, 112u8, 58u8, 47u8, 47u8],
            all_in(b@, spans@, lo as int, hi as int),
            extends_with_links(b@, spans@, sp0, fnd),
            claimed.ranges@ == c0 + link_claims(fnd),
            fnd + scheme_scan(b@, lo as int, i as int, hi as int, claimed.ranges@) == scheme_scan(
                b@,
                lo as int,
                lo as int,
                hi as int,
                c0,
            ),
        decreases hi - i,
    {
        let plen: usize = if at(b, i, hi, https.as_slice()) {
            8
        } else if at(b, i, hi, http.as_slice()) {
            7
        } else {
            0
        };
        assert(plen as int == scheme_len(b@, i as int, hi as int));
        if plen == 0 {
            i = i + 1;
            continue;
        }
        if i > lo && alnum(b[i - 1]) {
            i = i + 1;
            continue;
        }
        if i + plen > hi {
            i = i + 1;
            continue;
        }
        match scan_url_end(b, i + plen, hi) {
            Some(e) => {
                proof {
                    lemma_url_end(b@, i + plen, hi as int);
                    assert(url_end(b@, i + plen, hi as int) == Some(e as int));
                }
                if !claimed.overlaps(i, e) {
                    let url = text_or_empty(b, i, e);
                    let ghost cl = claimed.ranges@;
                    let ghost sp1 = spans@;
                    claimed.claim(i, e);
                    let sp = make_span(
                        InlineKind::AutoLink { url },
                        i,
                        e,
                        i,
                        e,
                        b,
                        map,
                        Ghost(lo as int),
                        Ghost(hi as int),
                    );
                    spans.push(sp);
                    proof {
                        let x = LinkFound {
                            a: i as int,
                            c0: i as int,
                            c1: e as int,
                            e: e as int,
                            pre: Seq::empty(),
                            ua: i as int,
                            uz: e as int,
                        };
                        assert(scheme_scan(b@, lo as int, i as int, hi as int, cl) == seq![x]
                            + scheme_scan(b@, lo as int, e as int, hi as int, claimed.ranges@));
                        lemma_links_push(b@, sp1, sp0, fnd, sp, x);
                        assert(claimed.ranges@ =~= c0 + link_claims(fnd.push(x)));
                        assert(fnd.push(x) + scheme_scan(b@, lo as int, e as int, hi as int, claimed.ranges@)
                            =~= fnd + (seq![x] + scheme_scan(b@, lo as int, e as int, hi as int, claimed.ranges@)));
                        fnd = fnd.push(x);
                    }
                }
                i = e;
            },
            None => {
                i = i + 1;
            },
        }
    }
}

/// The curated top-level domains, compared in ASCII lowercase: com, org,
/// net, io, co, dev, app, ai, me, info, biz, tv, cc, xyz, tech, today, world,
/// life, space, site, online, store, cloud, design, gg, fm, sh, edu, gov,
/// mil and common country codes.
pub open spec fn common_tld(t: Seq<u8>) -> bool {
    lower_seq(t) == lower_seq(seq![99u8, 111u8, 109u8])
    || lower_seq(t) == lower_seq(seq![111u8, 114u8, 103u8])
    || lower_seq(t) == lower_seq(seq![110u8, 101u8, 116u8])
    || lower_seq(t) == lower_seq(seq![105u8, 111u8])
    || lower_seq(t) == lower_seq(seq![99u8, 111u8])
    || lower_seq(t) == lower_seq(seq![100u8, 101u8, 118u8])
    || lower_seq(t) == lower_seq(seq![97u8, 112u8, 112u8])
    || lower_seq(t) == lower_seq(seq![97u8, 105u8])
    || lower_seq(t) == lower_seq(seq![109u8, 101u8])
    || lower_seq(t) == lower_seq(seq![105u8, 110u8, 102u8, 111u8])
    || lower_seq(t) == lower_seq(seq![98u8, 105u8, 122u8])
    || lower_seq(t) == lower_seq(seq![116u8, 118u8])
    || lower_seq(t) == lower_seq(seq![99u8, 99u8])
    || lower_seq(t) == lower_seq(seq![120u8, 121u8, 122u8])
    || lower_seq(t) == lower_seq(seq![116u8, 101u8, 99u8, 104u8])
    || lower_seq(t) == lower_seq(seq![116u8, 111u8, 100u8, 97u8, 121u8])
    || lower_seq(t) == lower_seq(seq![119u8, 111u8, 114u8, 108u8, 100u8])
    || lower_seq(t) == lower_seq(seq![108u8, 105u8, 102u8, 101u8])
    || lower_seq(t) == lower_seq(seq![115u8, 112u8, 97u8, 99u8, 101u8])
    || lower_seq(t) == lower_seq(seq![115u8, 105u8, 116u8, 101u8])
    || lower_seq(t) == lower_seq(seq![111u8, 110u8, 108u8, 105u8, 110u8, 101u8])
    || lower_seq(t) == lower_seq(seq![115u8, 116u8, 111u8, 114u8, 101u8])
    || lower_seq(t) == lower_seq(seq![99u8, 108u8, 111u8, 117u8, 100u8])
    || lower_seq(t) == lower_seq(seq![100u8, 101u8, 115u8, 105u8, 103u8, 110u8])
    || lower_seq(t) == lower_seq(seq![103u8, 103u8])
    || lower_seq(t) == lower_seq(seq![102u8, 109u8])
    || lower_seq(t) == lower_seq(seq![115u8, 104u8])
    || lower_seq(t) == lower_seq(seq![101u8, 100u8, 117u8])
    || lower_seq(t) == lower_seq(seq![103u8, 111u8, 118u8])
    || lower_seq(t) == lower_seq(seq![109u8, 105u8, 108u8])
    || lower_seq(t) == lower_seq(seq![117u8, 115u8])
    || lower_seq(t) == lower_seq(seq![117u8, 107u8])
    || lower_seq(t) == lower_seq(seq![100u8, 101u8])
    || lower_seq(t) == lower_seq(seq![102u8, 114u8])
    || lower_seq(t) == lower_seq(seq![101u8, 115u8])
    || lower_seq(t) == lower_seq(seq![105u8, 116u8])
    || lower_seq(t) == lower_seq(seq![110u8, 108u8])
    || lower_seq(t) == lower_seq(seq![114u8, 117u8])
    || lower_seq(t) == lower_seq(seq![98u8, 114u8])
    || lower_seq(t) == lower_seq(seq![99u8, 97u8])
    || lower_seq(t) == lower_seq(seq![97u8, 117u8])
    || lower_seq(t) == lower_seq(seq![105u8, 110u8])
    || lower_seq(t) == lower_seq(seq![106u8, 112u8])
    || lower_seq(t) == lower_seq(seq![99u8, 110u8])
    || lower_seq(t) == lower_seq(seq![107u8, 114u8])
}

/// The TLD `b[a..z]` (compared in lowercase) is one of the curated TLDs.
fn is_common_tld(b: &[u8], a: usize, z: usize) -> (r: bool)
    requires
        a <= z <= b@.len(),
    ensures
        r == common_tld(b@.subrange(a as int, z as int)),
{
    let t0: [u8; 3] = [99u8, 111u8, 109u8];
    proof {
        assert(t0@ =~= seq![99u8, 111u8, 109u8]);
    }
    if range_eq_ignore_case(b, a, z, t0.as_slice()) {
        return true;
    }
    let t1: [u8; 3] = [111u8, 114u8, 103u8];
    proof {
        assert(t1@ =~= seq![111u8, 114u8, 103u8]);
    }
    if range_eq_ignore_case(b, a, z, t1.as_slice()) {
        return true;
    }
    let t2: [u8; 3] = [110u8, 101u8, 116u8];
    proof {
        assert(t2@ =~= seq![110u8, 101u8, 116u8]);
    }
    if range_eq_ignore_case(b, a, z, t2.as_slice()) {
        return true;
    }
    let t3: [u8; 2] = [105u8, 111u8];
    proof {
        assert(t3@ =~= seq![105u8, 111u8]);
    }
    if range_eq_ignore_case(b, a, z, t3.as_slice()) {
        return true;
    }
    let t4: [u8; 2] = [99u8, 111u8];
    proof {
        assert(t4@ =~= seq![99u8, 111u8]);
    }
    if range_eq_ignore_case(b, a, z, t4.as_slice()) {
        return true;
    }
    let t5: [u8; 3] = [100u8, 101u8, 118u8];
    proof {
        assert(t5@ =~= seq![100u8, 101u8, 118u8]);
    }
    if range_eq_ignore_case(b, a, z, t5.as_slice()) {
        return true;
    }
    let t6: [u8; 3] = [97u8, 112u8, 112u8];
    proof {
        assert(t6@ =~= seq![97u8, 112u8, 112u8]);
    }
    if range_eq_ignore_case(b, a, z, t6.as_slice()) {
        return true;
    }
    let t7: [u8; 2] = [97u8, 105u8];
    proof {
        assert(t7@ =~= seq![97u8, 105u8]);
    }
    if range_eq_ignore_case(b, a, z, t7.as_slice()) {
        return true;
    }
    let t8: [u8; 2] = [109u8, 101u8];
    proof {
        assert(t8@ =~= seq![109u8, 101u8]);
    }
    if range_eq_ignore_case(b, a, z, t8.as_slice()) {
        return true;
    }
    let t9: [u8; 4] = [105u8, 110u8, 102u8, 111u8];
    proof {
        assert(t9@ =~= seq![105u8, 110u8, 102u8, 111u8]);
    }
    if range_eq_ignore_case(b, a, z, t9.as_slice()) {
        return true;
    }
    let t10: [u8; 3] = [98u8, 105u8, 122u8];
    proof {
        assert(t10@ =~= seq![98u8, 105u8, 122u8]);
    }
    if range_eq_ignore_case(b, a, z, t10.as_slice()) {
        return true;
    }
    let t11: [u8; 2] = [116u8, 118u8];
    proof {
        assert(t11@ =~= seq![116u8, 118u8]);
    }
    if range_eq_ignore_case(b, a, z, t11.as_slice()) {
        return true;
    }
    let t12: [u8; 2] = [99u8, 99u8];
    proof {
        assert(t12@ =~= seq![99u8, 99u8]);
    }
    if range_eq_ignore_case(b, a, z, t12.as_slice()) {
        return true;
    }
    let t13: [u8; 3] = [120u8, 121u8, 122u8];
    proof {
        assert(t13@ =~= seq![120u8, 121u8, 122u8]);
    }
    if range_eq_ignore_case(b, a, z, t13.as_slice()) {
        return true;
    }
    let t14: [u8; 4] = [116u8, 101u8, 99u8, 104u8];
    proof {
        assert(t14@ =~= seq![116u8, 101u8, 99u8, 104u8]);
    }
    if range_eq_ignore_case(b, a, z, t14.as_slice()) {
        return true;
    }
    let t15: [u8; 5] = [116u8, 111u8, 100u8, 97u8, 121u8];
    proof {
        assert(t15@ =~= seq![116u8, 111u8, 100u8, 97u8, 121u8]);
    }
    if range_eq_ignore_case(b, a, z, t15.as_slice()) {
        return true;
    }
    let t16: [u8; 5] = [119u8, 111u8, 114u8, 108u8, 100u8];
    proof {
        assert(t16@ =~= seq![119u8, 111u8, 114u8, 108u8, 100u8]);
    }
    if range_eq_ignore_case(b, a, z, t16.as_slice()) {
        return true;
    }
    let t17: [u8; 4] = [108u8, 105u8, 102u8, 101u8];
    proof {
        assert(t17@ =~= seq![108u8, 105u8, 102u8, 101u8]);
    }
    if range_eq_ignore_case(b, a, z, t17.as_slice()) {
        return true;
    }
    let t18: [u8; 5] = [115u8, 112u8, 97u8, 99u8, 101u8];
    proof {
        assert(t18@ =~= seq![115u8, 112u8, 97u8, 99u8, 101u8]);
    }
    if range_eq_ignore_case(b, a, z, t18.as_slice()) {
        return true;
    }
    let t19: [u8; 4] = [115u8, 105u8, 116u8, 101u8];
    proof {
        assert(t19@ =~= seq![115u8, 105u8, 116u8, 101u8]);
    }
    if range_eq_ignore_case(b, a, z, t19.as_slice()) {
        return true;
    }
    let t20: [u8; 6] = [111u8, 110u8, 108u8, 105u8, 110u8, 101u8];
    proof {
        assert(t20@ =~= seq![111u8, 110u8, 108u8, 105u8, 110u8, 101u8]);
    }
    if range_eq_ignore_case(b, a, z, t20.as_slice()) {
        return true;
    }
    let t21: [u8; 5] = [115u8, 116u8, 111u8, 114u8, 101u8];
    proof {
        assert(t21@ =~= seq![115u8, 116u8, 111u8, 114u8, 101u8]);
    }
    if range_eq_ignore_case(b, a, z, t21.as_slice()) {
        return true;
    }
    let t22: [u8; 5] = [99u8, 108u8, 111u8, 117u8, 100u8];
    proof {
        assert(t22@ =~= seq![99u8, 108u8, 111u8, 117u8, 100u8]);
    }
    if range_eq_ignore_case(b, a, z, t22.as_slice()) {
        return true;
    }
    let t23: [u8; 6] = [100u8, 101u8, 115u8, 105u8, 103u8, 110u8];
    proof {
        assert(t23@ =~= seq![100u8, 101u8, 115u8, 105u8, 103u8, 110u8]);
    }
    if range_eq_ignore_case(b, a, z, t23.as_slice()) {
        return true;
    }
    let t24: [u8; 2] = [103u8, 103u8];
    proof {
        assert(t24@ =~= seq![103u8, 103u8]);
    }
    if range_eq_ignore_case(b, a, z, t24.as_slice()) {
        return true;
    }
    let t25: [u8; 2] = [102u8, 109u8];
    proof {
        assert(t25@ =~= seq![102u8, 109u8]);
    }
    if range_eq_ignore_case(b, a, z, t25.as_slice()) {
        return true;
    }
    let t26: [u8; 2] = [115u8, 104u8];
    proof {
        assert(t26@ =~= seq![115u8, 104u8]);
    }
    if range_eq_ignore_case(b, a, z, t26.as_slice()) {
        return true;
    }
    let t27: [u8; 3] = [101u8, 100u8, 117u8];
    proof {
        assert(t27@ =~= seq![101u8, 100u8, 117u8]);
    }
    if range_eq_ignore_case(b, a, z, t27.as_slice()) {
        return true;
    }
    let t28: [u8; 3] = [103u8, 111u8, 118u8];
    proof {
        assert(t28@ =~= seq![103u8, 111u8, 118u8]);
    }
    if range_eq_ignore_case(b, a, z, t28.as_slice()) {
        return true;
    }
    let t29: [u8; 3] = [109u8, 105u8, 108u8];
    proof {
        assert(t29@ =~= seq![109u8, 105u8, 108u8]);
    }
    if range_eq_ignore_case(b, a, z, t29.as_slice()) {
        return true;
    }
    let t30: [u8; 2] = [117u8, 115u8];
    proof {
        assert(t30@ =~= seq![117u8, 115u8]);
    }
    if range_eq_ignore_case(b, a, z, t30.as_slice()) {
        return true;
    }
    let t31: [u8; 2] = [117u8, 107u8];
    proof {
        assert(t31@ =~= seq![117u8, 107u8]);
    }
    if range_eq_ignore_case(b, a, z, t31.as_slice()) {
        return true;
    }
    let t32: [u8; 2] = [100u8, 101u8];
    proof {
        assert(t32@ =~= seq![100u8, 101u8]);
    }
    if range_eq_ignore_case(b, a, z, t32.as_slice()) {
        return true;
    }
    let t33: [u8; 2] = [102u8, 114u8];
    proof {
        assert(t33@ =~= seq![102u8, 114u8]);
    }
    if range_eq_ignore_case(b, a, z, t33.as_slice()) {
        return true;
    }
    let t34: [u8; 2] = [101u8, 115u8];
    proof {
        assert(t34@ =~= seq![101u8, 115u8]);
    }
    if range_eq_ignore_case(b, a, z, t34.as_slice()) {
        return true;
    }
    let t35: [u8; 2] = [105u8, 116u8];
    proof {
        assert(t35@ =~= seq![105u8, 116u8]);
    }
    if range_eq_ignore_case(b, a, z, t35.as_slice()) {
        return true;
    }
    let t36: [u8; 2] = [110u8, 108u8];
    proof {
        assert(t36@ =~= seq![110u8, 108u8]);
    }
    if range_eq_ignore_case(b, a, z, t36.as_slice()) {
        return true;
    }
    let t37: [u8; 2] = [114u8, 117u8];
    proof {
        assert(t37@ =~= seq![114u8, 117u8]);
    }
    if range_eq_ignore_case(b, a, z, t37.as_slice()) {
        return true;
    }
    let t38: [u8; 2] = [98u8, 114u8];
    proof {
        assert(t38@ =~= seq![98u8, 114u8]);
    }
    if range_eq_ignore_case(b, a, z, t38.as_slice()) {
        return true;
    }
    let t39: [u8; 2] = [99u8, 97u8];
    proof {
        assert(t39@ =~= seq![99u8, 97u8]);
    }
    if range_eq_ignore_case(b, a, z, t39.as_slice()) {
        return true;
    }
    let t40: [u8; 2] = [97u8, 117u8];
    proof {
        assert(t40@ =~= seq![97u8, 117u8]);
    }
    if range_eq_ignore_case(b, a, z, t40.as_slice()) {
        return true;
    }
    let t41: [u8; 2] = [105u8, 110u8];
    proof {
        assert(t41@ =~= seq![105u8, 110u8]);
    }
    if range_eq_ignore_case(b, a, z, t41.as_slice()) {
        return true;
    }
    let t42: [u8; 2] = [106u8, 112u8];
    proof {
        assert(t42@ =~= seq![106u8, 112u8]);
    }
    if range_eq_ignore_case(b, a, z, t42.as_slice()) {
        return true;
    }
    let t43: [u8; 2] = [99u8, 110u8];
    proof {
        assert(t43@ =~= seq![99u8, 110u8]);
    }
    if range_eq_ignore_case(b, a, z, t43.as_slice()) {
        return true;
    }
    let t44: [u8; 2] = [107u8, 114u8];
    proof {
        assert(t44@ =~= seq![107u8, 114u8]);
    }
    if range_eq_ignore_case(b, a, z, t44.as_slice()) {
        return true;
    }
    false
}

/// URL boundary bytes.
pub open spec fn url_boundary(c: u8) -> bool {
    crate::text::is_ascii_ws(c) || c == 40u8 || c == 41u8 || c == 91u8 || c == 93u8 || c == 123u8
        || c == 125u8 || c == 60u8 || c == 62u8 || c == 34u8 || c == 39u8 || c == 44u8 || c
        == 59u8
}

fn is_url_boundary(c: u8) -> (r: bool)
    ensures
        r == url_boundary(c),
{
    ascii_ws(c) || c == 40u8 || c == 41u8 || c == 91u8 || c == 93u8 || c == 123u8 || c == 125u8
        || c == 60u8 || c == 62u8 || c == 34u8 || c == 39u8 || c == 44u8 || c == 59u8
}

/// Bytes of a schemeless domain: ASCII letters, digits, `-`, `.`.
pub open spec fn domain_char(c: u8) -> bool {
    is_alnum(c) || c == 45u8 || c == 46u8
}

/// Start of the run of domain bytes ending at `p`, not below `lo`.
pub open spec fn domain_start(s: Seq<u8>, lo: int, p: int) -> int
    decreases p - lo,
{
    if p > lo && domain_char(s[p - 1]) {
        domain_start(s, lo, p - 1)
    } else {
        p
    }
}

pub proof fn lemma_domain_start(s: Seq<u8>, lo: int, p: int)
    requires
        lo <= p,
    ensures
        lo <= domain_start(s, lo, p) <= p,
    decreases p - lo,
{
    if p > lo && domain_char(s[p - 1]) {
        lemma_domain_start(s, lo, p - 1);
    }
}

/// End of the run of ASCII letters and digits from `p`, not beyond `hi`.
pub open spec fn alnum_end(s: Seq<u8>, p: int, hi: int) -> int
    decreases hi - p,
{
    if p < hi && is_alnum(s[p]) {
        alnum_end(s, p + 1, hi)
    } else {
        p
    }
}

pub proof fn lemma_alnum_end(s: Seq<u8>, p: int, hi: int)
    requires
        p <= hi,
    ensures
        p <= alnum_end(s, p, hi) <= hi,
    decreases hi - p,
{
    if p < hi && is_alnum(s[p]) {
        lemma_alnum_end(s, p + 1, hi);
    }
}

/// End of a schemeless URL whose TLD ends at `te`: a following `/` or `:`
/// extends it by a URL body when one is left.
pub open spec fn domain_url_end(s: Seq<u8>, te: int, hi: int) -> int {
    if te < hi && (s[te] == 47u8 || s[te] == 58u8) {
        match url_end(s, te, hi) {
            Some(x) => x,
            None => te,
        }
    } else {
        te
    }
}

/// The `https://` prefix of a schemeless URL.
pub open spec fn https_prefix() -> Seq<u8> {
    seq![104u8, 116u8, 116u8, 112u8, 115u8, 58u8, 47u8, 47u8]
}

/// The schemeless URLs a scan of `s[lo..hi]` from `i` finds, given the
/// claimed ranges: at each `.`, the domain run before it (not after `://`,
/// at the window start or after a URL boundary), an alphanumeric TLD after
/// it from the curated list, and an optional path or port; one overlapping
/// a claim is skipped, a found one is claimed.
pub open spec fn domain_scan(s: Seq<u8>, lo: int, i: int, hi: int, claims: Seq<(usize, usize)>) -> Seq<
    LinkFound,
>
    decreases hi - i,
{
    if i < lo || i >= hi || hi > s.len() {
        Seq::empty()
    } else if s[i] != 46u8 {
        domain_scan(s, lo, i + 1, hi, claims)
    } else {
        let ds = domain_start(s, lo, i);
        if ds == i || (ds - lo >= 3 && s[ds - 3] == 58u8 && s[ds - 2] == 47u8 && s[ds - 1] == 47u8) {
            domain_scan(s, lo, i + 1, hi, claims)
        } else {
            let te = alnum_end(s, i + 1, hi);
            proof {
                lemma_alnum_end(s, i + 1, hi);
            }
            if te == i + 1 {
                domain_scan(s, lo, i + 1, hi, claims)
            } else if !common_tld(s.subrange(i + 1, te)) || (ds > lo && !url_boundary(s[ds - 1])) {
                domain_scan(s, lo, te, hi, claims)
            } else {
                let e = domain_url_end(s, te, hi);
                proof {
                    lemma_url_end(s, te, hi);
                }
                if overlaps_in(claims, ds, e) {
                    domain_scan(s, lo, e, hi, claims)
                } else {
                    seq![LinkFound { a: ds, c0: ds, c1: e, e, pre: https_prefix(), ua: ds, uz: e }]
                        + domain_scan(s, lo, e, hi, claims.push((ds as usize, e as usize)))
                }
            }
        }
    }
}

/// Schemeless `domain.tld` URLs with a curated TLD, optionally followed by a
/// path or port; the URL gets an `https://` prefix.
#[verifier::loop_isolation(false)]
fn parse_domain_urls(
    b: &[u8],
    lo: usize,
    hi: usize,
    map: &Utf16Map,
    spans: &mut Vec<InlineSpan>,
    claimed: &mut ClaimedRanges,
)
    requires
        lo <= hi <= b@.len(),
        map.wf_for(b@),
        all_in(b@, old(spans)@, lo as int, hi as int),
    ensures
        all_in(b@, final(spans)@, lo as int, hi as int),
        ({
            let f = domain_scan(b@, lo as int, lo as int, hi as int, old(claimed).ranges@);
            &&& extends_with_links(b@, final(spans)@, old(spans)@, f)
            &&& final(claimed).ranges@ == old(claimed).ranges@ + link_claims(f)
        }),
{
    let ghost sp0 = spans@;
    let ghost c0 = claimed.ranges@;
    let ghost fnd: Seq<LinkFound> = Seq::empty();
    proof {
        assert(spans@.subrange(0, sp0.len() as int) =~= sp0);
        assert(spans@.subrange(sp0.len() as int, spans@.len() as int) =~= Seq::<InlineSpan>::empty());
        assert(link_claims(fnd) =~= Seq::<(usize, usize)>::empty());
        assert(c0 + link_claims(fnd) =~= c0);
    }
    let mut i = lo;
    while i < hi
        invariant
            lo <= i <= hi <= b@.len(),
            all_in(b@, spans@, lo as int, hi as int),
            extends_with_links(b@, spans@, sp0, fnd),
            claimed.ranges@ == c0 + link_claims(fnd),
            fnd + domain_scan(b@, lo as int, i as int, hi as int, claimed.ranges@) == domain_scan(
                b@,
                lo as int,
                lo as int,
                hi as int,
                c0,
            ),
        decreases hi - i,
    {
        if b[i] != 46u8 {
            i = i + 1;
            continue;
        }
        let dot = i;
        let mut ds = dot;
        while ds > lo
            invariant
                lo <= ds <= dot,
                domain_start(b@, lo as int, ds as int) == domain_start(b@, lo as int, dot as int),
            decreases ds - lo,
        {
            let prev = b[ds - 1];
            if alnum(prev) || prev == 45u8 || prev == 46u8 {
                ds = ds - 1;
            } else {
                break;
            }
        }
        if ds == dot {
            i = i + 1;
            continue;
        }
        if ds - lo >= 3 && b[ds - 3] == 58u8 && b[ds - 2] == 47u8 && b[ds - 1] == 47u8 {
            i = i + 1;
            continue;
        }
        let ts = dot + 1;
        let mut te = ts;
        while te < hi && alnum(b[te])
            invariant
                ts <= te <= hi,
                alnum_end(b@, te as int, hi as int) == alnum_end(b@, ts as int, hi as int),
            decreases hi - te,
        {
            te = te + 1;
        }
        if te == ts {
            i = i + 1;
            continue;
        }
        if !is_common_tld(b, ts, te) {
            i = te;
            continue;
        }
        if ds > lo && !is_url_boundary(b[ds - 1]) {
            i = te;
            continue;
        }
        let e = if te < hi && (b[te] == 47u8 || b[te] == 58u8) {
            match scan_url_end(b, te, hi) {
                Some(x) => x,
                None => te,
            }
        } else {
            te
        };
        proof {
            lemma_url_end(b@, te as int, hi as int);
            assert(e as int == domain_url_end(b@, te as int, hi as int));
        }
        if !claimed.overlaps(ds, e) {
            let pre: [u8; 8] = [104u8, 116u8, 116u8, 112u8, 115u8, 58u8, 47u8, 47u8];
            proof {
                assert(pre@ =~= https_prefix());
            }
            let url = prefixed_text(pre.as_slice(), b, ds, e);
            let ghost cl = claimed.ranges@;
            let ghost sp1 = spans@;
            claimed.claim(ds, e);
            let sp = make_span(
                InlineKind::AutoLink { url },
                ds,
                e,
                ds,
                e,
                b,
                map,
                Ghost(lo as int),
                Ghost(hi as int),
            );
            spans.push(sp);
            proof {
                let x = LinkFound {
                    a: ds as int,
                    c0: ds as int,
                    c1: e as int,
                    e: e as int,
                    pre: https_prefix(),
                    ua: ds as int,
                    uz: e as int,
                };
                assert(domain_scan(b@, lo as int, i as int, hi as int, cl) == seq![x]
                    + domain_scan(b@, lo as int, e as int, hi as int, claimed.ranges@));
                lemma_links_push(b@, sp1, sp0, fnd, sp, x);
                assert(claimed.ranges@ =~= c0 + link_claims(fnd.push(x)));
                assert(fnd.push(x) + domain_scan(b@, lo as int, e as int, hi as int, claimed.ranges@)
                    =~= fnd + (seq![x] + domain_scan(b@, lo as int, e as int, hi as int, claimed.ranges@)));
                fnd = fnd.push(x);
            }
        }
        i = e;
    }
}

/// Start boundary of a subreddit shorthand: ASCII whitespace or one of
/// `( [ { < " ' , ; : ! ?`.
pub open spec fn subreddit_start_boundary(c: u8) -> bool {
    crate::text::is_ascii_ws(c) || c == 40u8 || c == 91u8 || c == 123u8 || c == 60u8 || c == 34u8
        || c == 39u8 || c == 44u8 || c == 59u8 || c == 58u8 || c == 33u8 || c == 63u8
}

/// Start boundary of a subreddit shorthand.
fn is_subreddit_start_boundary(c: u8) -> (r: bool)
    ensures
        r == subreddit_start_boundary(c),
{
    ascii_ws(c) || c == 40u8 || c == 91u8 || c == 123u8 || c == 60u8 || c == 34u8 || c == 39u8
        || c == 44u8 || c == 59u8 || c == 58u8 || c == 33u8 || c == 63u8
}

/// End boundary of a subreddit shorthand: ASCII whitespace or one of
/// `/ . , ; : ! ? ) ] } > " '`.
pub open spec fn subreddit_end_boundary(c: u8) -> bool {
    crate::text::is_ascii_ws(c) || c == 47u8 || c == 46u8 || c == 44u8 || c == 59u8 || c == 58u8
        || c == 33u8 || c == 63u8 || c == 41u8 || c == 93u8 || c == 125u8 || c == 62u8 || c
        == 34u8 || c == 39u8
}

/// End boundary of a subreddit shorthand.
fn is_subreddit_end_boundary(c: u8) -> (r: bool)
    ensures
        r == subreddit_end_boundary(c),
{
    ascii_ws(c) || c == 47u8 || c == 46u8 || c == 44u8 || c == 59u8 || c == 58u8 || c == 33u8 || c
        == 63u8 || c == 41u8 || c == 93u8 || c == 125u8 || c == 62u8 || c == 34u8 || c == 39u8
}

/// `s[p..p+3]` (within `hi`) is U+FFFC (the attachment character).
pub open spec fn object_replacement_at(s: Seq<u8>, p: int, hi: int) -> bool {
    hi - p >= 3 && s[p] == 0xEFu8 && s[p + 1] == 0xBFu8 && s[p + 2] == 0xBCu8
}

/// `b[p..p+3]` is U+FFFC (the attachment character).
fn is_object_replacement(b: &[u8], p: usize, hi: usize) -> (r: bool)
    requires
        p <= hi <= b@.len(),
    ensures
        r == object_replacement_at(b@, p as int, hi as int),
{
    hi - p >= 3 && b[p] == 0xEFu8 && b[p + 1] == 0xBFu8 && b[p + 2] == 0xBCu8
}

/// A subreddit shorthand may start at `p`: at the window start, after an
/// attachment character, or after a start boundary.
pub open spec fn subreddit_start_at(s: Seq<u8>, lo: int, p: int) -> bool {
    p == lo || (p - lo >= 3 && object_replacement_at(s, p - 3, p)) || subreddit_start_boundary(
        s[p - 1],
    )
}

fn subreddit_start_ok(b: &[u8], lo: usize, p: usize) -> (r: bool)
    requires
        lo <= p <= b@.len(),
    ensures
        r == subreddit_start_at(b@, lo as int, p as int),
{
    if p == lo {
        return true;
    }
    if p - lo >= 3 && is_object_replacement(b, p - 3, p) {
        return true;
    }
    is_subreddit_start_boundary(b[p - 1])
}

/// A subreddit shorthand may end at `p`: at the window end, before an
/// attachment character, or before an end boundary.
pub open spec fn subreddit_end_at(s: Seq<u8>, p: int, hi: int) -> bool {
    p >= hi || object_replacement_at(s, p, hi) || subreddit_end_boundary(s[p])
}

fn subreddit_end_ok(b: &[u8], p: usize, hi: usize) -> (r: bool)
    requires
        p <= hi <= b@.len(),
    ensures
        r == subreddit_end_at(b@, p as int, hi as int),
{
    if p >= hi {
        return true;
    }
    if is_object_replacement(b, p, hi) {
        return true;
    }
    is_subreddit_end_boundary(b[p])
}

/// End of the run of ASCII letters, digits and `_` from `p`.
pub open spec fn name_end(s: Seq<u8>, p: int, hi: int) -> int
    decreases hi - p,
{
    if p < hi && (is_alnum(s[p]) || s[p] == 95u8) {
        name_end(s, p + 1, hi)
    } else {
        p
    }
}

pub proof fn lemma_name_end(s: Seq<u8>, p: int, hi: int)
    requires
        p <= hi,
    ensures
        p <= name_end(s, p, hi) <= hi,
    decreases hi - p,
{
    if p < hi && (is_alnum(s[p]) || s[p] == 95u8) {
        lemma_name_end(s, p + 1, hi);
    }
}

/// The address prefix of a subreddit link: `https://www.reddit.com/r/`.
pub open spec fn reddit_prefix() -> Seq<u8> {
    seq![
        104u8, 116u8, 116u8, 112u8, 115u8, 58u8, 47u8, 47u8, 119u8, 119u8, 119u8, 46u8,
        114u8, 101u8, 100u8, 100u8, 105u8, 116u8, 46u8, 99u8, 111u8, 109u8, 47u8, 114u8,
        47u8,
    ]
}

/// The subreddit links a scan of `s[lo..hi]` from `i` finds, given the
/// claimed ranges: `r/` or `R/` where a shorthand may start, a name of 2 to
/// 21 letters, digits or `_`, where a shorthand may end; one overlapping a
/// claim is skipped, a found one is claimed.
pub open spec fn subreddit_scan(s: Seq<u8>, lo: int, i: int, hi: int, claims: Seq<(usize, usize)>) -> Seq<
    LinkFound,
>
    decreases hi - i,
{
    if i < lo || i + 3 > hi || hi > s.len() {
        Seq::empty()
    } else if !(s[i] == 114u8 || s[i] == 82u8) || s[i + 1] != 47u8 || !subreddit_start_at(s, lo, i) {
        subreddit_scan(s, lo, i + 1, hi, claims)
    } else {
        let ne = name_end(s, i + 2, hi);
        proof {
            lemma_name_end(s, i + 2, hi);
        }
        if ne - (i + 2) < 2 || ne - (i + 2) > 21 || !subreddit_end_at(s, ne, hi) {
            subreddit_scan(s, lo, i + 1, hi, claims)
        } else if overlaps_in(claims, i, ne) {
            subreddit_scan(s, lo, ne, hi, claims)
        } else {
            seq![LinkFound { a: i, c0: i, c1: ne, e: ne, pre: reddit_prefix(), ua: i + 2, uz: ne }]
                + subreddit_scan(s, lo, ne, hi, claims.push((i as usize, ne as usize)))
        }
    }
}

/// `r/name` (2 to 21 letters, digits or `_`) at word boundaries; the URL is
/// the subreddit's address.
#[verifier::loop_isolation(false)]
fn parse_subreddit_autolinks(
    b: &[u8],
    lo: usize,
    hi: usize,
    map: &Utf16Map,
    spans: &mut Vec<InlineSpan>,
    claimed: &mut ClaimedRanges,
)
    requires
        lo <= hi <= b@.len(),
        map.wf_for(b@),
        all_in(b@, old(spans)@, lo as int, hi as int),
    ensures
        all_in(b@, final(spans)@, lo as int, hi as int),
        ({
            let f = subreddit_scan(b@, lo as int, lo as int, hi as int, old(claimed).ranges@);
            &&& extends_with_links(b@, final(spans)@, old(spans)@, f)
            &&& final(claimed).ranges@ == old(claimed).ranges@ + link_claims(f)
        }),
{
    let ghost sp0 = spans@;
    let ghost c0 = claimed.ranges@;
    let ghost fnd: Seq<LinkFound> = Seq::empty();
    proof {
        assert(spans@.subrange(0, sp0.len() as int) =~= sp0);
        assert(spans@.subrange(sp0.len() as int, spans@.len() as int) =~= Seq::<InlineSpan>::empty());
        assert(link_claims(fnd) =~= Seq::<(usize, usize)>::empty());
        assert(c0 + link_claims(fnd) =~= c0);
    }
    let mut i = lo;
    while i + 3 <= hi
        invariant
            lo <= i <= hi <= b@.len(),
            all_in(b@, spans@, lo as int, hi as int),
            extends_with_links(b@, spans@, sp0, fnd),
            claimed.ranges@ == c0 + link_claims(fnd),
            fnd + subreddit_scan(b@, lo as int, i as int, hi as int, claimed.ranges@) == subreddit_scan(
                b@,
                lo as int,
                lo as int,
                hi as int,
                c0,
            ),
        decreases hi - i,
    {
        if !(b[i] == 114u8 || b[i] == 82u8) || b[i + 1] != 47u8 {
            i = i + 1;
            continue;
        }
        if !subreddit_start_ok(b, lo, i) {
            i = i + 1;
            continue;
        }
        let ns = i + 2;
        let mut ne = ns;
        while ne < hi && (alnum(b[ne]) || b[ne] == 95u8)
            invariant
                ns <= ne <= hi,
                name_end(b@, ne as int, hi as int) == name_end(b@, ns as int, hi as int),
            decreases hi - ne,
        {
            ne = ne + 1;
        }
        let len = ne - ns;
        if len < 2 || len > 21 {
            i = i + 1;
            continue;
        }
        if !subreddit_end_ok(b, ne, hi) {
            i = i + 1;
            continue;
        }
        if !claimed.overlaps(i, ne) {
            let pre: [u8; 25] = [
                104u8, 116u8, 116u8, 112u8, 115u8, 58u8, 47u8, 47u8, 119u8, 119u8, 119u8, 46u8,
                114u8, 101u8, 100u8, 100u8, 105u8, 116u8, 46u8, 99u8, 111u8, 109u8, 47u8, 114u8,
                47u8,
            ];
            proof {
                assert(pre@ =~= reddit_prefix());
            }
            let url = prefixed_text(pre.as_slice(), b, ns, ne);
            let ghost cl = claimed.ranges@;
            let ghost sp1 = spans@;
            claimed.claim(i, ne);
            let sp = make_span(
                InlineKind::AutoLink { url },
                i,
                ne,
                i,
                ne,
                b,
                map,
                Ghost(lo as int),
                Ghost(hi as int),
            );
            spans.push(sp);
            proof {
                let x = LinkFound {
                    a: i as int,
                    c0: i as int,
                    c1: ne as int,
                    e: ne as int,
                    pre: reddit_prefix(),
                    ua: ns as int,
                    uz: ne as int,
                };
                assert(subreddit_scan(b@, lo as int, i as int, hi as int, cl) == seq![x]
                    + subreddit_scan(b@, lo as int, ne as int, hi as int, claimed.ranges@));
                lemma_links_push(b@, sp1, sp0, fnd, sp, x);
                assert(claimed.ranges@ =~= c0 + link_claims(fnd.push(x)));
                assert(fnd.push(x) + subreddit_scan(b@, lo as int, ne as int, hi as int, claimed.ranges@)
                    =~= fnd + (seq![x] + subreddit_scan(b@, lo as int, ne as int, hi as int, claimed.ranges@)));
                fnd = fnd.push(x);
            }
        }
        i = ne;
    }
}

/// Characters of a bare email's local part: ASCII letters and digits and
/// `. _ % + -`.
pub open spec fn local_char(c: u8) -> bool {
    crate::text::is_alnum(c) || c == 46u8 || c == 95u8 || c == 37u8 || c == 43u8 || c == 45u8
}

/// Characters of a bare email's local part.
fn bare_local_char(c: u8) -> (r: bool)
    ensures
        r == local_char(c),
{
    alnum(c) || c == 46u8 || c == 95u8 || c == 37u8 || c == 43u8 || c == 45u8
}

/// Just after the last `c` in `s[a..q]`, or `a` when there is none.
pub open spec fn after_last(s: Seq<u8>, a: int, q: int, c: u8) -> int
    decreases q - a,
{
    if q > a && s[q - 1] != c {
        after_last(s, a, q - 1, c)
    } else {
        q
    }
}

/// The domain `s[a..z]` is acceptable: it starts with neither `-` nor `.`,
/// contains a dot, has no two consecutive dots, and ends in a label of at
/// least two ASCII letters.
pub open spec fn domain_ok(s: Seq<u8>, a: int, z: int) -> bool {
    let d = after_last(s, a, z, 46u8);
    &&& s[a] != 45u8 && s[a] != 46u8
    &&& exists|j: int| a <= j < z && s[j] == 46u8
    &&& forall|k: int| a <= k < z - 1 ==> !(#[trigger] s[k] == 46u8 && s[k + 1] == 46u8)
    &&& z - d >= 2
    &&& forall|t: int| d <= t < z ==> crate::text::is_alpha(#[trigger] s[t])
}

/// Whether the domain `b[a..z]` (no leading `.`/`-`) is acceptable: it
/// contains a dot, no two consecutive dots, and ends in a TLD of at least
/// two ASCII letters.
#[verifier::loop_isolation(false)]
fn bare_domain_ok(b: &[u8], a: usize, z: usize) -> (r: bool)
    requires
        a < z <= b@.len(),
    ensures
        r == domain_ok(b@, a as int, z as int),
{
    if b[a] == 45u8 || b[a] == 46u8 || !crate::text::contains_byte(b, a, z, 46u8) {
        return false;
    }
    let mut k = a;
    while k < z - 1
        invariant
            a < z <= b@.len(),
            a <= k <= z,
            forall|j: int| a <= j < k ==> !(#[trigger] b@[j] == 46u8 && b@[j + 1] == 46u8),
        decreases z - k,
    {
        if b[k] == 46u8 && b[k + 1] == 46u8 {
            return false;
        }
        k = k + 1;
    }
    // Last dot.
    let mut d = z;
    while d > a && b[d - 1] != 46u8
        invariant
            a <= d <= z <= b@.len(),
            after_last(b@, a as int, d as int, 46u8) == after_last(b@, a as int, z as int, 46u8),
        decreases d - a,
    {
        d = d - 1;
    }
    // `d` is one past the last dot (a dot exists).
    if z - d < 2 {
        return false;
    }
    let mut t = d;
    while t < z
        invariant
            d <= t <= z <= b@.len(),
            forall|j: int| d <= j < t ==> crate::text::is_alpha(#[trigger] b@[j]),
        decreases z - t,
    {
        if !alpha(b[t]) {
            return false;
        }
        t = t + 1;
    }
    true
}

/// Start of the run of local-part bytes ending at `p`, not below `lo`.
pub open spec fn local_start(s: Seq<u8>, lo: int, p: int) -> int
    decreases p - lo,
{
    if p > lo && local_char(s[p - 1]) {
        local_start(s, lo, p - 1)
    } else {
        p
    }
}

pub proof fn lemma_local_start(s: Seq<u8>, lo: int, p: int)
    requires
        lo <= p,
    ensures
        lo <= local_start(s, lo, p) <= p,
    decreases p - lo,
{
    if p > lo && local_char(s[p - 1]) {
        lemma_local_start(s, lo, p - 1);
    }
}

/// `p` moved forward over `.` bytes, not beyond `q`.
pub open spec fn skip_dots(s: Seq<u8>, p: int, q: int) -> int
    decreases q - p,
{
    if p < q && s[p] == 46u8 {
        skip_dots(s, p + 1, q)
    } else {
        p
    }
}

pub proof fn lemma_skip_dots(s: Seq<u8>, p: int, q: int)
    requires
        p <= q,
    ensures
        p <= skip_dots(s, p, q) <= q,
    decreases q - p,
{
    if p < q && s[p] == 46u8 {
        lemma_skip_dots(s, p + 1, q);
    }
}

/// End of the run of domain bytes (`email_domain_char`) from `p`.
pub open spec fn email_domain_end(s: Seq<u8>, p: int, hi: int) -> int
    decreases hi - p,
{
    if p < hi && email_domain_char(s[p]) {
        email_domain_end(s, p + 1, hi)
    } else {
        p
    }
}

pub proof fn lemma_email_domain_end(s: Seq<u8>, p: int, hi: int)
    requires
        p <= hi,
    ensures
        p <= email_domain_end(s, p, hi) <= hi,
    decreases hi - p,
{
    if p < hi && email_domain_char(s[p]) {
        lemma_email_domain_end(s, p + 1, hi);
    }
}

/// `p` moved back over trailing `.` and `-`, not below `lo`.
pub open spec fn trim_dot_dash(s: Seq<u8>, lo: int, p: int) -> int
    decreases p - lo,
{
    if p > lo && (s[p - 1] == 46u8 || s[p - 1] == 45u8) {
        trim_dot_dash(s, lo, p - 1)
    } else {
        p
    }
}

pub proof fn lemma_trim_dot_dash(s: Seq<u8>, lo: int, p: int)
    requires
        lo <= p,
    ensures
        lo <= trim_dot_dash(s, lo, p) <= p,
    decreases p - lo,
{
    if p > lo && (s[p - 1] == 46u8 || s[p - 1] == 45u8) {
        lemma_trim_dot_dash(s, lo, p - 1);
    }
}

/// The `mailto:` prefix of an email link.
pub open spec fn mailto_prefix() -> Seq<u8> {
    seq![109u8, 97u8, 105u8, 108u8, 116u8, 111u8, 58u8]
}

/// The bare emails a scan of `s[lo..hi]` from `i` finds, given the claimed
/// ranges: at each unescaped `@`, the local part before it (leading dots
/// dropped, not ending in a dot, at the window start or after a URL boundary
/// or a dot) and the domain after it (trailing `.` and `-` dropped,
/// `domain_ok`); one overlapping a claim is skipped, a found one is claimed.
pub open spec fn email_scan(s: Seq<u8>, lo: int, i: int, hi: int, claims: Seq<(usize, usize)>) -> Seq<
    LinkFound,
>
    decreases hi - i,
{
    if i < lo || i >= hi || hi > s.len() {
        Seq::empty()
    } else if s[i] != 64u8 || escaped(s, lo, i) {
        email_scan(s, lo, i + 1, hi, claims)
    } else {
        let ls = skip_dots(s, local_start(s, lo, i), i);
        let de = trim_dot_dash(s, i + 1, email_domain_end(s, i + 1, hi));
        proof {
            lemma_email_domain_end(s, i + 1, hi);
            lemma_trim_dot_dash(s, i + 1, email_domain_end(s, i + 1, hi));
        }
        if ls == i || s[i - 1] == 46u8 || (ls > lo && !url_boundary(s[ls - 1]) && s[ls - 1] != 46u8)
            || de <= i + 1 || !domain_ok(s, i + 1, de) {
            email_scan(s, lo, i + 1, hi, claims)
        } else if overlaps_in(claims, ls, de) {
            email_scan(s, lo, de, hi, claims)
        } else {
            seq![LinkFound { a: ls, c0: ls, c1: de, e: de, pre: mailto_prefix(), ua: ls, uz: de }]
                + email_scan(s, lo, de, hi, claims.push((ls as usize, de as usize)))
        }
    }
}

/// Bare email addresses `local@domain.tld`, emitted as `mailto:` links.
#[verifier::loop_isolation(false)]
fn parse_bare_email_autolinks(
    b: &[u8],
    lo: usize,
    hi: usize,
    map: &Utf16Map,
    spans: &mut Vec<InlineSpan>,
    claimed: &mut ClaimedRanges,
)
    requires
        lo <= hi <= b@.len(),
        map.wf_for(b@),
        all_in(b@, old(spans)@, lo as int, hi as int),
    ensures
        all_in(b@, final(spans)@, lo as int, hi as int),
        ({
            let f = email_scan(b@, lo as int, lo as int, hi as int, old(claimed).ranges@);
            &&& extends_with_links(b@, final(spans)@, old(spans)@, f)
            &&& final(claimed).ranges@ == old(claimed).ranges@ + link_claims(f)
        }),
{
    let ghost sp0 = spans@;
    let ghost c0 = claimed.ranges@;
    let ghost fnd: Seq<LinkFound> = Seq::empty();
    proof {
        assert(spans@.subrange(0, sp0.len() as int) =~= sp0);
        assert(spans@.subrange(sp0.len() as int, spans@.len() as int) =~= Seq::<InlineSpan>::empty());
        assert(link_claims(fnd) =~= Seq::<(usize, usize)>::empty());
        assert(c0 + link_claims(fnd) =~= c0);
    }
    let mut i = lo;
    while i < hi
        invariant
            lo <= i <= hi <= b@.len(),
            all_in(b@, spans@, lo as int, hi as int),
            extends_with_links(b@, spans@, sp0, fnd),
            claimed.ranges@ == c0 + link_claims(fnd),
            fnd + email_scan(b@, lo as int, i as int, hi as int, claimed.ranges@) == email_scan(
                b@,
                lo as int,
                lo as int,
                hi as int,
                c0,
            ),
        decreases hi - i,
    {
        if b[i] != 64u8 || is_escaped(b, lo, i) {
            i = i + 1;
            continue;
        }
        let mut ls = i;
        while ls > lo && bare_local_char(b[ls - 1])
            invariant
                lo <= ls <= i,
                local_start(b@, lo as int, ls as int) == local_start(b@, lo as int, i as int),
            decreases ls - lo,
        {
            ls = ls - 1;
        }
        let ghost ls0 = ls as int;
        while ls < i && b[ls] == 46u8
            invariant
                lo <= ls0 <= ls <= i,
                skip_dots(b@, ls as int, i as int) == skip_dots(b@, ls0, i as int),
            decreases i - ls,
        {
            ls = ls + 1;
        }
        if ls == i || b[i - 1] == 46u8 {
            i = i + 1;
            continue;
        }
        if ls > lo {
            let before = b[ls - 1];
            if !is_url_boundary(before) && before != 46u8 {
                i = i + 1;
                continue;
            }
        }
        let mut de = i + 1;
        while de < hi && (alnum(b[de]) || b[de] == 46u8 || b[de] == 45u8)
            invariant
                i + 1 <= de <= hi,
                email_domain_end(b@, de as int, hi as int) == email_domain_end(b@, i + 1, hi as int),
            decreases hi - de,
        {
            de = de + 1;
        }
        let ghost de0 = de as int;
        while de > i + 1 && (b[de - 1] == 46u8 || b[de - 1] == 45u8)
            invariant
                i + 1 <= de <= de0 <= hi,
                trim_dot_dash(b@, i + 1, de as int) == trim_dot_dash(b@, i + 1, de0),
            decreases de,
        {
            de = de - 1;
        }
        if de <= i + 1 {
            i = i + 1;
            continue;
        }
        if !bare_domain_ok(b, i + 1, de) {
            i = i + 1;
            continue;
        }
        if !claimed.overlaps(ls, de) {
            let pre: [u8; 7] = [109u8, 97u8, 105u8, 108u8, 116u8, 111u8, 58u8];
            proof {
                assert(pre@ =~= mailto_prefix());
            }
            let url = prefixed_text(pre.as_slice(), b, ls, de);
            let ghost cl = claimed.ranges@;
            let ghost sp1 = spans@;
            claimed.claim(ls, de);
            let sp = make_span(
                InlineKind::AutoLink { url },
                ls,
                de,
                ls,
                de,
                b,
                map,
                Ghost(lo as int),
                Ghost(hi as int),
            );
            spans.push(sp);
            proof {
                let x = LinkFound {
                    a: ls as int,
                    c0: ls as int,
                    c1: de as int,
                    e: de as int,
                    pre: mailto_prefix(),
                    ua: ls as int,
                    uz: de as int,
                };
                assert(email_scan(b@, lo as int, i as int, hi as int, cl) == seq![x]
                    + email_scan(b@, lo as int, de as int, hi as int, claimed.ranges@));
                lemma_links_push(b@, sp1, sp0, fnd, sp, x);
                assert(claimed.ranges@ =~= c0 + link_claims(fnd.push(x)));
                assert(fnd.push(x) + email_scan(b@, lo as int, de as int, hi as int, claimed.ranges@)
                    =~= fnd + (seq![x] + email_scan(b@, lo as int, de as int, hi as int, claimed.ranges@)));
                fnd = fnd.push(x);
            }
        }
        i = de;
    }
}

/// Links found by one pass after another's, extending the spans it left,
/// extend the first spans with both.
pub proof fn lemma_links_chain(
    s: Seq<u8>,
    sp0: Seq<InlineSpan>,
    sp1: Seq<InlineSpan>,
    sp2: Seq<InlineSpan>,
    f: Seq<LinkFound>,
    g: Seq<LinkFound>,
)
    requires
        extends_with_links(s, sp1, sp0, f),
        extends_with_links(s, sp2, sp1, g),
    ensures
        extends_with_links(s, sp2, sp0, f + g),
        link_claims(f + g) == link_claims(f) + link_claims(g),
{
    let n0 = sp0.len() as int;
    let n1 = sp1.len() as int;
    assert(sp2.subrange(0, n1) == sp1);
    assert(sp2.subrange(0, n0) =~= sp1.subrange(0, n0));
    let t1 = sp1.subrange(n0, n1);
    let t2 = sp2.subrange(n1, sp2.len() as int);
    let t = sp2.subrange(n0, sp2.len() as int);
    assert forall|k: int| 0 <= k < (f + g).len() implies link_fits(s, #[trigger] t[k], (f + g)[k]) by {
        if k < f.len() {
            assert(t[k] == sp2.subrange(0, n1)[n0 + k]);
            assert(t[k] == t1[k]);
        } else {
            assert(t[k] == t2[k - f.len()]);
        }
    }
    assert(link_claims(f + g) =~= link_claims(f) + link_claims(g));
}

/// What the bare-link passes find in turn from the claims `c`: scheme
/// URLs, emails, domains, subreddits, each pass seeing the claims of those
/// before it.
pub open spec fn autolinks_found(s: Seq<u8>, lo: int, hi: int, c: Seq<(usize, usize)>) -> Seq<LinkFound> {
    let f1 = scheme_scan(s, lo, lo, hi, c);
    let c1 = c + link_claims(f1);
    let f2 = email_scan(s, lo, lo, hi, c1);
    let c2 = c1 + link_claims(f2);
    let f3 = domain_scan(s, lo, lo, hi, c2);
    let c3 = c2 + link_claims(f3);
    let f4 = subreddit_scan(s, lo, lo, hi, c3);
    f1 + f2 + f3 + f4
}

/// All bare-link passes: scheme URLs, emails, domains, subreddits.
fn parse_autolinks(
    b: &[u8],
    lo: usize,
    hi: usize,
    map: &Utf16Map,
    spans: &mut Vec<InlineSpan>,
    claimed: &mut ClaimedRanges,
)
    requires
        lo <= hi <= b@.len(),
        map.wf_for(b@),
        all_in(b@, old(spans)@, lo as int, hi as int),
    ensures
        all_in(b@, final(spans)@, lo as int, hi as int),
        ({
            let f = autolinks_found(b@, lo as int, hi as int, old(claimed).ranges@);
            &&& extends_with_links(b@, final(spans)@, old(spans)@, f)
            &&& final(claimed).ranges@ == old(claimed).ranges@ + link_claims(f)
        }),
{
    let ghost s0 = spans@;
    let ghost c0 = claimed.ranges@;
    parse_scheme_urls(b, lo, hi, map, spans, claimed);
    let ghost s1 = spans@;
    let ghost c1 = claimed.ranges@;
    parse_bare_email_autolinks(b, lo, hi, map, spans, claimed);
    let ghost s2 = spans@;
    let ghost c2 = claimed.ranges@;
    parse_domain_urls(b, lo, hi, map, spans, claimed);
    let ghost s3 = spans@;
    let ghost c3 = claimed.ranges@;
    parse_subreddit_autolinks(b, lo, hi, map, spans, claimed);
    proof {
        let f1 = scheme_scan(b@, lo as int, lo as int, hi as int, c0);
        let f2 = email_scan(b@, lo as int, lo as int, hi as int, c1);
        let f3 = domain_scan(b@, lo as int, lo as int, hi as int, c2);
        let f4 = subreddit_scan(b@, lo as int, lo as int, hi as int, c3);
        lemma_links_chain(b@, s0, s1, s2, f1, f2);
        lemma_links_chain(b@, s0, s2, s3, f1 + f2, f3);
        lemma_links_chain(b@, s0, s3, spans@, f1 + f2 + f3, f4);
        assert(claimed.ranges@ =~= c0 + link_claims(f1 + f2 + f3 + f4));
    }
}

// ---------------------------------------------------------------------------
// Hex colors and highlights
// ---------------------------------------------------------------------------

/// The six lowercase hex digits a color literal of `n` digits at `a`
/// normalizes to: 3 and 4 digits double each of the first three, 6 and 8
/// digits keep the first six.
pub open spec fn normalized_hex(s: Seq<u8>, a: int, n: int) -> Seq<u8> {
    if n == 3 || n == 4 {
        Seq::new(6, |k: int| crate::text::lower(s[a + k / 2]))
    } else if n == 6 || n == 8 {
        Seq::new(6, |k: int| crate::text::lower(s[a + k]))
    } else {
        Seq::empty()
    }
}

/// Normalize the hex digits `b[a..a+n]`.
fn normalize_hex(b: &[u8], a: usize, n: usize) -> (r: String)
    requires
        a + n <= b@.len(),
        n == 3 || n == 4 || n == 6 || n == 8,
    ensures
        r@ == utf8_text(normalized_hex(b@, a as int, n as int)),
{
    let mut v: Vec<u8> = Vec::new();
    let mut k: usize = 0;
    let len = b.len();
    while k < 6
        invariant
            k <= 6,
            len == b@.len(),
            a + n <= b@.len(),
            n == 3 || n == 4 || n == 6 || n == 8,
            v@.len() == k,
            forall|j: int| 0 <= j < k ==> #[trigger] v@[j] == normalized_hex(b@, a as int, n as int)[j],
        decreases 6 - k,
    {
        let off: usize = if n == 3 || n == 4 {
            k / 2
        } else {
            k
        };
        assert(off < n);
        assert(a + off < b@.len());
        v.push(to_lower(b[a + off]));
        k = k + 1;
    }
    proof {
        assert(v@ =~= normalized_hex(b@, a as int, n as int));
    }
    string_from_bytes(v.as_slice())
}

/// End of the run of ASCII hex digits from `p`.
pub open spec fn hex_end(s: Seq<u8>, p: int, hi: int) -> int
    decreases hi - p,
{
    if p < hi && is_hex(s[p]) {
        hex_end(s, p + 1, hi)
    } else {
        p
    }
}

pub proof fn lemma_hex_end(s: Seq<u8>, p: int, hi: int)
    ensures
        p <= hex_end(s, p, hi),
        p <= hi ==> hex_end(s, p, hi) <= hi,
    decreases hi - p,
{
    if p < hi && is_hex(s[p]) {
        lemma_hex_end(s, p + 1, hi);
    }
}

/// The hex colors a scan of `s[lo..hi]` from `i` finds, as `(start, end)`,
/// given the claimed ranges: an unescaped `#` not after a letter or digit
/// nor right after `=={`, then 3, 4, 6 or 8 hex digits not followed by a
/// letter, digit or `_`; a color overlapping a claim is dropped, a found one
/// is claimed.
pub open spec fn hex_scan(s: Seq<u8>, lo: int, i: int, hi: int, claims: Seq<(usize, usize)>) -> Seq<
    (int, int),
>
    decreases hi - i,
{
    if i < 0 || i >= hi || hi > s.len() {
        Seq::empty()
    } else if s[i] != 35u8 || escaped(s, lo, i) {
        hex_scan(s, lo, i + 1, hi, claims)
    } else if i > lo && is_alnum(s[i - 1]) {
        hex_scan(s, lo, i + 1, hi, claims)
    } else if i - lo >= 3 && s[i - 1] == 123u8 && s[i - 2] == 61u8 && s[i - 3] == 61u8 {
        hex_scan(s, lo, i + 1, hi, claims)
    } else {
        let j = hex_end(s, i + 1, hi);
        let n = j - (i + 1);
        proof {
            lemma_hex_end(s, i + 1, hi);
        }
        if !(n == 3 || n == 4 || n == 6 || n == 8) {
            hex_scan(s, lo, i + 1, hi, claims)
        } else if j < hi && (is_alnum(s[j]) || s[j] == 95u8) {
            hex_scan(s, lo, i + 1, hi, claims)
        } else if overlaps_in(claims, i, j) {
            hex_scan(s, lo, j, hi, claims)
        } else {
            seq![(i, j)] + hex_scan(s, lo, j, hi, claims.push((i as usize, j as usize)))
        }
    }
}

/// The span of the hex color `s[a..e]`: kind `HexColor` with the
/// normalized digits, content after the `#`.
pub open spec fn hex_span_fits(s: Seq<u8>, sp: InlineSpan, a: int, e: int) -> bool {
    &&& sp.kind matches InlineKind::HexColor { hex } && hex@ == utf8_text(
        normalized_hex(s, a + 1, e - a - 1),
    )
    &&& sp.utf16_start == utf16_offset(s, a)
    &&& sp.utf16_end == utf16_offset(s, e)
    &&& sp.content_utf16_start == utf16_offset(s, a + 1)
    &&& sp.content_utf16_end == utf16_offset(s, e)
}

/// The spans `sps` are those of the hex colors `f`, in order.
pub open spec fn hex_spans_fit(s: Seq<u8>, sps: Seq<InlineSpan>, f: Seq<(int, int)>) -> bool {
    &&& sps.len() == f.len()
    &&& forall|k: int| 0 <= k < f.len() ==> hex_span_fits(s, #[trigger] sps[k], f[k].0, f[k].1)
}

/// End of the run of ASCII hex digits from `p`.
fn hex_run_end(b: &[u8], p: usize, hi: usize) -> (e: usize)
    requires
        p <= hi <= b@.len(),
    ensures
        p <= e <= hi,
        forall|j: int| p <= j < e ==> is_hex(#[trigger] b@[j]),
        e == hex_end(b@, p as int, hi as int),
{
    let mut e = p;
    while e < hi && hexdigit(b[e])
        invariant
            p <= e <= hi <= b@.len(),
            forall|j: int| p <= j < e ==> is_hex(#[trigger] b@[j]),
            hex_end(b@, e as int, hi as int) == hex_end(b@, p as int, hi as int),
        decreases hi - e,
    {
        e = e + 1;
    }
    e
}

/// `#RGB`, `#RGBA`, `#RRGGBB`, `#RRGGBBAA` at word boundaries, not right
/// after `=={`; the content is the digits.
#[verifier::loop_isolation(false)]
fn parse_hex_colors(
    b: &[u8],
    lo: usize,
    hi: usize,
    map: &Utf16Map,
    spans: &mut Vec<InlineSpan>,
    claimed: &mut ClaimedRanges,
)
    requires
        lo <= hi <= b@.len(),
        map.wf_for(b@),
        all_in(b@, old(spans)@, lo as int, hi as int),
    ensures
        all_in(b@, final(spans)@, lo as int, hi as int),
        ({
            let f = hex_scan(b@, lo as int, lo as int, hi as int, old(claimed).ranges@);
            &&& final(spans)@.subrange(0, old(spans)@.len() as int) == old(spans)@
            &&& final(spans)@.len() >= old(spans)@.len()
            &&& hex_spans_fit(b@, final(spans)@.subrange(old(spans)@.len() as int, final(spans)@.len() as int), f)
            &&& final(claimed).ranges@ == old(claimed).ranges@ + f.map_values(
                |t: (int, int)| (t.0 as usize, t.1 as usize),
            )
        }),
{
    let ghost sp0 = spans@;
    let ghost c0 = claimed.ranges@;
    let ghost fnd: Seq<(int, int)> = Seq::empty();
    let mut i = lo;
    while i < hi
        invariant
            lo <= i <= hi <= b@.len(),
            all_in(b@, spans@, lo as int, hi as int),
            spans@.len() == sp0.len() + fnd.len(),
            spans@.subrange(0, sp0.len() as int) == sp0,
            hex_spans_fit(b@, spans@.subrange(sp0.len() as int, spans@.len() as int), fnd),
            claimed.ranges@ == c0 + fnd.map_values(|t: (int, int)| (t.0 as usize, t.1 as usize)),
            fnd + hex_scan(b@, lo as int, i as int, hi as int, claimed.ranges@) == hex_scan(
                b@,
                lo as int,
                lo as int,
                hi as int,
                c0,
            ),
        decreases hi - i,
    {
        if b[i] != 35u8 || is_escaped(b, lo, i) {
            i = i + 1;
            continue;
        }
        if i > lo && alnum(b[i - 1]) {
            i = i + 1;
            continue;
        }
        if i - lo >= 3 && b[i - 1] == 123u8 && b[i - 2] == 61u8 && b[i - 3] == 61u8 {
            i = i + 1;
            continue;
        }
        let ds = i + 1;
        let j = hex_run_end(b, ds, hi);
        let n = j - ds;
        if !(n == 3 || n == 4 || n == 6 || n == 8) {
            i = i + 1;
            continue;
        }
        if j < hi && (alnum(b[j]) || b[j] == 95u8) {
            i = i + 1;
            continue;
        }
        let hex = normalize_hex(b, ds, n);
        if !claimed.overlaps(i, j) {
            let ghost cl = claimed.ranges@;
            let ghost sp1 = spans@;
            claimed.claim(i, j);
            let sp = make_span(
                InlineKind::HexColor { hex },
                i,
                j,
                i + 1,
                j,
                b,
                map,
                Ghost(lo as int),
                Ghost(hi as int),
            );
            spans.push(sp);
            proof {
                let f = |t: (int, int)| (t.0 as usize, t.1 as usize);
                let x = (i as int, j as int);
                assert(hex_scan(b@, lo as int, i as int, hi as int, cl) == seq![x] + hex_scan(
                    b@,
                    lo as int,
                    j as int,
                    hi as int,
                    claimed.ranges@,
                ));
                assert(fnd.push(x).map_values(f) =~= fnd.map_values(f).push((i, j)));
                assert(claimed.ranges@ =~= c0 + fnd.push(x).map_values(f));
                assert(spans@.subrange(0, sp0.len() as int) =~= sp1.subrange(0, sp0.len() as int));
                let tail = spans@.subrange(sp0.len() as int, spans@.len() as int);
                assert(tail =~= sp1.subrange(sp0.len() as int, sp1.len() as int).push(sp));
                assert(hex_span_fits(b@, tail[fnd.len() as int], i as int, j as int));
                assert forall|k: int| 0 <= k < fnd.len() + 1 implies hex_span_fits(
                    b@,
                    #[trigger] tail[k],
                    fnd.push(x)[k].0,
                    fnd.push(x)[k].1,
                ) by {
                    if k < fnd.len() {
                        assert(tail[k] == sp1.subrange(sp0.len() as int, sp1.len() as int)[k]);
                    }
                }
                assert(fnd.push(x) + hex_scan(b@, lo as int, j as int, hi as int, claimed.ranges@)
                    =~= fnd + (seq![x] + hex_scan(b@, lo as int, j as int, hi as int, claimed.ranges@)));
                fnd = fnd.push(x);
            }
        }
        i = j;
    }
}

/// Color index of a highlight emoji by the last two bytes of `F0 9F x y`:
/// 🔴 red, 🟠 orange, 🟡 yellow, 🟢 green, 🔵 blue, 🟣 purple.
pub open spec fn emoji_color_of(x: u8, y: u8) -> Option<u8> {
    if x == 0x94u8 && y == 0xB4u8 {
        Some(0u8)
    } else if x == 0x9Fu8 && y == 0xA0u8 {
        Some(1u8)
    } else if x == 0x9Fu8 && y == 0xA1u8 {
        Some(2u8)
    } else if x == 0x9Fu8 && y == 0xA2u8 {
        Some(3u8)
    } else if x == 0x94u8 && y == 0xB5u8 {
        Some(4u8)
    } else if x == 0x9Fu8 && y == 0xA3u8 {
        Some(5u8)
    } else {
        None
    }
}

/// Color index of a highlight emoji (the last two bytes of `F0 9F xx yy`).
fn emoji_color(x: u8, y: u8) -> (r: Option<u8>)
    ensures
        r matches Some(c) ==> c < 6,
        r == emoji_color_of(x, y),
{
    if x == 0x94u8 && y == 0xB4u8 {
        Some(0)
    } else if x == 0x9Fu8 && y == 0xA0u8 {
        Some(1)
    } else if x == 0x9Fu8 && y == 0xA1u8 {
        Some(2)
    } else if x == 0x9Fu8 && y == 0xA2u8 {
        Some(3)
    } else if x == 0x94u8 && y == 0xB5u8 {
        Some(4)
    } else if x == 0x9Fu8 && y == 0xA3u8 {
        Some(5)
    } else {
        None
    }
}

/// Color index of a legacy highlight color name (lowercase, exact):
/// `red`, `orange`, `yellow`, `green`, `blue`, `purple`.
pub open spec fn color_name_of(t: Seq<u8>) -> Option<u8> {
    if t == seq![114u8, 101u8, 100u8] {
        Some(0u8)
    } else if t == seq![111u8, 114u8, 97u8, 110u8, 103u8, 101u8] {
        Some(1u8)
    } else if t == seq![121u8, 101u8, 108u8, 108u8, 111u8, 119u8] {
        Some(2u8)
    } else if t == seq![103u8, 114u8, 101u8, 101u8, 110u8] {
        Some(3u8)
    } else if t == seq![98u8, 108u8, 117u8, 101u8] {
        Some(4u8)
    } else if t == seq![112u8, 117u8, 114u8, 112u8, 108u8, 101u8] {
        Some(5u8)
    } else {
        None
    }
}

/// Color index of a legacy highlight color name.
fn color_name_index(b: &[u8], a: usize, z: usize) -> (r: Option<u8>)
    requires
        a <= z <= b@.len(),
    ensures
        r matches Some(c) ==> c < 6,
        r == color_name_of(b@.subrange(a as int, z as int)),
{
    let red: [u8; 3] = [114u8, 101u8, 100u8];
    let orange: [u8; 6] = [111u8, 114u8, 97u8, 110u8, 103u8, 101u8];
    let yellow: [u8; 6] = [121u8, 101u8, 108u8, 108u8, 111u8, 119u8];
    let green: [u8; 5] = [103u8, 114u8, 101u8, 101u8, 110u8];
    let blue: [u8; 4] = [98u8, 108u8, 117u8, 101u8];
    let purple: [u8; 6] = [112u8, 117u8, 114u8, 112u8, 108u8, 101u8];
    proof {
        assert(red@ =~= seq![114u8, 101u8, 100u8]);
        assert(orange@ =~= seq![111u8, 114u8, 97u8, 110u8, 103u8, 101u8]);
        assert(yellow@ =~= seq![121u8, 101u8, 108u8, 108u8, 111u8, 119u8]);
        assert(green@ =~= seq![103u8, 114u8, 101u8, 101u8, 110u8]);
        assert(blue@ =~= seq![98u8, 108u8, 117u8, 101u8]);
        assert(purple@ =~= seq![112u8, 117u8, 114u8, 112u8, 108u8, 101u8]);
    }
    if range_eq(b, a, z, red.as_slice()) {
        Some(0)
    } else if range_eq(b, a, z, orange.as_slice()) {
        Some(1)
    } else if range_eq(b, a, z, yellow.as_slice()) {
        Some(2)
    } else if range_eq(b, a, z, green.as_slice()) {
        Some(3)
    } else if range_eq(b, a, z, blue.as_slice()) {
        Some(4)
    } else if range_eq(b, a, z, purple.as_slice()) {
        Some(5)
    } else {
        None
    }
}

/// Bytes of color marker after a highlight opener whose content would
/// start at `p`: an emoji `F0 9F x y` of a known color, `{#hex}` with 3, 4,
/// 6 or 8 digits, or `{color:name}` with a known name; none otherwise.
pub open spec fn hl_skip(s: Seq<u8>, p: int, hi: int) -> int {
    if hi - p > 3 && s[p] == 0xF0u8 && s[p + 1] == 0x9Fu8 {
        if emoji_color_of(s[p + 2], s[p + 3]) is Some {
            4
        } else {
            0
        }
    } else if crate::text::starts_with_at(s, p, hi, seq![123u8, 35u8]) {
        let k = hex_end(s, p + 2, hi);
        let n = k - (p + 2);
        if k < hi && s[k] == 125u8 && (n == 3 || n == 4 || n == 6 || n == 8) {
            k + 1 - p
        } else {
            0
        }
    } else if crate::text::starts_with_at(
        s,
        p,
        hi,
        seq![123u8, 99u8, 111u8, 108u8, 111u8, 114u8, 58u8],
    ) {
        let close = crate::text::find_byte_pos(s, p + 7, hi, 125u8);
        if close < hi && color_name_of(s.subrange(p + 7, close)) is Some {
            close + 1 - p
        } else {
            0
        }
    } else {
        0
    }
}

pub proof fn lemma_hl_skip(s: Seq<u8>, p: int, hi: int)
    requires
        0 <= p <= hi <= s.len(),
    ensures
        0 <= hl_skip(s, p, hi),
        p + hl_skip(s, p, hi) <= hi,
{
    if !(hi - p > 3 && s[p] == 0xF0u8 && s[p + 1] == 0x9Fu8) {
        if crate::text::starts_with_at(s, p, hi, seq![123u8, 35u8]) {
            lemma_hex_end(s, p + 2, hi);
        } else if crate::text::starts_with_at(
            s,
            p,
            hi,
            seq![123u8, 99u8, 111u8, 108u8, 111u8, 114u8, 58u8],
        ) {
            crate::text::lemma_find_byte_pos(s, p + 7, hi, 125u8);
        }
    }
}

/// The kind of a highlight whose content would start at `p`, by its color
/// marker (see `hl_skip`): the emoji's or name's color index, or the
/// normalized hex digits; plain otherwise.
pub open spec fn hl_kind_fits(s: Seq<u8>, p: int, hi: int, k: InlineKind) -> bool {
    if hi - p > 3 && s[p] == 0xF0u8 && s[p + 1] == 0x9Fu8 {
        match emoji_color_of(s[p + 2], s[p + 3]) {
            Some(c) => k == InlineKind::HighlightColor(c),
            None => k is Highlight,
        }
    } else if crate::text::starts_with_at(s, p, hi, seq![123u8, 35u8]) {
        let j = hex_end(s, p + 2, hi);
        let n = j - (p + 2);
        if j < hi && s[j] == 125u8 && (n == 3 || n == 4 || n == 6 || n == 8) {
            k matches InlineKind::HighlightHex { hex } && hex@ == utf8_text(
                normalized_hex(s, p + 2, n),
            )
        } else {
            k is Highlight
        }
    } else if crate::text::starts_with_at(
        s,
        p,
        hi,
        seq![123u8, 99u8, 111u8, 108u8, 111u8, 114u8, 58u8],
    ) {
        let close = crate::text::find_byte_pos(s, p + 7, hi, 125u8);
        if close < hi && color_name_of(s.subrange(p + 7, close)) is Some {
            k == InlineKind::HighlightColor(color_name_of(s.subrange(p + 7, close))->0)
        } else {
            k is Highlight
        }
    } else {
        k is Highlight
    }
}

/// The first `==` at or after `j`.
pub open spec fn eq_close(s: Seq<u8>, j: int, hi: int) -> Option<int>
    decreases hi - j,
{
    if j < 0 || hi > s.len() || j + 1 >= hi {
        None
    } else if s[j] == 61u8 && s[j + 1] == 61u8 {
        Some(j)
    } else {
        eq_close(s, j + 1, hi)
    }
}

pub proof fn lemma_eq_close(s: Seq<u8>, j: int, hi: int)
    ensures
        eq_close(s, j, hi) matches Some(c) ==> j <= c && c + 2 <= hi,
    decreases hi - j,
{
    if !(j < 0 || hi > s.len() || j + 1 >= hi) && !(s[j] == 61u8 && s[j + 1] == 61u8) {
        lemma_eq_close(s, j + 1, hi);
    }
}

/// The highlights a scan of `s[lo..hi]` from `i` finds, as `(start, content
/// start, content end, end)`, given the claimed ranges: an unescaped `==`,
/// its color marker, then the first `==` after it; a highlight overlapping a
/// claim is dropped, a found one is claimed; an opener without a closer is
/// passed over (scanning goes on after its color marker).
pub open spec fn hl_scan(s: Seq<u8>, lo: int, i: int, hi: int, claims: Seq<(usize, usize)>) -> Seq<
    (int, int, int, int),
>
    decreases hi - i,
{
    if i < 0 || hi > s.len() || i + 1 >= hi {
        Seq::empty()
    } else if s[i] == 61u8 && s[i + 1] == 61u8 && !escaped(s, lo, i) {
        let cs = i + 2 + hl_skip(s, i + 2, hi);
        proof {
            lemma_hl_skip(s, i + 2, hi);
        }
        match eq_close(s, cs, hi) {
            Some(c) => {
                proof {
                    lemma_eq_close(s, cs, hi);
                }
                if overlaps_in(claims, i, c + 2) {
                    hl_scan(s, lo, c + 2, hi, claims)
                } else {
                    seq![(i, cs, c, c + 2)] + hl_scan(s, lo, c + 2, hi, claims.push((i as usize, (c + 2) as usize)))
                }
            },
            None => hl_scan(s, lo, cs, hi, claims),
        }
    } else {
        hl_scan(s, lo, i + 1, hi, claims)
    }
}

/// The span of the highlight `t` of `s`.
pub open spec fn hl_span_fits(s: Seq<u8>, hi: int, sp: InlineSpan, t: (int, int, int, int)) -> bool {
    &&& hl_kind_fits(s, t.0 + 2, hi, sp.kind)
    &&& sp.utf16_start == utf16_offset(s, t.0)
    &&& sp.utf16_end == utf16_offset(s, t.3)
    &&& sp.content_utf16_start == utf16_offset(s, t.1)
    &&& sp.content_utf16_end == utf16_offset(s, t.2)
}

/// The spans `sps` are those of the highlights `f`, in order.
pub open spec fn hl_spans_fit(s: Seq<u8>, hi: int, sps: Seq<InlineSpan>, f: Seq<(int, int, int, int)>) -> bool {
    &&& sps.len() == f.len()
    &&& forall|k: int| 0 <= k < f.len() ==> hl_span_fits(s, hi, #[trigger] sps[k], f[k])
}

/// The kind of a highlight whose content would start at `p` (right after
/// `==`), and how many bytes of color marker follow.
fn highlight_kind(b: &[u8], p: usize, hi: usize) -> (r: (InlineKind, usize))
    requires
        p <= hi <= b@.len(),
    ensures
        p + r.1 <= hi,
        r.0 is Highlight || r.0 is HighlightColor || r.0 is HighlightHex,
        r.0 matches InlineKind::HighlightColor(c) ==> c < 6,
        r.1 == hl_skip(b@, p as int, hi as int),
        hl_kind_fits(b@, p as int, hi as int, r.0),
{
    if hi - p > 3 && b[p] == 0xF0u8 && b[p + 1] == 0x9Fu8 {
        return match emoji_color(b[p + 2], b[p + 3]) {
            Some(c) => (InlineKind::HighlightColor(c), 4),
            None => (InlineKind::Highlight, 0),
        };
    }
    let brace_hash: [u8; 2] = [123u8, 35u8];
    proof {
        assert(brace_hash@ =~= seq![123u8, 35u8]);
    }
    if at(b, p, hi, brace_hash.as_slice()) {
        let hs = p + 2;
        let k = hex_run_end(b, hs, hi);
        let n = k - hs;
        if k < hi && b[k] == 125u8 && (n == 3 || n == 4 || n == 6 || n == 8) {
            let hex = normalize_hex(b, hs, n);
            return (InlineKind::HighlightHex { hex }, k + 1 - p);
        }
        return (InlineKind::Highlight, 0);
    }
    let brace_color: [u8; 7] = [123u8, 99u8, 111u8, 108u8, 111u8, 114u8, 58u8];
    proof {
        assert(brace_color@ =~= seq![123u8, 99u8, 111u8, 108u8, 111u8, 114u8, 58u8]);
    }
    if at(b, p, hi, brace_color.as_slice()) {
        let ns = p + 7;
        let close = crate::text::find_byte(b, ns, hi, 125u8);
        if close < hi {
            if let Some(c) = color_name_index(b, ns, close) {
                return (InlineKind::HighlightColor(c), close + 1 - p);
            }
        }
        return (InlineKind::Highlight, 0);
    }
    (InlineKind::Highlight, 0)
}

/// `==text==`, optionally colored by an emoji, `{#hex}` or `{color:name}`
/// right after the opener.
#[verifier::loop_isolation(false)]
fn parse_highlights(
    b: &[u8],
    lo: usize,
    hi: usize,
    map: &Utf16Map,
    spans: &mut Vec<InlineSpan>,
    claimed: &mut ClaimedRanges,
)
    requires
        lo <= hi <= b@.len(),
        map.wf_for(b@),
        all_in(b@, old(spans)@, lo as int, hi as int),
    ensures
        all_in(b@, final(spans)@, lo as int, hi as int),
        ({
            let f = hl_scan(b@, lo as int, lo as int, hi as int, old(claimed).ranges@);
            &&& final(spans)@.subrange(0, old(spans)@.len() as int) == old(spans)@
            &&& final(spans)@.len() >= old(spans)@.len()
            &&& hl_spans_fit(
                b@,
                hi as int,
                final(spans)@.subrange(old(spans)@.len() as int, final(spans)@.len() as int),
                f,
            )
            &&& final(claimed).ranges@ == old(claimed).ranges@ + f.map_values(
                |t: (int, int, int, int)| (t.0 as usize, t.3 as usize),
            )
        }),
{
    let ghost sp0 = spans@;
    let ghost c0 = claimed.ranges@;
    let ghost fnd: Seq<(int, int, int, int)> = Seq::empty();
    let mut i = lo;
    while i + 1 < hi
        invariant
            lo <= i <= hi <= b@.len(),
            all_in(b@, spans@, lo as int, hi as int),
            spans@.len() == sp0.len() + fnd.len(),
            spans@.subrange(0, sp0.len() as int) == sp0,
            hl_spans_fit(b@, hi as int, spans@.subrange(sp0.len() as int, spans@.len() as int), fnd),
            claimed.ranges@ == c0 + fnd.map_values(
                |t: (int, int, int, int)| (t.0 as usize, t.3 as usize),
            ),
            fnd + hl_scan(b@, lo as int, i as int, hi as int, claimed.ranges@) == hl_scan(
                b@,
                lo as int,
                lo as int,
                hi as int,
                c0,
            ),
        decreases hi - i,
    {
        if b[i] == 61u8 && b[i + 1] == 61u8 {
            if is_escaped(b, lo, i) {
                i = i + 1;
                continue;
            }
            let open = i;
            i = i + 2;
            let (kind, skip) = highlight_kind(b, i, hi);
            let cs = i + skip;
            let mut j = cs;
            let mut found = false;
            let ghost cl = claimed.ranges@;
            let ghost sp1 = spans@;
            while j + 1 < hi
                invariant
                    cs <= j <= hi <= b@.len(),
                    open + 2 <= cs,
                    i == open + 2,
                    i <= cs,
                    !found,
                    all_in(b@, spans@, lo as int, hi as int),
                    claimed.ranges@ == cl,
                    spans@ == sp1,
                    eq_close(b@, j as int, hi as int) == eq_close(b@, cs as int, hi as int),
                    spans@.len() == sp0.len() + fnd.len(),
                    spans@.subrange(0, sp0.len() as int) == sp0,
                    hl_spans_fit(b@, hi as int, spans@.subrange(sp0.len() as int, spans@.len() as int), fnd),
                    claimed.ranges@ == c0 + fnd.map_values(
                        |t: (int, int, int, int)| (t.0 as usize, t.3 as usize),
                    ),
                    fnd + hl_scan(b@, lo as int, open as int, hi as int, cl) == hl_scan(
                        b@,
                        lo as int,
                        lo as int,
                        hi as int,
                        c0,
                    ),
                    cs == open + 2 + hl_skip(b@, open + 2, hi as int),
                    b@[open as int] == 61u8 && b@[open + 1] == 61u8 && !escaped(b@, lo as int, open as int),
                    hl_kind_fits(b@, open + 2, hi as int, kind),
                decreases hi - j,
            {
                if b[j] == 61u8 && b[j + 1] == 61u8 {
                    let e = j + 2;
                    if !claimed.overlaps(open, e) {
                        claimed.claim(open, e);
                        let sp = make_span(
                            copy_inline_kind(&kind),
                            open,
                            e,
                            cs,
                            j,
                            b,
                            map,
                            Ghost(lo as int),
                            Ghost(hi as int),
                        );
                        spans.push(sp);
                        proof {
                            let f = |t: (int, int, int, int)| (t.0 as usize, t.3 as usize);
                            let x = (open as int, cs as int, j as int, e as int);
                            assert(hl_scan(b@, lo as int, open as int, hi as int, cl) == seq![x]
                                + hl_scan(b@, lo as int, e as int, hi as int, claimed.ranges@));
                            assert(fnd.push(x).map_values(f) =~= fnd.map_values(f).push((open, e)));
                            assert(claimed.ranges@ =~= c0 + fnd.push(x).map_values(f));
                            assert(spans@.subrange(0, sp0.len() as int) =~= sp1.subrange(0, sp0.len() as int));
                            let tail = spans@.subrange(sp0.len() as int, spans@.len() as int);
                            assert(tail =~= sp1.subrange(sp0.len() as int, sp1.len() as int).push(sp));
                            assert(hl_span_fits(b@, hi as int, tail[fnd.len() as int], x));
                            assert forall|k: int| 0 <= k < fnd.len() + 1 implies hl_span_fits(
                                b@,
                                hi as int,
                                #[trigger] tail[k],
                                fnd.push(x)[k],
                            ) by {
                                if k < fnd.len() {
                                    assert(tail[k] == sp1.subrange(sp0.len() as int, sp1.len() as int)[k]);
                                }
                            }
                            assert(fnd.push(x) + hl_scan(b@, lo as int, e as int, hi as int, claimed.ranges@)
                                =~= fnd + (seq![x] + hl_scan(b@, lo as int, e as int, hi as int, claimed.ranges@)));
                            fnd = fnd.push(x);
                        }
                    }
                    i = e;
                    found = true;
                    break;
                }
                j = j + 1;
            }
            if !found {
                i = cs;
            }
        } else {
            i = i + 1;
        }
    }
}


// ---------------------------------------------------------------------------
// Unicode classification for the flanking rules (on scalar values)
// ---------------------------------------------------------------------------

/// `char::is_alphanumeric` of the scalar value `c` (Unicode `Alphabetic` or
/// `Numeric`).
pub uninterp spec fn scalar_alphanumeric(c: u32) -> bool;

/// `char::is_alphanumeric` on the scalar value `c`; the contract only names
/// the result, the Unicode tables are std's.
#[verifier::external_body]
fn is_alphanumeric_scalar(c: u32) -> (r: bool)
    ensures
        r == scalar_alphanumeric(c),
{
    match char::from_u32(c) {
        Some(ch) => ch.is_alphanumeric(),
        None => false,
    }
}

/// Whitespace for the flanking rules: ASCII space, tab, LF, CR, FF, and the
/// Unicode space separators and line / paragraph separators.
pub open spec fn uni_whitespace(c: u32) -> bool {
    c == 0x20 || c == 0x09 || c == 0x0A || c == 0x0D || c == 0x0C || c == 0xA0 || c == 0x1680 || (
    0x2000 <= c && c <= 0x200A) || c == 0x202F || c == 0x205F || c == 0x3000 || c == 0x2028 || c
        == 0x2029
}

fn is_unicode_whitespace(c: u32) -> (r: bool)
    ensures
        r == uni_whitespace(c),
{
    c == 0x20 || c == 0x09 || c == 0x0A || c == 0x0D || c == 0x0C || c == 0xA0 || c == 0x1680 || (
    0x2000 <= c && c <= 0x200A) || c == 0x202F || c == 0x205F || c == 0x3000 || c == 0x2028 || c
        == 0x2029
}

/// ASCII punctuation.
pub open spec fn ascii_punct(c: u32) -> bool {
    (0x21 <= c && c <= 0x2F) || (0x3A <= c && c <= 0x40) || (0x5B <= c && c <= 0x60) || (0x7B <= c
        && c <= 0x7E)
}

/// Non-ASCII scalars in the listed punctuation and symbol blocks.
pub open spec fn listed_punct_or_symbol(c: u32) -> bool {
    (0x2010 <= c && c <= 0x2027) || (0x2030 <= c && c <= 0x2053) || (0x2055 <= c && c <= 0x205E)
        || (0x3001 <= c && c <= 0x3003) || (0x3008 <= c && c <= 0x301F) || (0xFF01 <= c && c
        <= 0xFF0F) || c == 0xFF1A || c == 0xFF1B || c == 0xFF1F || c == 0xFF20 || c == 0xFF3B
        || c == 0xFF3D || c == 0xFF5B || c == 0xFF5D || c == 0xFF5F || c == 0xFF60 || c == 0xA1
        || c == 0xA7 || c == 0xAB || c == 0xB6 || c == 0xB7 || c == 0xBB || c == 0xBF || (0xA2
        <= c && c <= 0xA5) || (0x20A0 <= c && c <= 0x20CF) || c == 0xAC || c == 0xB1 || c
        == 0xD7 || c == 0xF7 || (0x2190 <= c && c <= 0x23FF) || (0x2500 <= c && c <= 0x257F) || (
    0x25A0 <= c && c <= 0x27BF) || c == 0xA9 || c == 0xAE || c == 0xB0 || c == 0x2116 || c
        == 0x2122
}

/// `char::is_whitespace` on a non-ASCII scalar.
pub open spec fn non_ascii_white_space(c: u32) -> bool {
    c == 0x85 || c == 0xA0 || c == 0x1680 || (0x2000 <= c && c <= 0x200A) || c == 0x2028 || c
        == 0x2029 || c == 0x202F || c == 0x205F || c == 0x3000
}

/// `char::is_control` on a non-ASCII scalar.
pub open spec fn non_ascii_control(c: u32) -> bool {
    0x80 <= c && c <= 0x9F
}

/// Punctuation for the flanking rules: ASCII punctuation; beyond ASCII the
/// listed punctuation and symbol blocks, and any other scalar that is not
/// alphanumeric, whitespace or a control character.
pub open spec fn uni_punct(c: u32) -> bool {
    if c < 0x80 {
        ascii_punct(c)
    } else {
        listed_punct_or_symbol(c) || (!scalar_alphanumeric(c) && !non_ascii_white_space(c)
            && !non_ascii_control(c))
    }
}

fn is_unicode_punctuation(c: u32) -> (r: bool)
    ensures
        r == uni_punct(c),
{
    if c < 0x80 {
        return (0x21 <= c && c <= 0x2F) || (0x3A <= c && c <= 0x40) || (0x5B <= c && c <= 0x60)
            || (0x7B <= c && c <= 0x7E);
    }
    let listed = (0x2010 <= c && c <= 0x2027) || (0x2030 <= c && c <= 0x2053) || (0x2055 <= c
        && c <= 0x205E) || (0x3001 <= c && c <= 0x3003) || (0x3008 <= c && c <= 0x301F) || (
    0xFF01 <= c && c <= 0xFF0F) || c == 0xFF1A || c == 0xFF1B || c == 0xFF1F || c == 0xFF20 || c
        == 0xFF3B || c == 0xFF3D || c == 0xFF5B || c == 0xFF5D || c == 0xFF5F || c == 0xFF60 || c
        == 0xA1 || c == 0xA7 || c == 0xAB || c == 0xB6 || c == 0xB7 || c == 0xBB || c == 0xBF || (
    0xA2 <= c && c <= 0xA5) || (0x20A0 <= c && c <= 0x20CF) || c == 0xAC || c == 0xB1 || c
        == 0xD7 || c == 0xF7 || (0x2190 <= c && c <= 0x23FF) || (0x2500 <= c && c <= 0x257F) || (
    0x25A0 <= c && c <= 0x27BF) || c == 0xA9 || c == 0xAE || c == 0xB0 || c == 0x2116 || c
        == 0x2122;
    if listed {
        return true;
    }
    let ws = c == 0x85 || c == 0xA0 || c == 0x1680 || (0x2000 <= c && c <= 0x200A) || c == 0x2028
        || c == 0x2029 || c == 0x202F || c == 0x205F || c == 0x3000;
    let control = 0x80 <= c && c <= 0x9F;
    !is_alphanumeric_scalar(c) && !ws && !control
}

// ---------------------------------------------------------------------------
// UTF-8 decoding around delimiter runs
// ---------------------------------------------------------------------------

/// A UTF-8 continuation byte.
pub open spec fn continuation(c: u8) -> bool {
    0x80 <= c && c < 0xC0
}

/// Width of the UTF-8 sequence a leading byte announces (0 for bytes that
/// cannot lead).
pub open spec fn lead_width(c: u8) -> int {
    if c < 0x80 {
        1
    } else if 0xC0 <= c && c <= 0xDF {
        2
    } else if 0xE0 <= c && c <= 0xEF {
        3
    } else if 0xF0 <= c && c <= 0xF7 {
        4
    } else {
        0
    }
}

fn width_of(c: u8) -> (w: usize)
    ensures
        w == lead_width(c),
{
    if c < 0x80 {
        1
    } else if 0xC0 <= c && c <= 0xDF {
        2
    } else if 0xE0 <= c && c <= 0xEF {
        3
    } else if 0xF0 <= c && c <= 0xF7 {
        4
    } else {
        0
    }
}

/// The scalar value of the `w`-byte sequence at `p`, as `str::from_utf8`
/// would accept it (continuation bytes, no overlong forms, no surrogates, at
/// most U+10FFFF).
pub open spec fn decoded_at(s: Seq<u8>, p: int, w: int) -> Option<u32> {
    let b0 = s[p] as int;
    if w == 1 {
        Some(s[p] as u32)
    } else if !continuation(s[p + 1]) {
        None
    } else if w == 2 {
        let c = (b0 - 0xC0) * 64 + (s[p + 1] - 0x80);
        if c < 0x80 {
            None
        } else {
            Some(c as u32)
        }
    } else if !continuation(s[p + 2]) {
        None
    } else if w == 3 {
        let c = (b0 - 0xE0) * 4096 + (s[p + 1] - 0x80) * 64 + (s[p + 2] - 0x80);
        if c < 0x800 || (0xD800 <= c && c <= 0xDFFF) {
            None
        } else {
            Some(c as u32)
        }
    } else if !continuation(s[p + 3]) {
        None
    } else {
        let c = (b0 - 0xF0) * 262144 + (s[p + 1] - 0x80) * 4096 + (s[p + 2] - 0x80) * 64 + (s[p
            + 3] - 0x80);
        if c < 0x10000 || c > 0x10FFFF {
            None
        } else {
            Some(c as u32)
        }
    }
}

/// The character starting at `pos` (before `hi`), if a whole valid one does.
pub open spec fn char_at_spec(s: Seq<u8>, hi: int, pos: int) -> Option<u32> {
    if pos >= hi {
        None
    } else {
        let w = lead_width(s[pos]);
        if w == 0 || w > hi - pos {
            None
        } else {
            decoded_at(s, pos, w)
        }
    }
}

/// Back from `p` over continuation bytes, not below `lo`.
pub open spec fn lead_back(s: Seq<u8>, lo: int, p: int) -> int
    decreases p - lo,
{
    if p > lo && continuation(s[p]) {
        lead_back(s, lo, p - 1)
    } else {
        p
    }
}

/// The character ending at `pos` (after `lo`), if a whole valid one does.
pub open spec fn char_before_spec(s: Seq<u8>, lo: int, pos: int) -> Option<u32> {
    if pos <= lo {
        None
    } else {
        let start = lead_back(s, lo, pos - 1);
        let w = lead_width(s[start]);
        if w == 0 || w != pos - start {
            None
        } else {
            decoded_at(s, start, w)
        }
    }
}

/// Back from `p` over a run of `c` bytes, not below `lo`.
pub open spec fn run_back(s: Seq<u8>, lo: int, p: int, c: u8) -> int
    decreases p - lo,
{
    if p > lo && s[p - 1] == c {
        run_back(s, lo, p - 1, c)
    } else {
        p
    }
}

/// A `*` run ending at `run_end` can open: a character follows that is not
/// whitespace, and when it is punctuation, the run starts the window or
/// follows whitespace or punctuation.
pub open spec fn left_flanking(s: Seq<u8>, lo: int, hi: int, run_end: int) -> bool {
    match char_at_spec(s, hi, run_end) {
        None => false,
        Some(after) => if uni_whitespace(after) {
            false
        } else if uni_punct(after) {
            match char_before_spec(s, lo, run_back(s, lo, run_end, 42u8)) {
                None => true,
                Some(c) => uni_whitespace(c) || uni_punct(c),
            }
        } else {
            true
        },
    }
}

/// A `*` run starting at `run_start` can close: a character precedes it
/// that is not whitespace, and when it is punctuation, the run ends the
/// window or is followed by whitespace or punctuation.
pub open spec fn right_flanking(s: Seq<u8>, lo: int, hi: int, run_start: int) -> bool {
    match char_before_spec(s, lo, run_start) {
        None => false,
        Some(before) => if uni_whitespace(before) {
            false
        } else if uni_punct(before) {
            match char_at_spec(s, hi, crate::lines::run_end(s, run_start, hi, 42u8)) {
                None => true,
                Some(c) => uni_whitespace(c) || uni_punct(c),
            }
        } else {
            true
        },
    }
}

/// Decode the `w`-byte sequence at `p` as `str::from_utf8` would accept it
/// (continuation bytes, no overlong forms, no surrogates, at most U+10FFFF).
fn decode_seq(b: &[u8], p: usize, w: usize) -> (r: Option<u32>)
    requires
        1 <= w <= 4,
        p + w <= b@.len(),
        lead_width(b@[p as int]) == w,
    ensures
        r matches Some(c) ==> c <= 0x10FFFF,
        w == 1 ==> r == Some(b@[p as int] as u32),
        r == decoded_at(b@, p as int, w as int),
{
    let b0 = b[p];
    if w == 1 {
        return Some(b0 as u32);
    }
    let b1 = b[p + 1];
    if !(0x80 <= b1 && b1 < 0xC0) {
        return None;
    }
    if w == 2 {
        let c = ((b0 - 0xC0) as u32) * 64 + ((b1 - 0x80) as u32);
        return if c < 0x80 {
            None
        } else {
            Some(c)
        };
    }
    let b2 = b[p + 2];
    if !(0x80 <= b2 && b2 < 0xC0) {
        return None;
    }
    if w == 3 {
        let c = ((b0 - 0xE0) as u32) * 4096 + ((b1 - 0x80) as u32) * 64 + ((b2 - 0x80) as u32);
        return if c < 0x800 || (0xD800 <= c && c <= 0xDFFF) {
            None
        } else {
            Some(c)
        };
    }
    let b3 = b[p + 3];
    if !(0x80 <= b3 && b3 < 0xC0) {
        return None;
    }
    let c = ((b0 - 0xF0) as u32) * 262144 + ((b1 - 0x80) as u32) * 4096 + ((b2 - 0x80) as u32) * 64
        + ((b3 - 0x80) as u32);
    if c < 0x10000 || c > 0x10FFFF {
        None
    } else {
        Some(c)
    }
}

/// The character starting at `pos` (before `hi`), if it is one.
fn char_at(b: &[u8], hi: usize, pos: usize) -> (r: Option<u32>)
    requires
        hi <= b@.len(),
    ensures
        pos < hi && b@[pos as int] < 0x80 ==> r == Some(b@[pos as int] as u32),
        pos >= hi ==> r is None,
        r == char_at_spec(b@, hi as int, pos as int),
{
    if pos >= hi {
        return None;
    }
    let w = width_of(b[pos]);
    if w == 0 || w > hi - pos {
        return None;
    }
    decode_seq(b, pos, w)
}

/// The character ending at `pos` (after `lo`), if it is one.
fn char_before(b: &[u8], lo: usize, pos: usize) -> (r: Option<u32>)
    requires
        lo <= pos <= b@.len(),
    ensures
        pos == lo ==> r is None,
        pos > lo && b@[pos - 1] < 0x80 ==> r == Some(b@[pos - 1] as u32),
        r == char_before_spec(b@, lo as int, pos as int),
{
    if pos == lo {
        return None;
    }
    let mut start = pos - 1;
    while start > lo && 0x80 <= b[start] && b[start] < 0xC0
        invariant
            lo <= start < pos <= b@.len(),
            b@[pos - 1] < 0x80 ==> start == pos - 1,
            lead_back(b@, lo as int, start as int) == lead_back(b@, lo as int, pos - 1),
        decreases start,
    {
        start = start - 1;
    }
    let w = width_of(b[start]);
    if w == 0 || w != pos - start {
        return None;
    }
    decode_seq(b, start, w)
}

/// A `*` run ending at `run_end` can open: not followed by whitespace, and
/// if followed by punctuation then preceded by whitespace, punctuation or
/// the start of the text.
fn is_left_flanking(b: &[u8], lo: usize, hi: usize, run_end: usize) -> (r: bool)
    requires
        lo <= run_end <= hi <= b@.len(),
    ensures
        r == left_flanking(b@, lo as int, hi as int, run_end as int),
{
    let after = match char_at(b, hi, run_end) {
        Some(c) => c,
        None => {
            return false;
        },
    };
    if is_unicode_whitespace(after) {
        return false;
    }
    if is_unicode_punctuation(after) {
        let mut rs = run_end;
        while rs > lo && b[rs - 1] == 42u8
            invariant
                lo <= rs <= run_end <= hi <= b@.len(),
                run_back(b@, lo as int, rs as int, 42u8) == run_back(b@, lo as int, run_end as int, 42u8),
            decreases rs,
        {
            rs = rs - 1;
        }
        match char_before(b, lo, rs) {
            None => true,
            Some(c) => is_unicode_whitespace(c) || is_unicode_punctuation(c),
        }
    } else {
        true
    }
}

/// A `*` run starting at `run_start` can close: not preceded by whitespace,
/// and if preceded by punctuation then followed by whitespace, punctuation
/// or the end of the text.
fn is_right_flanking(b: &[u8], lo: usize, hi: usize, run_start: usize) -> (r: bool)
    requires
        lo <= run_start <= hi <= b@.len(),
    ensures
        r == right_flanking(b@, lo as int, hi as int, run_start as int),
{
    let before = match char_before(b, lo, run_start) {
        Some(c) => c,
        None => {
            return false;
        },
    };
    if is_unicode_whitespace(before) {
        return false;
    }
    if is_unicode_punctuation(before) {
        let mut re = run_start;
        while re < hi && b[re] == 42u8
            invariant
                run_start <= re <= hi <= b@.len(),
                crate::lines::run_end(b@, re as int, hi as int, 42u8) == crate::lines::run_end(
                    b@,
                    run_start as int,
                    hi as int,
                    42u8,
                ),
            decreases hi - re,
        {
            re = re + 1;
        }
        match char_at(b, hi, re) {
            None => true,
            Some(c) => is_unicode_whitespace(c) || is_unicode_punctuation(c),
        }
    } else {
        true
    }
}


// ---------------------------------------------------------------------------
// Emphasis: the delimiter-run algorithm over `*` runs
// ---------------------------------------------------------------------------

/// A candidate emphasis span `(start, end, delimiter length)` in the window.
pub open spec fn emph_ok(t: (usize, usize, usize), s: Seq<u8>, lo: int, hi: int) -> bool {
    &&& lo <= t.0
    &&& t.1 <= hi
    &&& 1 <= t.2 <= 3
    &&& t.2 <= t.1
    &&& all_byte(s, t.0 as int, t.0 + t.2, 42u8)
    &&& all_byte(s, t.1 - t.2, t.1 as int, 42u8)
}

/// An opener on the stack `(pos, remaining, original length, can close)`.
pub open spec fn opener_ok(o: (usize, usize, usize, bool), s: Seq<u8>, lo: int, hi: int) -> bool {
    &&& lo <= o.0
    &&& 1 <= o.1 <= o.2
    &&& o.0 + o.1 <= hi
    &&& all_byte(s, o.0 as int, o.0 + o.1, 42u8)
}

/// `x` sorts strictly before `y`: earlier start, or same start and later end.
pub open spec fn emph_before(x: (usize, usize, usize), y: (usize, usize, usize)) -> bool {
    x.0 < y.0 || (x.0 == y.0 && x.1 > y.1)
}

/// Inserting `x` before the first element it sorts strictly before keeps a
/// sorted sequence sorted.
proof fn lemma_emph_insert(o: Seq<(usize, usize, usize)>, x: (usize, usize, usize), p: int)
    requires
        0 <= p <= o.len(),
        forall|i: int, j: int| 0 <= i < j < o.len() ==> !emph_before(#[trigger] o[j], #[trigger] o[i]),
        forall|m: int| p <= m < o.len() ==> emph_before(x, #[trigger] o[m]),
        p > 0 ==> !emph_before(x, o[p - 1]),
    ensures
        forall|i: int, j: int|
            0 <= i < j < o.insert(p, x).len() ==> !emph_before(
                #[trigger] o.insert(p, x)[j],
                #[trigger] o.insert(p, x)[i],
            ),
{
    let n = o.insert(p, x);
    assert forall|i: int, j: int| 0 <= i < j < n.len() implies !emph_before(
        #[trigger] n[j],
        #[trigger] n[i],
    ) by {
        if j < p {
            assert(n[i] == o[i] && n[j] == o[j]);
        } else if i > p {
            assert(n[i] == o[i - 1] && n[j] == o[j - 1]);
        } else if i == p {
            assert(n[j] == o[j - 1]);
            assert(emph_before(x, o[j - 1]));
        } else if j == p {
            assert(n[i] == o[i]);
            if i < p - 1 {
                assert(!emph_before(o[p - 1], o[i]));
            }
        } else {
            assert(i < p && p < j);
            assert(n[i] == o[i] && n[j] == o[j - 1]);
            if i < j - 1 {
                assert(!emph_before(o[j - 1], o[i]));
            }
        }
    }
}

/// Inserting an element adds it to the multiset of a sequence.
proof fn lemma_insert_multiset(o: Seq<(usize, usize, usize)>, x: (usize, usize, usize), p: int)
    requires
        0 <= p <= o.len(),
    ensures
        o.insert(p, x).to_multiset() == o.to_multiset().insert(x),
{
    broadcast use vstd::multiset::group_multiset_axioms;

    let n = o.insert(p, x);
    assert(n =~= o.subrange(0, p).push(x) + o.subrange(p, o.len() as int));
    assert(o =~= o.subrange(0, p) + o.subrange(p, o.len() as int));
    vstd::seq_lib::lemma_multiset_commutative(o.subrange(0, p).push(x), o.subrange(p, o.len() as int));
    vstd::seq_lib::lemma_multiset_commutative(o.subrange(0, p), o.subrange(p, o.len() as int));
    o.subrange(0, p).to_multiset_ensures();
    assert(n.to_multiset() =~= o.to_multiset().insert(x));
}

/// Stable insertion sort of candidate emphasis spans by start, then by end
/// descending.
fn sort_emphasis(v: Vec<(usize, usize, usize)>, s: Ghost<Seq<u8>>, lo: Ghost<int>, hi: Ghost<int>) -> (out: Vec<
    (usize, usize, usize),
>)
    requires
        forall|k: int| 0 <= k < v@.len() ==> emph_ok(#[trigger] v@[k], s@, lo@, hi@),
    ensures
        out@.len() == v@.len(),
        out@.to_multiset() == v@.to_multiset(),
        forall|k: int| 0 <= k < out@.len() ==> emph_ok(#[trigger] out@[k], s@, lo@, hi@),
        forall|i: int, j: int|
            0 <= i < j < out@.len() ==> !emph_before(#[trigger] out@[j], #[trigger] out@[i]),
{
    let mut out: Vec<(usize, usize, usize)> = Vec::new();
    proof {
        broadcast use vstd::multiset::group_multiset_axioms;

        out@.to_multiset_ensures();
        v@.subrange(0, 0).to_multiset_ensures();
        vstd::multiset::lemma_multiset_empty_len(out@.to_multiset());
        vstd::multiset::lemma_multiset_empty_len(v@.subrange(0, 0).to_multiset());
    }
    let mut k: usize = 0;
    while k < v.len()
        invariant
            k <= v@.len(),
            out@.len() == k,
            out@.to_multiset() == v@.subrange(0, k as int).to_multiset(),
            forall|m: int| 0 <= m < v@.len() ==> emph_ok(#[trigger] v@[m], s@, lo@, hi@),
            forall|m: int| 0 <= m < out@.len() ==> emph_ok(#[trigger] out@[m], s@, lo@, hi@),
            forall|i: int, j: int|
                0 <= i < j < out@.len() ==> !emph_before(#[trigger] out@[j], #[trigger] out@[i]),
        decreases v@.len() - k,
    {
        let x = v[k];
        let mut p = out.len();
        let mut go = true;
        while p > 0 && go
            invariant
                p <= out@.len(),
                forall|m: int| p <= m < out@.len() ==> emph_before(x, #[trigger] out@[m]),
                !go ==> p > 0 && !emph_before(x, out@[p - 1]),
            decreases p + (if go { 1int } else { 0int }),
        {
            let y = out[p - 1];
            if x.0 < y.0 || (x.0 == y.0 && x.1 > y.1) {
                p = p - 1;
            } else {
                go = false;
            }
        }
        let ghost old_out = out@;
        proof {
            lemma_emph_insert(old_out, x, p as int);
            lemma_insert_multiset(old_out, x, p as int);
            v@.subrange(0, k as int).to_multiset_ensures();
            assert(v@.subrange(0, k + 1) =~= v@.subrange(0, k as int).push(x));
        }
        out.insert(p, x);
        proof {
            assert forall|m: int| 0 <= m < out@.len() implies emph_ok(#[trigger] out@[m], s@, lo@, hi@) by {
                if m < p {
                    assert(out@[m] == old_out[m]);
                } else if m > p {
                    assert(out@[m] == old_out[m - 1]);
                }
            }
        }
        k = k + 1;
    }
    proof {
        assert(v@.subrange(0, k as int) =~= v@);
    }
    out
}

/// Inserting `x` after every span that does not start later keeps spans
/// sorted by start.
proof fn lemma_span_insert(o: Seq<InlineSpan>, x: InlineSpan, p: int)
    requires
        0 <= p <= o.len(),
        sorted_by_start(o),
        forall|m: int| p <= m < o.len() ==> x.utf16_start < (#[trigger] o[m]).utf16_start,
        p > 0 ==> o[p - 1].utf16_start <= x.utf16_start,
    ensures
        sorted_by_start(o.insert(p, x)),
{
    let n = o.insert(p, x);
    assert forall|i: int, j: int| 0 <= i < j < n.len() implies #[trigger] n[i].utf16_start
        <= #[trigger] n[j].utf16_start by {
        if j < p {
            assert(n[i] == o[i] && n[j] == o[j]);
        } else if i > p {
            assert(n[i] == o[i - 1] && n[j] == o[j - 1]);
        } else if i == p {
            assert(n[j] == o[j - 1]);
        } else if j == p {
            assert(n[i] == o[i]);
            if i < p - 1 {
                assert(o[i].utf16_start <= o[p - 1].utf16_start);
            }
        } else {
            assert(n[i] == o[i] && n[j] == o[j - 1]);
        }
    }
}

/// `x` inserted into `o` after every span that does not start later.
pub open spec fn insert_by_start(o: Seq<InlineSpan>, x: InlineSpan) -> Seq<InlineSpan>
    decreases o.len(),
{
    if o.len() == 0 {
        seq![x]
    } else if o.last().utf16_start > x.utf16_start {
        insert_by_start(o.drop_last(), x).push(o.last())
    } else {
        o.push(x)
    }
}

/// The spans `v` stably sorted by start: each inserted in turn after every
/// earlier span that does not start later.
pub open spec fn sort_by_start(v: Seq<InlineSpan>) -> Seq<InlineSpan>
    decreases v.len(),
{
    if v.len() == 0 {
        Seq::empty()
    } else {
        insert_by_start(sort_by_start(v.drop_last()), v.last())
    }
}

/// Inserting at the place the insertion sort finds is `insert_by_start`.
proof fn lemma_insert_by_start(o: Seq<InlineSpan>, x: InlineSpan, p: int)
    requires
        0 <= p <= o.len(),
        forall|m: int| p <= m < o.len() ==> x.utf16_start < (#[trigger] o[m]).utf16_start,
        p > 0 ==> o[p - 1].utf16_start <= x.utf16_start,
    ensures
        o.insert(p, x) == insert_by_start(o, x),
    decreases o.len(),
{
    if o.len() == 0 {
        assert(o.insert(p, x) =~= seq![x]);
    } else if p == o.len() {
        assert(o.insert(p, x) =~= o.push(x));
    } else {
        assert(o.last().utf16_start > x.utf16_start);
        lemma_insert_by_start(o.drop_last(), x, p);
        assert(o.insert(p, x) =~= o.drop_last().insert(p, x).push(o.last()));
    }
}

/// Stable sort of spans by start.
fn sort_spans(v: Vec<InlineSpan>, s: Ghost<Seq<u8>>, lo: Ghost<int>, hi: Ghost<int>) -> (out: Vec<
    InlineSpan,
>)
    requires
        all_in(s@, v@, lo@, hi@),
    ensures
        out@.len() == v@.len(),
        all_in(s@, out@, lo@, hi@),
        sorted_by_start(out@),
        forall|i: int| 0 <= i < v@.len() ==> out@.contains(#[trigger] v@[i]),
        out@ == sort_by_start(v@),
{
    let ghost sv = v@;
    let mut out: Vec<InlineSpan> = Vec::new();
    let mut rest = v;
    // Take the spans from the front in order.
    let n = rest.len();
    let mut front: Vec<InlineSpan> = Vec::new();
    while rest.len() > 0
        invariant
            front@.len() + rest@.len() == n,
            n == sv.len(),
            rest@ == sv.subrange(0, rest@.len() as int),
            forall|m: int| 0 <= m < front@.len() ==> #[trigger] front@[m] == sv[n - 1 - m],
            all_in(s@, rest@, lo@, hi@),
            all_in(s@, front@, lo@, hi@),
        decreases rest@.len(),
    {
        let x = rest.pop().unwrap();
        front.push(x);
    }
    // `front` holds the spans in reverse order.
    while front.len() > 0
        invariant
            out@.len() + front@.len() == n,
            n == sv.len(),
            forall|m: int| 0 <= m < front@.len() ==> #[trigger] front@[m] == sv[n - 1 - m],
            forall|i: int| 0 <= i < n - front@.len() ==> out@.contains(#[trigger] sv[i]),
            all_in(s@, front@, lo@, hi@),
            all_in(s@, out@, lo@, hi@),
            sorted_by_start(out@),
            out@ == sort_by_start(sv.subrange(0, n - front@.len())),
        decreases front@.len(),
    {
        let ghost done = n - front@.len();
        let x = front.pop().unwrap();
        proof {
            assert(x == sv[done]);
        }
        let mut p = out.len();
        let mut go = true;
        while p > 0 && go
            invariant
                p <= out@.len(),
                forall|m: int| p <= m < out@.len() ==> x.utf16_start < (#[trigger] out@[m]).utf16_start,
                !go ==> p > 0 && out@[p - 1].utf16_start <= x.utf16_start,
            decreases p + (if go { 1int } else { 0int }),
        {
            if out[p - 1].utf16_start > x.utf16_start {
                p = p - 1;
            } else {
                go = false;
            }
        }
        let ghost old_out = out@;
        proof {
            lemma_span_insert(old_out, x, p as int);
            lemma_insert_by_start(old_out, x, p as int);
            assert(sv.subrange(0, done + 1).drop_last() =~= sv.subrange(0, done));
        }
        out.insert(p, x);
        proof {
            assert forall|m: int| 0 <= m < out@.len() implies span_in(s@, #[trigger] out@[m], lo@, hi@) by {
                if m < p {
                    assert(out@[m] == old_out[m]);
                } else if m > p {
                    assert(out@[m] == old_out[m - 1]);
                }
            }
            assert forall|i: int| 0 <= i < done + 1 implies out@.contains(#[trigger] sv[i]) by {
                if i == done {
                    assert(out@[p as int] == sv[i]);
                } else {
                    assert(old_out.contains(sv[i]));
                    let m0 = choose|m: int| 0 <= m < old_out.len() && old_out[m] == sv[i];
                    if m0 < p {
                        assert(out@[m0] == sv[i]);
                    } else {
                        assert(out@[m0 + 1] == sv[i]);
                    }
                }
            }
        }
    }
    proof {
        assert forall|i: int| 0 <= i < v@.len() implies out@.contains(#[trigger] v@[i]) by {
            assert(sv[i] == v@[i]);
            assert(out@.contains(sv[i]));
        }
        assert(sv.subrange(0, n as int) =~= sv);
    }
    out
}


/// End of a run of unescaped `*` bytes from `j`.
pub open spec fn star_run_end(s: Seq<u8>, lo: int, j: int, hi: int) -> int
    decreases hi - j,
{
    if j < hi && s[j] == 42u8 && !escaped(s, lo, j) {
        star_run_end(s, lo, j + 1, hi)
    } else {
        j
    }
}

/// A run of stars ends no earlier than it starts.
pub proof fn lemma_star_run_end(s: Seq<u8>, lo: int, j: int, hi: int)
    ensures
        j <= star_run_end(s, lo, j, hi),
        j <= hi ==> star_run_end(s, lo, j, hi) <= hi,
        forall|k: int| j <= k < star_run_end(s, lo, j, hi) ==> #[trigger] s[k] == 42u8,
    decreases hi - j,
{
    if j < hi && s[j] == 42u8 && !escaped(s, lo, j) {
        lemma_star_run_end(s, lo, j + 1, hi);
    }
}

/// The `*` delimiter runs of `s[lo..hi]` from `i` on, as `(position,
/// length, can open, can close)`: a run starts at an unescaped `*` and goes
/// on over unescaped `*`.
pub open spec fn star_runs(s: Seq<u8>, lo: int, i: int, hi: int) -> Seq<(int, int, bool, bool)>
    decreases hi - i,
{
    if i < 0 || i >= hi || hi > s.len() {
        Seq::empty()
    } else if s[i] == 42u8 && !escaped(s, lo, i) {
        let e = star_run_end(s, lo, i + 1, hi);
        proof {
            lemma_star_run_end(s, lo, i + 1, hi);
        }
        seq![(i, e - i, left_flanking(s, lo, hi, e), right_flanking(s, lo, hi, i))] + star_runs(
            s,
            lo,
            e,
            hi,
        )
    } else {
        star_runs(s, lo, i + 1, hi)
    }
}

/// A run as integers.
pub open spec fn run_view(x: (usize, usize, bool, bool)) -> (int, int, bool, bool) {
    (x.0 as int, x.1 as int, x.2, x.3)
}

/// The `*` delimiter runs of the window: `(pos, len, can open, can close)`.
#[verifier::loop_isolation(false)]
fn asterisk_runs(b: &[u8], lo: usize, hi: usize) -> (runs: Vec<(usize, usize, bool, bool)>)
    requires
        lo <= hi <= b@.len(),
    ensures
        forall|k: int|
            0 <= k < runs@.len() ==> lo <= (#[trigger] runs@[k]).0 && 1 <= runs@[k].1 && runs@[k].0
                + runs@[k].1 <= hi && all_byte(b@, runs@[k].0 as int, runs@[k].0 + runs@[k].1, 42u8),
        runs@.map_values(|x: (usize, usize, bool, bool)| run_view(x)) == star_runs(
            b@,
            lo as int,
            lo as int,
            hi as int,
        ),
{
    let mut runs: Vec<(usize, usize, bool, bool)> = Vec::new();
    let mut i = lo;
    while i < hi
        invariant
            lo <= i <= hi <= b@.len(),
            forall|k: int|
                0 <= k < runs@.len() ==> lo <= (#[trigger] runs@[k]).0 && 1 <= runs@[k].1
                    && runs@[k].0 + runs@[k].1 <= hi && all_byte(
                    b@,
                    runs@[k].0 as int,
                    runs@[k].0 + runs@[k].1,
                    42u8,
                ),
            runs@.map_values(|x: (usize, usize, bool, bool)| run_view(x)) + star_runs(
                b@,
                lo as int,
                i as int,
                hi as int,
            ) == star_runs(b@, lo as int, lo as int, hi as int),
        decreases hi - i,
    {
        if b[i] == 42u8 {
            if is_escaped(b, lo, i) {
                i = i + 1;
                continue;
            }
            let start = i;
            i = i + 1;
            while i < hi && b[i] == 42u8 && !is_escaped(b, lo, i)
                invariant
                    start < i <= hi,
                    all_byte(b@, start as int, i as int, 42u8),
                    star_run_end(b@, lo as int, i as int, hi as int) == star_run_end(
                        b@,
                        lo as int,
                        start + 1,
                        hi as int,
                    ),
                decreases hi - i,
            {
                i = i + 1;
            }
            let len = i - start;
            let can_open = is_left_flanking(b, lo, hi, i);
            let can_close = is_right_flanking(b, lo, hi, start);
            let ghost before = runs@;
            runs.push((start, len, can_open, can_close));
            proof {
                let f = |x: (usize, usize, bool, bool)| run_view(x);
                assert(runs@.map_values(f) =~= before.map_values(f).push(
                    (start as int, len as int, can_open, can_close),
                ));
                assert(star_runs(b@, lo as int, start as int, hi as int) =~= seq![
                    (start as int, len as int, can_open, can_close),
                ] + star_runs(b@, lo as int, i as int, hi as int));
                assert(runs@.map_values(f) + star_runs(b@, lo as int, i as int, hi as int)
                    =~= before.map_values(f) + star_runs(b@, lo as int, start as int, hi as int));
            }
        } else {
            i = i + 1;
        }
    }
    proof {
        assert(star_runs(b@, lo as int, i as int, hi as int) =~= Seq::<(int, int, bool, bool)>::empty());
        assert(runs@.map_values(|x: (usize, usize, bool, bool)| run_view(x)) + Seq::<
            (int, int, bool, bool),
        >::empty() =~= runs@.map_values(|x: (usize, usize, bool, bool)| run_view(x)));
    }
    runs
}

/// Matching a closing run `(rpos, rlen)` with `remaining` delimiters left
/// against the openers below `idx` on the stack: the nearest opener is
/// skipped when the pair breaks the "multiple of 3" rule; otherwise up to
/// three delimiters are consumed from the inner edges of both, recorded as
/// `(open start, close end, count)`, the openers above are dropped, and
/// the search starts again from the top. Gives the stack, the matches and
/// the delimiters left.
pub open spec fn emph_close(
    stack: Seq<(usize, usize, usize, bool)>,
    found: Seq<(usize, usize, usize)>,
    rpos: int,
    rlen: int,
    can_open: bool,
    remaining: int,
    idx: int,
) -> (Seq<(usize, usize, usize, bool)>, Seq<(usize, usize, usize)>, int)
    decreases remaining, idx,
{
    if remaining <= 0 || idx <= 0 || idx > stack.len() {
        (stack, found, remaining)
    } else {
        let o = stack[idx - 1];
        let olen = o.2 as int;
        if (can_open || o.3) && (rlen % 3 + olen % 3) % 3 == 0 && rlen % 3 != 0 && olen % 3 != 0 {
            emph_close(stack, found, rpos, rlen, can_open, remaining, idx - 1)
        } else {
            let orem = o.1 as int;
            let consume = if remaining < orem {
                remaining
            } else {
                orem
            };
            let used: int = if consume >= 3 {
                3
            } else if consume == 2 {
                2
            } else {
                1
            };
            let open_start = o.0 + orem - used;
            let close_start = rpos + (rlen - remaining);
            let found2 = found.push((open_start as usize, (close_start + used) as usize, used as usize));
            let nrem = orem - used;
            let stack2 = if nrem == 0 {
                stack.subrange(0, idx - 1)
            } else {
                stack.subrange(0, idx - 1).push((o.0, nrem as usize, o.2, o.3))
            };
            emph_close(stack2, found2, rpos, rlen, can_open, remaining - used, stack2.len() as int)
        }
    }
}

/// The emphasis matches of the runs from `r` on, given the opener stack and
/// the matches so far: a run that can close is matched against the stack
/// (`emph_close`); what is left of a run that can open is pushed.
pub open spec fn emph_pass(
    runs: Seq<(int, int, bool, bool)>,
    r: int,
    stack: Seq<(usize, usize, usize, bool)>,
    found: Seq<(usize, usize, usize)>,
) -> Seq<(usize, usize, usize)>
    decreases runs.len() - r,
{
    if r < 0 || r >= runs.len() {
        found
    } else {
        let run = runs[r];
        let res = if run.3 {
            emph_close(stack, found, run.0, run.1, run.2, run.1, stack.len() as int)
        } else {
            (stack, found, run.1)
        };
        let stack2 = if res.2 > 0 && run.2 {
            res.0.push(((run.0 + (run.1 - res.2)) as usize, res.2 as usize, run.1 as usize, run.3))
        } else {
            res.0
        };
        emph_pass(runs, r + 1, stack2, res.1)
    }
}

/// The emphasis matches of the window `s[lo..hi]`.
pub open spec fn emph_matches(s: Seq<u8>, lo: int, hi: int) -> Seq<(usize, usize, usize)> {
    emph_pass(star_runs(s, lo, lo, hi), 0, Seq::empty(), Seq::empty())
}

/// The kind of an emphasis span of `d` delimiters.
pub open spec fn emph_kind(d: int) -> InlineKind {
    if d == 3 {
        InlineKind::BoldItalic
    } else if d == 2 {
        InlineKind::Bold
    } else {
        InlineKind::Italic
    }
}

/// The spans of the matches `m`, in order: a match that is empty, whose
/// delimiters overlap, or that overlaps a claim gives none.
pub open spec fn emph_emit(s: Seq<u8>, m: Seq<(usize, usize, usize)>, claims: Seq<(usize, usize)>) -> Seq<InlineSpan>
    decreases m.len(),
{
    if m.len() == 0 {
        Seq::empty()
    } else {
        let prev = emph_emit(s, m.drop_last(), claims);
        let t = m.last();
        let a = t.0 as int;
        let e = t.1 as int;
        let d = t.2 as int;
        if a >= e || a + d > e - d || overlaps_in(claims, a, e) {
            prev
        } else {
            prev.push(span_of(s, emph_kind(d), a, a + d, e - d, e))
        }
    }
}

/// `m` is ordered by start, and by end descending at equal starts.
pub open spec fn emph_sorted(m: Seq<(usize, usize, usize)>) -> bool {
    forall|i: int, j: int| 0 <= i < j < m.len() ==> !emph_before(#[trigger] m[j], #[trigger] m[i])
}

/// Bold-italic, bold and italic spans from `*` runs: each closing run
/// matches the nearest usable opener (skipping pairs that break the
/// "multiple of 3" rule), consuming up to three delimiters per span from
/// the inner edges; openers above a match are dropped. Emphasis spans may
/// nest, are checked only against earlier claims, and claim nothing.
#[verifier::loop_isolation(false)]
#[verifier::rlimit(40)]
fn parse_emphasis(
    b: &[u8],
    lo: usize,
    hi: usize,
    map: &Utf16Map,
    spans: &mut Vec<InlineSpan>,
    claimed: &ClaimedRanges,
)
    requires
        lo <= hi <= b@.len(),
        map.wf_for(b@),
        all_in(b@, old(spans)@, lo as int, hi as int),
    ensures
        all_in(b@, final(spans)@, lo as int, hi as int),
        exists|m: Seq<(usize, usize, usize)>|
            #![trigger emph_emit(b@, m, claimed.ranges@)]
            m.to_multiset() == emph_matches(b@, lo as int, hi as int).to_multiset() && emph_sorted(m)
                && final(spans)@ == old(spans)@ + emph_emit(b@, m, claimed.ranges@),
{
    let ghost sp0 = spans@;
    let ghost runs_v = star_runs(b@, lo as int, lo as int, hi as int);
    let runs = asterisk_runs(b, lo, hi);
    if runs.len() == 0 {
        proof {
            let e = Seq::<(usize, usize, usize)>::empty();
            assert(runs_v =~= runs@.map_values(|x: (usize, usize, bool, bool)| run_view(x)));
            assert(emph_matches(b@, lo as int, hi as int) == e);
            assert(emph_emit(b@, e, claimed.ranges@) == Seq::<InlineSpan>::empty());
            assert(spans@ =~= sp0 + emph_emit(b@, e, claimed.ranges@));
        }
        return;
    }
    let mut stack: Vec<(usize, usize, usize, bool)> = Vec::new();
    let mut found: Vec<(usize, usize, usize)> = Vec::new();
    let mut r: usize = 0;
    while r < runs.len()
        invariant
            r <= runs@.len(),
            runs@.map_values(|x: (usize, usize, bool, bool)| run_view(x)) == runs_v,
            emph_pass(runs_v, r as int, stack@, found@) == emph_matches(b@, lo as int, hi as int),
            forall|k: int| 0 <= k < stack@.len() ==> opener_ok(#[trigger] stack@[k], b@, lo as int, hi as int),
            forall|k: int| 0 <= k < found@.len() ==> emph_ok(#[trigger] found@[k], b@, lo as int, hi as int),
            all_in(b@, spans@, lo as int, hi as int),
            spans@ == sp0,
        decreases runs@.len() - r,
    {
        let (rpos, rlen, can_open, can_close) = runs[r];
        proof {
            assert(runs@.map_values(|x: (usize, usize, bool, bool)| run_view(x))[r as int] == run_view(runs@[r as int]));
        }
        let ghost st0 = stack@;
        let ghost fd0 = found@;
        let mut remaining = rlen;
        if can_close {
            let mut idx = stack.len();
            while remaining > 0 && idx > 0
                invariant
                    idx <= stack@.len(),
                    remaining <= rlen,
                    lo <= rpos,
                    rpos + rlen <= hi,
                    forall|k: int| 0 <= k < stack@.len() ==> opener_ok(#[trigger] stack@[k], b@, lo as int, hi as int),
                    forall|k: int| 0 <= k < found@.len() ==> emph_ok(#[trigger] found@[k], b@, lo as int, hi as int),
                    emph_close(stack@, found@, rpos as int, rlen as int, can_open, remaining as int, idx as int)
                        == emph_close(st0, fd0, rpos as int, rlen as int, can_open, rlen as int, st0.len() as int),
                decreases remaining, idx,
            {
                let ghost st = stack@;
                let ghost fd = found@;
                idx = idx - 1;
                let (opos, orem, olen, oclose) = stack[idx];
                if can_open || oclose {
                    // `(rlen + olen) % 3 == 0`, without the addition.
                    let sum_mod = (rlen % 3 + olen % 3) % 3;
                    if sum_mod == 0 && rlen % 3 != 0 && olen % 3 != 0 {
                        continue;
                    }
                }
                let consume = if remaining < orem {
                    remaining
                } else {
                    orem
                };
                let used: usize = if consume >= 3 {
                    3
                } else if consume == 2 {
                    2
                } else {
                    1
                };
                let open_start = opos + orem - used;
                let close_start = rpos + (rlen - remaining);
                found.push((open_start, close_start + used, used));
                let nrem = orem - used;
                remaining = remaining - used;
                if nrem == 0 {
                    stack.truncate(idx);
                    proof {
                        assert(stack@ =~= st.subrange(0, idx as int));
                    }
                } else {
                    stack.set(idx, (opos, nrem, olen, oclose));
                    stack.truncate(idx + 1);
                    proof {
                        assert(stack@ =~= st.subrange(0, idx as int).push((opos, nrem, olen, oclose)));
                    }
                }
                idx = stack.len();
            }
            proof {
                assert(emph_close(stack@, found@, rpos as int, rlen as int, can_open, remaining as int, idx as int)
                    == (stack@, found@, remaining as int));
            }
        }
        let ghost st1 = stack@;
        if remaining > 0 && can_open {
            stack.push((rpos + (rlen - remaining), remaining, rlen, can_close));
        }
        proof {
            assert(emph_pass(runs_v, r as int, st0, fd0) == emph_pass(runs_v, r + 1, stack@, found@));
        }
        r = r + 1;
    }
    let sorted = sort_emphasis(found, Ghost(b@), Ghost(lo as int), Ghost(hi as int));
    proof {
        assert(emph_pass(runs_v, r as int, stack@, found@) == found@);
        assert(sorted@.subrange(0, 0) =~= Seq::<(usize, usize, usize)>::empty());
        assert(spans@ =~= sp0 + emph_emit(b@, sorted@.subrange(0, 0), claimed.ranges@));
    }
    let mut k: usize = 0;
    while k < sorted.len()
        invariant
            k <= sorted@.len(),
            forall|m: int| 0 <= m < sorted@.len() ==> emph_ok(#[trigger] sorted@[m], b@, lo as int, hi as int),
            all_in(b@, spans@, lo as int, hi as int),
            spans@ == sp0 + emph_emit(b@, sorted@.subrange(0, k as int), claimed.ranges@),
        decreases sorted@.len() - k,
    {
        let (a, e, d) = sorted[k];
        let ghost sp1 = spans@;
        proof {
            let m = sorted@.subrange(0, k + 1);
            assert(m.drop_last() =~= sorted@.subrange(0, k as int));
            assert(m.last() == (a, e, d));
        }
        k = k + 1;
        if a >= e {
            continue;
        }
        let cs = a + d;
        let ce = e - d;
        if cs > ce {
            continue;
        }
        if !claimed.overlaps(a, e) {
            let kind = if d == 3 {
                InlineKind::BoldItalic
            } else if d == 2 {
                InlineKind::Bold
            } else {
                InlineKind::Italic
            };
            let sp = make_span(kind, a, e, cs, ce, b, map, Ghost(lo as int), Ghost(hi as int));
            spans.push(sp);
            proof {
                assert(sp == span_of(b@, emph_kind(d as int), a as int, cs as int, ce as int, e as int));
                assert(spans@ =~= sp0 + emph_emit(b@, sorted@.subrange(0, k as int), claimed.ranges@));
            }
        }
    }
    proof {
        assert(sorted@.subrange(0, k as int) =~= sorted@);
        assert(emph_sorted(sorted@));
    }
}

// ---------------------------------------------------------------------------
// Driver
// ---------------------------------------------------------------------------

/// The claimed ranges after the inline passes up to pass `k` over
/// `s[lo..hi]`, in priority order: 0 inline code, 1 comments, 2 wiki links,
/// 3 links, 4 angle autolinks, 5 bare autolinks, 6 hex colors (emphasis
/// claims nothing), 7 strikethrough, 8 highlights, 9 HTML underline, 10
/// tilde underline, 11 footnote references.
pub open spec fn pass_claims(s: Seq<u8>, lo: int, hi: int, k: int) -> Seq<(usize, usize)>
    decreases k,
{
    if k <= 0 {
        code_claims(s, lo, lo, hi)
    } else {
        let c = pass_claims(s, lo, hi, k - 1);
        if k == 1 {
            c + found_claims(pair_scan(s, lo, lo, hi, seq![37u8, 37u8], InlineKind::Comment, c))
        } else if k == 2 {
            c + found_claims(wiki_scan(s, lo, lo, hi, c))
        } else if k == 3 {
            c + md_scan(s, lo, lo, hi, c).map_values(
                |t: (int, int, int)| (t.0 as usize, (t.2 + 1) as usize),
            )
        } else if k == 4 {
            c + link_claims(angle_scan(s, lo, lo, hi, c))
        } else if k == 5 {
            c + link_claims(autolinks_found(s, lo, hi, c))
        } else if k == 6 {
            c + hex_scan(s, lo, lo, hi, c).map_values(|t: (int, int)| (t.0 as usize, t.1 as usize))
        } else if k == 7 {
            c + found_claims(
                pair_scan(s, lo, lo, hi, seq![126u8, 126u8], InlineKind::Strikethrough, c),
            )
        } else if k == 8 {
            c + hl_scan(s, lo, lo, hi, c).map_values(
                |t: (int, int, int, int)| (t.0 as usize, t.3 as usize),
            )
        } else if k == 9 {
            c + found_claims(u_scan(s, lo, lo, hi, c))
        } else if k == 10 {
            c + found_claims(tilde_scan(s, lo, lo, hi, c))
        } else {
            c + found_claims(fn_scan(s, lo, lo, hi, c))
        }
    }
}

/// The spans the passes after inline code add to `s[lo..hi]`, in order, with
/// the emphasis matches taken in the order `m`: each pass's spans are those
/// of what its scan finds under the claims of the passes before it.
pub open spec fn rest_fits(s: Seq<u8>, lo: int, hi: int, m: Seq<(usize, usize, usize)>, rest: Seq<InlineSpan>) -> bool {
    let f1 = pair_scan(s, lo, lo, hi, seq![37u8, 37u8], InlineKind::Comment, pass_claims(s, lo, hi, 0));
    let n1 = f1.len() as int;
    let f2 = wiki_scan(s, lo, lo, hi, pass_claims(s, lo, hi, 1));
    let n2 = n1 + f2.len();
    let f3 = md_scan(s, lo, lo, hi, pass_claims(s, lo, hi, 2));
    let n3 = n2 + f3.len();
    let f4 = angle_scan(s, lo, lo, hi, pass_claims(s, lo, hi, 3));
    let n4 = n3 + f4.len();
    let f5 = autolinks_found(s, lo, hi, pass_claims(s, lo, hi, 4));
    let n5 = n4 + f5.len();
    let f6 = hex_scan(s, lo, lo, hi, pass_claims(s, lo, hi, 5));
    let n6 = n5 + f6.len();
    let e = emph_emit(s, m, pass_claims(s, lo, hi, 6));
    let n7 = n6 + e.len();
    let f8 = pair_scan(s, lo, lo, hi, seq![126u8, 126u8], InlineKind::Strikethrough, pass_claims(s, lo, hi, 6));
    let n8 = n7 + f8.len();
    let f9 = hl_scan(s, lo, lo, hi, pass_claims(s, lo, hi, 7));
    let n9 = n8 + f9.len();
    let f10 = u_scan(s, lo, lo, hi, pass_claims(s, lo, hi, 8));
    let n10 = n9 + f10.len();
    let f11 = tilde_scan(s, lo, lo, hi, pass_claims(s, lo, hi, 9));
    let n11 = n10 + f11.len();
    let f12 = fn_scan(s, lo, lo, hi, pass_claims(s, lo, hi, 10));
    let n12 = n11 + f12.len();
    &&& rest.len() == n12
    &&& rest.subrange(0, n1) == found_spans(s, f1)
    &&& rest.subrange(n1, n2) == found_spans(s, f2)
    &&& md_spans_fit(s, rest.subrange(n2, n3), f3)
    &&& links_fit(s, rest.subrange(n3, n4), f4)
    &&& links_fit(s, rest.subrange(n4, n5), f5)
    &&& hex_spans_fit(s, rest.subrange(n5, n6), f6)
    &&& rest.subrange(n6, n7) == e
    &&& rest.subrange(n7, n8) == found_spans(s, f8)
    &&& hl_spans_fit(s, hi, rest.subrange(n8, n9), f9)
    &&& rest.subrange(n9, n10) == found_spans(s, f10)
    &&& rest.subrange(n10, n11) == found_spans(s, f11)
    &&& rest.subrange(n11, n12) == found_spans(s, f12)
}

/// `out` is built from the emphasis order `m` and the later spans `rest`:
/// `m` orders the emphasis matches of the window by start (end descending
/// at equal starts), `rest` fits the passes, and `out` is the inline code
/// spans followed by `rest`, stably sorted by start.
pub open spec fn spans_built(
    s: Seq<u8>,
    lo: int,
    hi: int,
    m: Seq<(usize, usize, usize)>,
    rest: Seq<InlineSpan>,
    out: Seq<InlineSpan>,
) -> bool {
    &&& m.to_multiset() == emph_matches(s, lo, hi).to_multiset()
    &&& emph_sorted(m)
    &&& rest_fits(s, lo, hi, m, rest)
    &&& out == sort_by_start(code_spans(s, lo, lo, hi) + rest)
}

/// The inline spans of the window `s[lo..hi]`: inline code first, then the
/// other kinds in priority order (each kept off the ranges claimed before
/// it), stably sorted by start.
pub open spec fn inline_spans_are(s: Seq<u8>, lo: int, hi: int, out: Seq<InlineSpan>) -> bool {
    exists|m: Seq<(usize, usize, usize)>, rest: Seq<InlineSpan>|
        #[trigger] spans_built(s, lo, hi, m, rest, out)
}

/// A prefix of a prefix.
proof fn lemma_prefix_seg(c: Seq<InlineSpan>, b: Seq<InlineSpan>, i: int, j: int)
    requires
        b.len() <= c.len(),
        c.subrange(0, b.len() as int) == b,
        0 <= i <= j <= b.len(),
    ensures
        c.subrange(i, j) == b.subrange(i, j),
        c.subrange(0, j) == b.subrange(0, j),
{
    assert(c.subrange(i, j) =~= b.subrange(i, j));
    assert(c.subrange(0, j) =~= b.subrange(0, j));
}

/// All inline spans of the window `[lo, hi)`, sorted by start.
#[verifier::rlimit(100)]
#[verifier::spinoff_prover]
pub fn parse_spans(b: &[u8], lo: usize, hi: usize, map: &Utf16Map) -> (spans: Vec<InlineSpan>)
    requires
        lo <= hi <= b@.len(),
        map.wf_for(b@),
    ensures
        all_in(b@, spans@, lo as int, hi as int),
        sorted_by_start(spans@),
        inline_spans_are(b@, lo as int, hi as int, spans@),
        forall|j: int|
            0 <= j < code_spans(b@, lo as int, lo as int, hi as int).len() ==> spans@.contains(
                #[trigger] code_spans(b@, lo as int, lo as int, hi as int)[j],
            ),
{
    let ghost s = b@;
    let ghost l = lo as int;
    let ghost h = hi as int;
    let mut spans: Vec<InlineSpan> = Vec::new();
    let mut claimed = ClaimedRanges::new();
    parse_inline_code(b, lo, hi, map, &mut spans, &mut claimed);
    proof {
        assert(claimed.ranges@ =~= pass_claims(s, l, h, 0));
        assert(spans@ =~= code_spans(s, l, l, h));
    }
    // The other kinds, in priority order, after inline code.
    let mut rest: Vec<InlineSpan> = Vec::new();
    let pct: [u8; 2] = [37u8, 37u8];
    proof {
        assert(pct@ =~= seq![37u8, 37u8]);
    }
    parse_paired_marker(
        b,
        lo,
        hi,
        map,
        pct.as_slice(),
        pct.as_slice(),
        InlineKind::Comment,
        &mut rest,
        &mut claimed,
    );
    let ghost r1 = rest@;
    proof {
        assert(claimed.ranges@ == pass_claims(s, l, h, 1));
    }
    parse_wiki_links(b, lo, hi, map, &mut rest, &mut claimed);
    let ghost r2 = rest@;
    proof {
        assert(claimed.ranges@ == pass_claims(s, l, h, 2));
    }
    parse_markdown_links(b, lo, hi, map, &mut rest, &mut claimed);
    let ghost r3 = rest@;
    proof {
        assert(claimed.ranges@ == pass_claims(s, l, h, 3));
    }
    parse_angle_autolinks(b, lo, hi, map, &mut rest, &mut claimed);
    let ghost r4 = rest@;
    proof {
        assert(claimed.ranges@ == pass_claims(s, l, h, 4));
    }
    parse_autolinks(b, lo, hi, map, &mut rest, &mut claimed);
    let ghost r5 = rest@;
    proof {
        assert(claimed.ranges@ == pass_claims(s, l, h, 5));
    }
    parse_hex_colors(b, lo, hi, map, &mut rest, &mut claimed);
    let ghost r6 = rest@;
    proof {
        assert(claimed.ranges@ == pass_claims(s, l, h, 6));
    }
    parse_emphasis(b, lo, hi, map, &mut rest, &claimed);
    let ghost r7 = rest@;
    let ghost m = choose|m: Seq<(usize, usize, usize)>|
        #![trigger emph_emit(s, m, pass_claims(s, l, h, 6))]
        m.to_multiset() == emph_matches(s, l, h).to_multiset() && emph_sorted(m) && r7 == r6
            + emph_emit(s, m, pass_claims(s, l, h, 6));
    let tildes: [u8; 2] = [126u8, 126u8];
    proof {
        assert(tildes@ =~= seq![126u8, 126u8]);
    }
    parse_paired_marker(
        b,
        lo,
        hi,
        map,
        tildes.as_slice(),
        tildes.as_slice(),
        InlineKind::Strikethrough,
        &mut rest,
        &mut claimed,
    );
    let ghost r8 = rest@;
    proof {
        assert(claimed.ranges@ == pass_claims(s, l, h, 7));
    }
    parse_highlights(b, lo, hi, map, &mut rest, &mut claimed);
    let ghost r9 = rest@;
    proof {
        assert(claimed.ranges@ == pass_claims(s, l, h, 8));
    }
    parse_html_underline(b, lo, hi, map, &mut rest, &mut claimed);
    let ghost r10 = rest@;
    proof {
        assert(claimed.ranges@ == pass_claims(s, l, h, 9));
    }
    parse_tilde_underline(b, lo, hi, map, &mut rest, &mut claimed);
    let ghost r11 = rest@;
    proof {
        assert(claimed.ranges@ == pass_claims(s, l, h, 10));
    }
    parse_footnote_refs(b, lo, hi, map, &mut rest, &mut claimed);
    let ghost r12 = rest@;
    proof {
        // Every pass only appends: each snapshot is a prefix of the last.
        assert(r12.subrange(0, r11.len() as int) =~= r11);
        lemma_prefix_seg(r12, r11, 0, r10.len() as int);
        assert(r11.subrange(0, r10.len() as int) =~= r10);
        lemma_prefix_seg(r12, r10, 0, r9.len() as int);
        assert(r10.subrange(0, r9.len() as int) =~= r9);
        lemma_prefix_seg(r12, r9, 0, r8.len() as int);
        lemma_prefix_seg(r12, r8, 0, r7.len() as int);
        assert(r8.subrange(0, r7.len() as int) =~= r7);
        lemma_prefix_seg(r12, r7, 0, r6.len() as int);
        assert(r7.subrange(0, r6.len() as int) =~= r6);
        lemma_prefix_seg(r12, r6, 0, r5.len() as int);
        lemma_prefix_seg(r12, r5, 0, r4.len() as int);
        lemma_prefix_seg(r12, r4, 0, r3.len() as int);
        lemma_prefix_seg(r12, r3, 0, r2.len() as int);
        lemma_prefix_seg(r12, r2, 0, r1.len() as int);
        assert(r2.subrange(0, r1.len() as int) =~= r1);
        lemma_prefix_seg(r12, r1, 0, 0);
        // The segment of each pass.
        lemma_prefix_seg(r12, r1, 0, r1.len() as int);
        assert(r1 =~= Seq::<InlineSpan>::empty() + r1);
        lemma_prefix_seg(r12, r2, r1.len() as int, r2.len() as int);
        assert(r2.subrange(r1.len() as int, r2.len() as int) =~= r2.subrange(r1.len() as int, r2.len() as int));
        lemma_prefix_seg(r12, r3, r2.len() as int, r3.len() as int);
        lemma_prefix_seg(r12, r4, r3.len() as int, r4.len() as int);
        lemma_prefix_seg(r12, r5, r4.len() as int, r5.len() as int);
        lemma_prefix_seg(r12, r6, r5.len() as int, r6.len() as int);
        lemma_prefix_seg(r12, r7, r6.len() as int, r7.len() as int);
        lemma_prefix_seg(r12, r8, r7.len() as int, r8.len() as int);
        lemma_prefix_seg(r12, r9, r8.len() as int, r9.len() as int);
        lemma_prefix_seg(r12, r10, r9.len() as int, r10.len() as int);
        lemma_prefix_seg(r12, r11, r10.len() as int, r11.len() as int);
        assert(r12.subrange(0, r12.len() as int) =~= r12);
        lemma_prefix_seg(r12, r12, r11.len() as int, r12.len() as int);
        assert(r2.subrange(r1.len() as int, r2.len() as int) =~= r2.subrange(r1.len() as int, r2.len() as int));
        assert(r8.subrange(r7.len() as int, r8.len() as int) =~= found_spans(
            s,
            pair_scan(s, l, l, h, seq![126u8, 126u8], InlineKind::Strikethrough, pass_claims(s, l, h, 6)),
        ));
        assert(r7.subrange(r6.len() as int, r7.len() as int) =~= emph_emit(s, m, pass_claims(s, l, h, 6)));
        assert(r10.subrange(r9.len() as int, r10.len() as int) =~= found_spans(
            s,
            u_scan(s, l, l, h, pass_claims(s, l, h, 8)),
        ));
        assert(r11.subrange(r10.len() as int, r11.len() as int) =~= found_spans(
            s,
            tilde_scan(s, l, l, h, pass_claims(s, l, h, 9)),
        ));
        assert(r12.subrange(r11.len() as int, r12.len() as int) =~= found_spans(
            s,
            fn_scan(s, l, l, h, pass_claims(s, l, h, 10)),
        ));
        assert(r2.subrange(r1.len() as int, r2.len() as int) =~= found_spans(
            s,
            wiki_scan(s, l, l, h, pass_claims(s, l, h, 1)),
        ));
        assert(rest_fits(s, l, h, m, r12));
    }
    let ghost code = spans@;
    let ghost others = rest@;
    spans.append(&mut rest);
    proof {
        assert forall|k: int| 0 <= k < spans@.len() implies span_in(b@, #[trigger] spans@[k], lo as int, hi as int) by {
            if k >= code.len() {
                assert(spans@[k] == others[k - code.len()]);
            }
        }
    }
    let ghost all = spans@;
    let out = sort_spans(spans, Ghost(b@), Ghost(lo as int), Ghost(hi as int));
    proof {
        assert(code =~= code_spans(b@, lo as int, lo as int, hi as int));
        assert forall|j: int| 0 <= j < code.len() implies out@.contains(#[trigger] code[j]) by {
            assert(all[j] == code[j]);
            assert(out@.contains(all[j]));
        }
        assert(all =~= code_spans(s, l, l, h) + r12);
        assert(spans_built(s, l, h, m, r12, out@));
    }
    out
}

/// Blocks whose text is not scanned for inline formatting.
pub open spec fn no_inline(k: BlockKind) -> bool {
    k is CodeBlock || k is HorizontalRule || k is Empty || k is Table || k is ImageMarker
}

/// Just after the last `\n` of `s[start..q]`, or `start` when there is
/// none.
pub open spec fn after_last_newline(s: Seq<u8>, start: int, q: int) -> int
    decreases q - start,
{
    if q > start && s[q - 1] != 10u8 {
        after_last_newline(s, start, q - 1)
    } else {
        q
    }
}

/// Where a block's inline text ends: before its final newline, and for a
/// heading before the newline of a setext underline on its last line.
pub open spec fn text_hi(s: Seq<u8>, blk: BlockNode) -> int {
    let start = blk.byte_start as int;
    let e0 = blk.byte_end as int;
    let end = if e0 > start && s[e0 - 1] == 10u8 {
        e0 - 1
    } else {
        e0
    };
    let q = after_last_newline(s, start, end);
    if blk.kind is Heading && q > start && q < end && crate::lines::setext_underline(s, q, end) is Some {
        if q - 1 < start {
            start
        } else {
            q - 1
        }
    } else {
        end
    }
}

/// The byte range of a block's text for inline scanning: the block without
/// its final newline, without a setext underline (for headings), and from
/// the content start of a list marker.
pub fn inline_text_range(blk: &BlockNode, b: &[u8]) -> (r: (usize, usize))
    requires
        blk.byte_start <= blk.byte_end <= b@.len(),
    ensures
        r.1 <= blk.byte_end,
        blk.list_marker is None ==> r.0 == blk.byte_start,
        blk.list_marker matches Some(m) ==> r.0 == m.content_byte_start,
        blk.byte_start <= r.1,
        r.0 == text_lo(*blk),
        r.1 == text_hi(b@, *blk),
{
    let start = blk.byte_start as usize;
    let mut end = blk.byte_end as usize;
    if end > start && b[end - 1] == 10u8 {
        end = end - 1;
    }
    if matches!(blk.kind, BlockKind::Heading { .. }) {
        // Last newline inside the block.
        let mut q = end;
        while q > start && b[q - 1] != 10u8
            invariant
                start <= q <= end <= b@.len(),
                after_last_newline(b@, start as int, q as int) == after_last_newline(
                    b@,
                    start as int,
                    end as int,
                ),
            decreases q,
        {
            q = q - 1;
        }
        if q > start {
            let last_line_start = q;
            if last_line_start < end && crate::lines::parse_setext_underline(
                b,
                last_line_start,
                end,
            ).is_some() {
                end = last_line_start - 1;
                if end < start {
                    end = start;
                }
            }
        }
    }
    match &blk.list_marker {
        Some(m) => (m.content_byte_start as usize, end),
        None => (start, end),
    }
}

/// The inline code runs of a block's text all have their spans in `sps`.
pub open spec fn code_complete(s: Seq<u8>, blk: BlockNode, sps: Seq<InlineSpan>) -> bool {
    let lo = text_lo(blk);
    let hi = text_hi(s, blk);
    !no_inline(blk.kind) && lo < hi ==> forall|j: int|
        0 <= j < code_spans(s, lo, lo, hi).len() ==> sps.contains(
            #[trigger] code_spans(s, lo, lo, hi)[j],
        )
}

/// The inline spans of a block's text (none for code, tables, rules, blank
/// blocks and image markers, or for an empty text range).
pub fn block_spans(blk: &BlockNode, b: &[u8], map: &Utf16Map) -> (spans: Vec<InlineSpan>)
    requires
        blk.byte_start <= blk.byte_end <= b@.len(),
        map.wf_for(b@),
    ensures
        inline_kept(b@, *blk) ==> spans@.len() == 0,
        !inline_kept(b@, *blk) ==> inline_spans_are(b@, text_lo(*blk), text_hi(b@, *blk), spans@),
        all_in(b@, spans@, text_lo(*blk), blk.byte_end as int),
        sorted_by_start(spans@),
        code_complete(b@, *blk, spans@),
{
    let skip = match &blk.kind {
        BlockKind::CodeBlock { .. } => true,
        BlockKind::HorizontalRule => true,
        BlockKind::Empty => true,
        BlockKind::Table { .. } => true,
        BlockKind::ImageMarker { .. } => true,
        _ => false,
    };
    if skip {
        return Vec::new();
    }
    let (ts, te) = inline_text_range(blk, b);
    if ts >= te {
        return Vec::new();
    }
    let spans = parse_spans(b, ts, te, map);
    proof {
        assert forall|k: int| 0 <= k < spans@.len() implies span_in(
            b@,
            #[trigger] spans@[k],
            ts as int,
            blk.byte_end as int,
        ) by {
            lemma_utf16_offset_mono(b@, te as int, blk.byte_end as int);
        }
    }
    spans
}

/// Where a block's inline text starts: after its list marker, if any.
pub open spec fn text_lo(blk: BlockNode) -> int {
    if blk.list_marker is Some {
        blk.list_marker->0.content_byte_start as int
    } else {
        blk.byte_start as int
    }
}

/// Block `after` is `before` with inline spans set.
pub open spec fn same_but_spans(before: BlockNode, after: BlockNode) -> bool {
    &&& after.kind == before.kind
    &&& after.line_start == before.line_start
    &&& after.line_end == before.line_end
    &&& after.utf16_start == before.utf16_start
    &&& after.utf16_end == before.utf16_end
    &&& after.byte_start == before.byte_start
    &&& after.byte_end == before.byte_end
    &&& after.list_marker == before.list_marker
}

/// The inline pass leaves a block as it is: its kind is not scanned (code,
/// rules, blank blocks, tables, image markers) or its text range is empty.
pub open spec fn inline_kept(s: Seq<u8>, blk: BlockNode) -> bool {
    no_inline(blk.kind) || text_lo(blk) >= text_hi(s, blk)
}

/// Run inline parsing on all blocks: each scanned block with a nonempty
/// text range gets the spans of its text; the others keep theirs.
pub fn parse_inline_spans(blocks: &mut Vec<BlockNode>, b: &[u8], map: &Utf16Map)
    requires
        map.wf_for(b@),
        forall|k: int|
            0 <= k < old(blocks)@.len() ==> (#[trigger] old(blocks)@[k]).byte_start
                <= old(blocks)@[k].byte_end <= b@.len(),
    ensures
        final(blocks)@.len() == old(blocks)@.len(),
        forall|k: int|
            0 <= k < final(blocks)@.len() ==> same_but_spans(old(blocks)@[k], #[trigger] final(blocks)@[k]),
        forall|k: int|
            0 <= k < final(blocks)@.len() ==> inline_kept(b@, #[trigger] old(blocks)@[k])
                ==> final(blocks)@[k].inline_spans == old(blocks)@[k].inline_spans,
        forall|k: int|
            0 <= k < final(blocks)@.len() && !inline_kept(b@, #[trigger] old(blocks)@[k]) ==> {
                let sp = final(blocks)@[k].inline_spans@;
                &&& sorted_by_start(sp)
                &&& all_in(b@, sp, text_lo(final(blocks)@[k]), final(blocks)@[k].byte_end as int)
                &&& code_complete(b@, final(blocks)@[k], sp)
                &&& inline_spans_are(b@, text_lo(final(blocks)@[k]), text_hi(b@, final(blocks)@[k]), sp)
            },
{
    let ghost orig = blocks@;
    let mut k: usize = 0;
    while k < blocks.len()
        invariant
            map.wf_for(b@),
            k <= blocks@.len() == orig.len(),
            forall|j: int| 0 <= j < blocks@.len() ==> same_but_spans(orig[j], #[trigger] blocks@[j]),
            forall|j: int|
                0 <= j < orig.len() ==> (#[trigger] orig[j]).byte_start <= orig[j].byte_end
                    <= b@.len(),
            forall|j: int| k <= j < blocks@.len() ==> #[trigger] blocks@[j] == orig[j],
            forall|j: int|
                0 <= j < k ==> inline_kept(b@, #[trigger] orig[j]) ==> blocks@[j].inline_spans
                    == orig[j].inline_spans,
            forall|j: int|
                0 <= j < k && !inline_kept(b@, #[trigger] orig[j]) ==> {
                    let sp = blocks@[j].inline_spans@;
                    &&& sorted_by_start(sp)
                    &&& all_in(b@, sp, text_lo(blocks@[j]), blocks@[j].byte_end as int)
                    &&& code_complete(b@, blocks@[j], sp)
                    &&& inline_spans_are(b@, text_lo(blocks@[j]), text_hi(b@, blocks@[j]), sp)
                },
        decreases orig.len() - k,
    {
        proof {
            assert(blocks@[k as int] == orig[k as int]);
        }
        let skip = match &blocks[k].kind {
            BlockKind::CodeBlock { .. } => true,
            BlockKind::HorizontalRule => true,
            BlockKind::Empty => true,
            BlockKind::Table { .. } => true,
            BlockKind::ImageMarker { .. } => true,
            _ => false,
        };
        if !skip {
            let (ts, te) = inline_text_range(&blocks[k], b);
            if ts < te {
                let spans = block_spans(&blocks[k], b, map);
                let ghost prior = blocks@;
                let ghost blk = blocks@[k as int];
                blocks[k].inline_spans = spans;
                proof {
                    assert(blocks@[k as int].kind == blk.kind && blocks@[k as int].list_marker
                        == blk.list_marker && blocks@[k as int].byte_start == blk.byte_start
                        && blocks@[k as int].byte_end == blk.byte_end);
                    assert(text_lo(blocks@[k as int]) == text_lo(blk));
                    assert(text_hi(b@, blocks@[k as int]) == text_hi(b@, blk));
                    assert forall|j: int| 0 <= j < k implies blocks@[j] == prior[j] by {}
                }
            }
        }
        k = k + 1;
    }
}


/// Sentence punctuation that may follow a bare URL: `.` `,` `;` `:` `!`
/// `?` `'` `]`.
pub open spec fn sentence_punctuation(c: u8) -> bool {
    c == 0x2Eu8 || c == 0x2Cu8 || c == 0x3Bu8 || c == 0x3Au8 || c == 0x21u8 || c == 0x3Fu8 || c == 0x27u8
        || c == 0x5Du8
}

proof fn lemma_trim_back_last(s: Seq<u8>, lo: int, e: int)
    requires
        0 <= lo,
        e <= s.len(),
    ensures
        url_trim_back(s, lo, e) > lo ==> !sentence_punctuation(s[url_trim_back(s, lo, e) - 1]),
    decreases e - lo,
{
    if e > lo && url_trailing(s[e - 1]) {
        lemma_trim_back_last(s, lo, e - 1);
    }
}

/// A bare URL body never ends in sentence punctuation: the URL found from
/// `p` ends after `p` on a byte that is not one of `.` `,` `;` `:` `!` `?`
/// `'` `]`.
pub proof fn lemma_url_end_no_punctuation(s: Seq<u8>, p: int, hi: int)
    requires
        0 <= p,
        hi <= s.len(),
    ensures
        url_end(s, p, hi) matches Some(e) ==> p < e <= hi && !sentence_punctuation(s[e - 1]),
{
    lemma_url_end(s, p, hi);
    if !(p >= hi || crate::text::is_ascii_ws(s[p])) {
        lemma_url_body_end(s, p, hi, 0);
        lemma_trim_back_last(s, p, url_body_end(s, p, hi, 0));
    }
}

/// Every `http://`/`https://` URL the scan finds ends, within the scanned
/// text, on a byte that is not sentence punctuation.
pub proof fn lemma_scheme_urls_no_punctuation(s: Seq<u8>, lo: int, i: int, hi: int, claims: Seq<(usize, usize)>)
    requires
        0 <= lo,
    ensures
        forall|k: int|
            0 <= k < scheme_scan(s, lo, i, hi, claims).len() ==> {
                let x = #[trigger] scheme_scan(s, lo, i, hi, claims)[k];
                &&& lo <= x.ua < x.uz <= hi
                &&& !sentence_punctuation(s[x.uz - 1])
            },
    decreases hi - i,
{
    if !(i < lo || i >= hi || hi > s.len()) {
        let plen = scheme_len(s, i, hi);
        if plen == 0 || (i > lo && is_alnum(s[i - 1])) || i + plen > hi {
            lemma_scheme_urls_no_punctuation(s, lo, i + 1, hi, claims);
            assert(scheme_scan(s, lo, i, hi, claims) == scheme_scan(s, lo, i + 1, hi, claims));
        } else {
            lemma_url_end_no_punctuation(s, i + plen, hi);
            match url_end(s, i + plen, hi) {
                Some(e) => {
                    if overlaps_in(claims, i, e) {
                        lemma_scheme_urls_no_punctuation(s, lo, e, hi, claims);
                        assert(scheme_scan(s, lo, i, hi, claims) == scheme_scan(s, lo, e, hi, claims));
                    } else {
                        let c2 = claims.push((i as usize, e as usize));
                        lemma_scheme_urls_no_punctuation(s, lo, e, hi, c2);
                        let x = LinkFound { a: i, c0: i, c1: e, e, pre: Seq::empty(), ua: i, uz: e };
                        let f = scheme_scan(s, lo, i, hi, claims);
                        let rest = scheme_scan(s, lo, e, hi, c2);
                        assert(f == seq![x] + rest);
                        assert forall|k: int| 0 <= k < f.len() implies {
                            let y = #[trigger] f[k];
                            &&& lo <= y.ua < y.uz <= hi
                            &&& !sentence_punctuation(s[y.uz - 1])
                        } by {
                            if k > 0 {
                                assert(f[k] == rest[k - 1]);
                            }
                        }
                    }
                },
                None => {
                    lemma_scheme_urls_no_punctuation(s, lo, i + 1, hi, claims);
                    assert(scheme_scan(s, lo, i, hi, claims) == scheme_scan(s, lo, i + 1, hi, claims));
                },
            }
        }
    }
}

proof fn lemma_alnum_end_last(s: Seq<u8>, p: int, hi: int)
    requires
        0 <= p <= hi <= s.len(),
    ensures
        alnum_end(s, p, hi) > p ==> is_alnum(s[alnum_end(s, p, hi) - 1]),
    decreases hi - p,
{
    if p < hi && is_alnum(s[p]) {
        lemma_alnum_end_last(s, p + 1, hi);
    }
}

/// Every schemeless `domain.tld` URL the scan finds ends, within the
/// scanned text, on a byte that is not sentence punctuation.
pub proof fn lemma_domain_urls_no_punctuation(s: Seq<u8>, lo: int, i: int, hi: int, claims: Seq<(usize, usize)>)
    requires
        0 <= lo,
    ensures
        forall|k: int|
            0 <= k < domain_scan(s, lo, i, hi, claims).len() ==> {
                let x = #[trigger] domain_scan(s, lo, i, hi, claims)[k];
                &&& x.ua < x.uz <= hi
                &&& 0 <= x.uz - 1
                &&& !sentence_punctuation(s[x.uz - 1])
            },
    decreases hi - i,
{
    if !(i < lo || i >= hi || hi > s.len()) {
        if s[i] != 46u8 {
            lemma_domain_urls_no_punctuation(s, lo, i + 1, hi, claims);
            assert(domain_scan(s, lo, i, hi, claims) == domain_scan(s, lo, i + 1, hi, claims));
        } else {
            let ds = domain_start(s, lo, i);
            if ds == i || (ds - lo >= 3 && s[ds - 3] == 58u8 && s[ds - 2] == 47u8 && s[ds - 1] == 47u8) {
                lemma_domain_urls_no_punctuation(s, lo, i + 1, hi, claims);
                assert(domain_scan(s, lo, i, hi, claims) == domain_scan(s, lo, i + 1, hi, claims));
            } else {
                let te = alnum_end(s, i + 1, hi);
                lemma_alnum_end(s, i + 1, hi);
                lemma_alnum_end_last(s, i + 1, hi);
                if te == i + 1 {
                    lemma_domain_urls_no_punctuation(s, lo, i + 1, hi, claims);
                    assert(domain_scan(s, lo, i, hi, claims) == domain_scan(s, lo, i + 1, hi, claims));
                } else if !common_tld(s.subrange(i + 1, te)) || (ds > lo && !url_boundary(s[ds - 1])) {
                    lemma_domain_urls_no_punctuation(s, lo, te, hi, claims);
                    assert(domain_scan(s, lo, i, hi, claims) == domain_scan(s, lo, te, hi, claims));
                } else {
                    let e = domain_url_end(s, te, hi);
                    lemma_url_end_no_punctuation(s, te, hi);
                    lemma_domain_start(s, lo, i);
                    assert(e >= te && !sentence_punctuation(s[e - 1]));
                    if overlaps_in(claims, ds, e) {
                        lemma_domain_urls_no_punctuation(s, lo, e, hi, claims);
                        assert(domain_scan(s, lo, i, hi, claims) == domain_scan(s, lo, e, hi, claims));
                    } else {
                        let c2 = claims.push((ds as usize, e as usize));
                        lemma_domain_urls_no_punctuation(s, lo, e, hi, c2);
                        let x = LinkFound { a: ds, c0: ds, c1: e, e, pre: https_prefix(), ua: ds, uz: e };
                        let f = domain_scan(s, lo, i, hi, claims);
                        let rest = domain_scan(s, lo, e, hi, c2);
                        assert(f == seq![x] + rest);
                        assert forall|k: int| 0 <= k < f.len() implies {
                            let y = #[trigger] f[k];
                            &&& y.ua < y.uz <= hi
                            &&& 0 <= y.uz - 1
                            &&& !sentence_punctuation(s[y.uz - 1])
                        } by {
                            if k > 0 {
                                assert(f[k] == rest[k - 1]);
                            }
                        }
                    }
                }
            }
        }
    }
}

} // verus!
