//! Rich previews for note lists: block texts joined by newlines (code,
//! tables, rules, blank lines, image markers and footnote definitions left
//! out; checkboxes shown as `✓` / `☐`), inline markers removed, and the
//! remaining formatting spans mapped onto the plain text.
use vstd::prelude::*;
use vstd::string::StringSliceAdditionalSpecFns;
use crate::ast::{BlockKind, BlockNode, Document, InlineKind, ListItem, ParseMode};
use crate::ffi::{FfiInlineType, FfiPreviewSpan, FfiRenderedPreview, convert_inline_kind};
use crate::parser::{ParseOptions, parse_with_options, document_of, blocks_follow_rules};
use crate::text::{push_all, push_range, string_from_bytes, string_from_range};
use crate::utf16::{Utf16Map, MAX_SOURCE_LEN, step_len, step_units, utf16_total};
use crate::inline::{all_in, sorted_by_start};
use crate::ast::InlineSpan;
use crate::text::utf8_text;

verus! {

/// Plain preview text and its spans, before truncation.
pub struct CleanPreview {
    pub clean_text: String,
    /// UTF-16 length of `clean_text`.
    pub clean_utf16_len: u32,
    pub clean_spans: Vec<FfiPreviewSpan>,
}

/// Bytes of one step of the UTF-8 walk (as the offset map walks).
fn step_len_of(b: u8) -> (n: usize)
    ensures
        n == crate::utf16::step_len(b),
{
    if b < 0xC0 {
        1
    } else if b < 0xE0 {
        2
    } else if b < 0xF0 {
        3
    } else {
        4
    }
}

/// UTF-16 units of one step of the walk.
fn step_units_of(b: u8) -> (n: u32)
    ensures
        n == crate::utf16::step_units(b),
{
    if b >= 0xF0 {
        2
    } else {
        1
    }
}

/// UTF-16 unit `u` belongs to the markers of `sp` (to all of a comment).
pub open spec fn in_marker(sp: InlineSpan, u: int) -> bool {
    if sp.kind is Comment {
        sp.utf16_start <= u < sp.utf16_end
    } else {
        (sp.utf16_start <= u < sp.content_utf16_start) || (sp.content_utf16_end <= u
            < sp.utf16_end)
    }
}

/// UTF-16 unit `u` belongs to the markers of one of the spans.
pub open spec fn marked_by(sps: Seq<InlineSpan>, u: int) -> bool {
    exists|k: int| 0 <= k < sps.len() && #[trigger] in_marker(sps[k], u)
}

/// The characters of `raw` from byte `p` (UTF-16 unit `in_pos`) on whose
/// first unit is not a marker unit of `sps`, and their UTF-16 length.
pub open spec fn clean_walk(raw: Seq<u8>, sps: Seq<InlineSpan>, p: int, in_pos: int) -> (
    Seq<u8>,
    int,
)
    decreases raw.len() - p,
{
    if p < 0 || p >= raw.len() {
        (Seq::empty(), 0)
    } else {
        let c = raw[p];
        let w = if step_len(c) <= raw.len() - p {
            step_len(c)
        } else {
            raw.len() - p
        };
        let rest = clean_walk(raw, sps, p + w, in_pos + step_units(c));
        if in_pos < utf16_total(raw) && marked_by(sps, in_pos) {
            rest
        } else {
            (raw.subrange(p, p + w) + rest.0, step_units(c) + rest.1)
        }
    }
}

/// The clean position of UTF-16 unit `u` of `raw`, with the walk at byte
/// `p`, unit `in_pos` and clean position `cpos`: the clean units of the
/// characters before the one holding `u` (the clean length for `u` at or
/// past the end).
pub open spec fn clean_pos_of(raw: Seq<u8>, sps: Seq<InlineSpan>, p: int, in_pos: int, cpos: int, u: int) -> int
    decreases raw.len() - p,
{
    if p < 0 || p >= raw.len() {
        cpos
    } else {
        let c = raw[p];
        let w = if step_len(c) <= raw.len() - p {
            step_len(c)
        } else {
            raw.len() - p
        };
        if u < in_pos + step_units(c) {
            cpos
        } else if in_pos < utf16_total(raw) && marked_by(sps, in_pos) {
            clean_pos_of(raw, sps, p + w, in_pos + step_units(c), cpos, u)
        } else {
            clean_pos_of(raw, sps, p + w, in_pos + step_units(c), cpos + step_units(c), u)
        }
    }
}

/// The clean range of span `sp`'s content: its content bounds moved to
/// clean positions, when they lie in the text and the range is not empty.
pub open spec fn clean_range(raw: Seq<u8>, sps: Seq<InlineSpan>, sp: InlineSpan) -> Option<(int, int)> {
    let total = utf16_total(raw);
    let cs = sp.content_utf16_start as int;
    let ce = sp.content_utf16_end as int;
    if cs <= total && ce <= total + 1 && clean_pos_of(raw, sps, 0, 0, 0, cs) < clean_pos_of(
        raw,
        sps,
        0,
        0,
        0,
        ce,
    ) {
        Some((clean_pos_of(raw, sps, 0, 0, 0, cs), clean_pos_of(raw, sps, 0, 0, 0, ce)))
    } else {
        None
    }
}

/// `cl` holds the clean spans of the first `k` spans of `sps`, in order:
/// each span with a clean range gives its type and that range.
pub open spec fn clean_spans_fit(raw: Seq<u8>, sps: Seq<InlineSpan>, k: int, cl: Seq<FfiPreviewSpan>) -> bool
    decreases k,
{
    if k <= 0 || k > sps.len() {
        cl.len() == 0
    } else {
        match clean_range(raw, sps, sps[k - 1]) {
            Some(r) => cl.len() > 0 && clean_spans_fit(raw, sps, k - 1, cl.drop_last()) && cl.last().start
                == r.0 && cl.last().end == r.1 && crate::ffi::converts_kind(sps[k - 1].kind, cl.last().span_type),
            None => clean_spans_fit(raw, sps, k - 1, cl),
        }
    }
}

/// A clean preview of the raw text `raw` for the spans `sps` found in it:
/// the text without marker characters, its UTF-16 length, and the spans'
/// content ranges moved to the clean text.
pub open spec fn clean_of(raw: Seq<u8>, sps: Seq<InlineSpan>, pv: CleanPreview) -> bool {
    &&& all_in(raw, sps, 0, raw.len() as int)
    &&& sorted_by_start(sps)
    &&& pv.clean_text@ == utf8_text(clean_walk(raw, sps, 0, 0).0)
    &&& pv.clean_utf16_len == clean_walk(raw, sps, 0, 0).1
    &&& forall|k: int|
        0 <= k < pv.clean_spans@.len() ==> (#[trigger] pv.clean_spans@[k]).start
            < pv.clean_spans@[k].end <= pv.clean_utf16_len
    &&& clean_spans_fit(raw, sps, sps.len() as int, pv.clean_spans@)
}

/// Saturating addition in `usize`.
pub open spec fn sat_add(a: int, b: int) -> int {
    if a + b > usize::MAX {
        usize::MAX as int
    } else {
        a + b
    }
}

/// The raw preview while it is collected: its bytes, the number of parts
/// and the approximate length counted so far.
pub open spec fn add_part(st: (Seq<u8>, int, int), part: Seq<u8>, weight: int) -> (
    Seq<u8>,
    int,
    int,
) {
    (
        if st.1 > 0 {
            st.0 + seq![10u8] + part
        } else {
            st.0 + part
        },
        st.1 + 1,
        sat_add(st.2, weight),
    )
}

/// A text part is added when it is not empty.
pub open spec fn add_text(st: (Seq<u8>, int, int), t: Seq<char>) -> (Seq<u8>, int, int) {
    let tb = vstd::utf8::encode_utf8(t);
    if tb.len() > 0 {
        add_part(st, tb, tb.len() as int)
    } else {
        st
    }
}

/// `✓ ` or `☐ ` in UTF-8.
pub open spec fn check_prefix(checked: bool) -> Seq<u8> {
    if checked {
        seq![0xE2u8, 0x9Cu8, 0x93u8, 32u8]
    } else {
        seq![0xE2u8, 0x98u8, 0x90u8, 32u8]
    }
}

/// Collection stops once the approximate length reaches the limit (or the
/// part count nears the `usize` range).
pub open spec fn raw_done(st: (Seq<u8>, int, int), limit: int) -> bool {
    st.2 >= limit || st.1 >= usize::MAX - 1
}

/// List items from `j` on, one part per non-empty item text.
pub open spec fn items_raw(items: Seq<ListItem>, j: int, st: (Seq<u8>, int, int), limit: int) -> (
    Seq<u8>,
    int,
    int,
)
    decreases items.len() - j,
{
    if j < 0 || j >= items.len() || raw_done(st, limit) {
        st
    } else {
        items_raw(items, j + 1, add_text(st, items[j].text@), limit)
    }
}

/// What one block adds to the raw preview.
pub open spec fn block_raw(k: BlockKind, st: (Seq<u8>, int, int), limit: int) -> (
    Seq<u8>,
    int,
    int,
) {
    match k {
        BlockKind::Heading { text, .. } => add_text(st, text@),
        BlockKind::Paragraph { text } => add_text(st, text@),
        BlockKind::Blockquote { text } => add_text(st, text@),
        BlockKind::Checkbox { checked, text } => {
            let tb = vstd::utf8::encode_utf8(text@);
            let a = add_part(st, check_prefix(checked) + tb, tb.len() as int);
            (a.0, a.1, sat_add(a.2, 2))
        },
        BlockKind::BulletList { items } => items_raw(items@, 0, st, limit),
        BlockKind::OrderedList { items, .. } => items_raw(items@, 0, st, limit),
        BlockKind::BulletItem { text } => add_text(st, text@),
        BlockKind::NumberedItem { text, .. } => add_text(st, text@),
        BlockKind::Callout { text, .. } => add_text(st, text@),
        _ => st,
    }
}

/// The raw preview of the blocks from `k` on: block texts (code, tables,
/// rules, blank lines, image markers and footnote definitions left out),
/// one part each, joined by newlines, until about `limit` bytes.
pub open spec fn blocks_raw(bs: Seq<BlockNode>, k: int, st: (Seq<u8>, int, int), limit: int) -> (
    Seq<u8>,
    int,
    int,
)
    decreases bs.len() - k,
{
    if k < 0 || k >= bs.len() || raw_done(st, limit) {
        st
    } else {
        blocks_raw(bs, k + 1, block_raw(bs[k].kind, st, limit), limit)
    }
}

/// The non-empty item texts of `items[j..]` as UTF-8, in order, each after
/// a newline when something came before it.
pub open spec fn list_item_bytes(items: Seq<ListItem>, j: int, started: bool) -> Seq<u8>
    decreases items.len() - j,
{
    if j < 0 || j >= items.len() {
        Seq::empty()
    } else {
        let t = vstd::utf8::encode_utf8(items[j].text@);
        if t.len() == 0 {
            list_item_bytes(items, j + 1, started)
        } else {
            (if started {
                seq![10u8]
            } else {
                Seq::empty()
            }) + t + list_item_bytes(items, j + 1, true)
        }
    }
}

/// Bytes of the item texts of `items[j..]`.
pub open spec fn item_text_total(items: Seq<ListItem>, j: int) -> int
    decreases items.len() - j,
{
    if j < 0 || j >= items.len() {
        0
    } else {
        vstd::utf8::encode_utf8(items[j].text@).len() + item_text_total(items, j + 1)
    }
}

proof fn lemma_item_text_total_nonneg(items: Seq<ListItem>, j: int)
    ensures
        item_text_total(items, j) >= 0,
    decreases items.len() - j,
{
    if 0 <= j < items.len() {
        lemma_item_text_total_nonneg(items, j + 1);
    }
}

proof fn lemma_items_raw_all(items: Seq<ListItem>, j: int, st: (Seq<u8>, int, int), limit: int)
    requires
        0 <= j <= items.len(),
        0 <= st.1,
        st.1 + (items.len() - j) < usize::MAX - 1,
        0 <= st.2,
        st.2 + item_text_total(items, j) < limit,
    ensures
        items_raw(items, j, st, limit).0 == st.0 + list_item_bytes(items, j, st.1 > 0),
    decreases items.len() - j,
{
    lemma_item_text_total_nonneg(items, j);
    if j < items.len() {
        lemma_item_text_total_nonneg(items, j + 1);
        let tb = vstd::utf8::encode_utf8(items[j].text@);
        let st2 = add_text(st, items[j].text@);
        assert(!raw_done(st, limit));
        assert(items_raw(items, j, st, limit) == items_raw(items, j + 1, st2, limit));
        lemma_items_raw_all(items, j + 1, st2, limit);
        if tb.len() > 0 {
            if st.1 > 0 {
                assert(st2.0 + list_item_bytes(items, j + 1, true) =~= st.0 + (seq![10u8] + tb
                    + list_item_bytes(items, j + 1, true)));
            } else {
                assert(st2.0 + list_item_bytes(items, j + 1, true) =~= st.0 + (Seq::<u8>::empty() + tb
                    + list_item_bytes(items, j + 1, true)));
            }
        }
    } else {
        assert(st.0 + Seq::<u8>::empty() =~= st.0);
    }
}

/// A bullet list and an ordered list add the same to the raw preview: each
/// non-empty item text, in order, after a newline when something came
/// before it, as long as the collected length stays under the limit.
pub proof fn lemma_list_items_in_preview(k: BlockKind, st: (Seq<u8>, int, int), limit: int)
    requires
        k is BulletList || k is OrderedList,
        0 <= st.1,
        0 <= st.2,
        ({
            let items = match k {
                BlockKind::BulletList { items } => items@,
                BlockKind::OrderedList { items, .. } => items@,
                _ => Seq::empty(),
            };
            &&& st.1 + items.len() < usize::MAX - 1
            &&& st.2 + item_text_total(items, 0) < limit
        }),
    ensures
        ({
            let items = match k {
                BlockKind::BulletList { items } => items@,
                BlockKind::OrderedList { items, .. } => items@,
                _ => Seq::empty(),
            };
            block_raw(k, st, limit).0 == st.0 + list_item_bytes(items, 0, st.1 > 0)
        }),
{
    match k {
        BlockKind::BulletList { items } => lemma_items_raw_all(items@, 0, st, limit),
        BlockKind::OrderedList { items, .. } => lemma_items_raw_all(items@, 0, st, limit),
        _ => {},
    }
}

/// The raw preview of a document.
pub open spec fn raw_preview(bs: Seq<BlockNode>, limit: int) -> (Seq<u8>, int, int) {
    blocks_raw(bs, 0, (Seq::empty(), 0, 0), limit)
}

/// Append a part to the raw preview, after a newline when it is not the
/// first.
fn push_part(raw: &mut Vec<u8>, parts: &mut usize, approx: &mut usize, bytes: &[u8], weight: usize)
    requires
        *old(parts) < usize::MAX,
    ensures
        (final(raw)@, *final(parts) as int, *final(approx) as int) == add_part(
            (old(raw)@, *old(parts) as int, *old(approx) as int),
            bytes@,
            weight as int,
        ),
{
    if *parts > 0 {
        raw.push(10u8);
    }
    push_all(raw, bytes);
    *parts = *parts + 1;
    *approx = approx.saturating_add(weight);
    proof {
        if *old(parts) > 0 {
            assert(raw@ =~= old(raw)@ + seq![10u8] + bytes@);
        }
    }
}

/// Add a non-empty text as a part.
fn push_text(raw: &mut Vec<u8>, parts: &mut usize, approx: &mut usize, text: &String)
    requires
        *old(parts) < usize::MAX,
    ensures
        (final(raw)@, *final(parts) as int, *final(approx) as int) == add_text(
            (old(raw)@, *old(parts) as int, *old(approx) as int),
            text@,
        ),
{
    let tb = text.as_str().as_bytes();
    if tb.len() > 0 {
        push_part(raw, parts, approx, tb, tb.len());
    }
}

/// Collect the raw preview of a document.
#[verifier::loop_isolation(false)]
fn collect_raw(doc: &Document, approx_limit: usize) -> (r: (Vec<u8>, usize))
    ensures
        r.0@ == raw_preview(doc.blocks@, approx_limit as int).0,
        r.1 == raw_preview(doc.blocks@, approx_limit as int).1,
{
    let mut raw: Vec<u8> = Vec::new();
    let mut parts: usize = 0;
    let mut approx: usize = 0;
    let mut k: usize = 0;
    let ghost limit = approx_limit as int;
    while k < doc.blocks.len()
        invariant
            k <= doc.blocks@.len(),
            blocks_raw(doc.blocks@, k as int, (raw@, parts as int, approx as int), limit)
                == raw_preview(doc.blocks@, limit),
        decreases doc.blocks@.len() - k,
    {
        if approx >= approx_limit {
            break;
        }
        if parts >= usize::MAX - 1 {
            break;
        }
        let blk = &doc.blocks[k];
        let ghost st = (raw@, parts as int, approx as int);
        match &blk.kind {
            BlockKind::Heading { text, .. } | BlockKind::Paragraph { text } | BlockKind::Blockquote {
                text,
            } | BlockKind::BulletItem { text } | BlockKind::NumberedItem { text, .. }
            | BlockKind::Callout { text, .. } => {
                push_text(&mut raw, &mut parts, &mut approx, text);
            },
            BlockKind::Checkbox { checked, text } => {
                let tb = text.as_str().as_bytes();
                let prefix: [u8; 4] = if *checked {
                    [0xE2u8, 0x9Cu8, 0x93u8, 32u8]
                } else {
                    [0xE2u8, 0x98u8, 0x90u8, 32u8]
                };
                let mut part: Vec<u8> = Vec::new();
                push_all(&mut part, prefix.as_slice());
                push_all(&mut part, tb);
                proof {
                    assert(prefix@ =~= check_prefix(*checked));
                }
                push_part(&mut raw, &mut parts, &mut approx, part.as_slice(), tb.len());
                approx = approx.saturating_add(2);
            },
            BlockKind::BulletList { items } | BlockKind::OrderedList { items, .. } => {
                let mut j: usize = 0;
                while j < items.len()
                    invariant
                        j <= items@.len(),
                        items_raw(items@, j as int, (raw@, parts as int, approx as int), limit)
                            == items_raw(items@, 0, st, limit),
                    decreases items@.len() - j,
                {
                    if approx >= approx_limit || parts >= usize::MAX - 1 {
                        break;
                    }
                    push_text(&mut raw, &mut parts, &mut approx, &items[j].text);
                    j = j + 1;
                }
            },
            _ => {},
        }
        k = k + 1;
    }
    (raw, parts)
}

/// Build the plain preview of a document, collecting block texts until
/// about `approx_limit` bytes; `None` when no block has preview text.
pub fn build_clean_preview_from_doc(doc: &Document, approx_limit: usize) -> (r: Option<
    CleanPreview,
>)
    ensures
        r is None <==> raw_preview(doc.blocks@, approx_limit as int).1 == 0 || raw_preview(
            doc.blocks@,
            approx_limit as int,
        ).0.len() > MAX_SOURCE_LEN,
        r is Some ==> previewed(raw_preview(doc.blocks@, approx_limit as int).0, r->0),
{
    let (raw, parts) = collect_raw(doc, approx_limit);
    if parts == 0 {
        return None;
    }
    // Offsets of the preview are `u32` UTF-16 units.
    if raw.len() > MAX_SOURCE_LEN {
        return None;
    }
    let rb = raw.as_slice();
    let n = rb.len();
    let map = Utf16Map::build(rb);
    let spans = crate::inline::parse_spans(rb, 0, n, &map);
    let total = map.total_utf16_len as usize;
    proof {
        crate::utf16::lemma_units_bound(rb@, 0, n as int);
    }
    // Mark the UTF-16 units that belong to inline markers (all of a comment).
    let mut marker: Vec<bool> = vec![false; total];
    let mut s: usize = 0;
    while s < spans.len()
        invariant
            s <= spans@.len(),
            marker@.len() == total,
            forall|u: int|
                0 <= u < total ==> (#[trigger] marker@[u] <==> marked_by(
                    spans@.subrange(0, s as int),
                    u,
                )),
        decreases spans@.len() - s,
    {
        let sp = &spans[s];
        let ghost before = marker@;
        if matches!(sp.kind, InlineKind::Comment) {
            mark_range(&mut marker, sp.utf16_start, sp.utf16_end);
        } else {
            mark_range(&mut marker, sp.utf16_start, sp.content_utf16_start);
            mark_range(&mut marker, sp.content_utf16_end, sp.utf16_end);
        }
        proof {
            let prev = spans@.subrange(0, s as int);
            let next = spans@.subrange(0, s + 1);
            assert forall|u: int| 0 <= u < total implies (#[trigger] marker@[u] <==> marked_by(
                next,
                u,
            )) by {
                assert(next[s as int] == spans@[s as int]);
                if marked_by(prev, u) {
                    let k = choose|k: int| 0 <= k < prev.len() && #[trigger] in_marker(prev[k], u);
                    assert(next[k] == prev[k]);
                }
                if marked_by(next, u) {
                    let k = choose|k: int| 0 <= k < next.len() && #[trigger] in_marker(next[k], u);
                    if k < s {
                        assert(prev[k] == next[k]);
                    }
                }
                if in_marker(spans@[s as int], u) {
                    assert(in_marker(next[s as int], u));
                }
            }
        }
        s = s + 1;
    }
    proof {
        assert(spans@.subrange(0, spans@.len() as int) =~= spans@);
    }
    // Copy the unmarked characters, recording where each unit lands.
    let mut clean: Vec<u8> = Vec::new();
    let mut clean_pos: u32 = 0;
    let mut in_pos: u32 = 0;
    let mut position_map: Vec<u32> = vec![0u32; total + 1];
    let mut p: usize = 0;
    while p < n
        invariant
            p <= n == rb@.len() <= MAX_SOURCE_LEN,
            marker@.len() == total,
            total == utf16_total(rb@),
            forall|u: int| 0 <= u < total ==> (#[trigger] marker@[u] <==> marked_by(spans@, u)),
            position_map@.len() == total + 1,
            clean_pos <= in_pos,
            in_pos <= p + 1,
            p < n ==> in_pos <= p,
            forall|x: int| 0 <= x < position_map@.len() ==> #[trigger] position_map@[x] <= clean_pos,
            clean@ + clean_walk(rb@, spans@, p as int, in_pos as int).0 == clean_walk(
                rb@,
                spans@,
                0,
                0,
            ).0,
            clean_pos + clean_walk(rb@, spans@, p as int, in_pos as int).1 == clean_walk(
                rb@,
                spans@,
                0,
                0,
            ).1,
            in_pos + crate::utf16::units_between(rb@, p as int, n as int) == total,
            forall|x: int| 0 <= x < in_pos ==> #[trigger] position_map@[x] == clean_pos_of(rb@, spans@, 0, 0, 0, x),
            forall|x: int| in_pos <= x ==> #[trigger] clean_pos_of(rb@, spans@, 0, 0, 0, x) == clean_pos_of(
                rb@,
                spans@,
                p as int,
                in_pos as int,
                clean_pos as int,
                x,
            ),
        decreases n - p,
    {
        let c = rb[p];
        let w0 = step_len_of(c);
        let w = if w0 <= n - p {
            w0
        } else {
            n - p
        };
        let units = step_units_of(c);
        let idx = in_pos as usize;
        let marked = idx < marker.len() && marker[idx];
        proof {
            crate::utf16::lemma_units_bound(rb@, p + step_len(c), n as int);
            assert(crate::utf16::units_between(rb@, p as int, n as int) == units
                + crate::utf16::units_between(rb@, p + step_len(c), n as int));
            assert(in_pos + units <= total);
        }
        let mut u: u32 = 0;
        while u < units
            invariant
                u <= units <= 2,
                position_map@.len() == total + 1,
                clean_pos <= in_pos,
                in_pos <= p,
                p < n <= MAX_SOURCE_LEN,
                forall|x: int| 0 <= x < position_map@.len() ==> #[trigger] position_map@[x] <= clean_pos,
                units == step_units(rb@[p as int]),
                in_pos + units <= total,
                forall|x: int| 0 <= x < in_pos + u ==> #[trigger] position_map@[x] == clean_pos_of(rb@, spans@, 0, 0, 0, x),
                forall|x: int| in_pos <= x ==> #[trigger] clean_pos_of(rb@, spans@, 0, 0, 0, x) == clean_pos_of(
                    rb@,
                    spans@,
                    p as int,
                    in_pos as int,
                    clean_pos as int,
                    x,
                ),
            decreases units - u,
        {
            let mi = (in_pos + u) as usize;
            if mi < position_map.len() {
                position_map.set(mi, clean_pos);
            }
            u = u + 1;
        }
        let ghost old_clean = clean@;
        if !marked {
            push_range(&mut clean, rb, p, p + w);
            clean_pos = clean_pos + units;
        }
        proof {
            if !marked {
                assert(clean@ == old_clean + rb@.subrange(p as int, p + w));
            }
            assert(idx < marker@.len() ==> (marker@[idx as int] <==> marked_by(spans@, idx as int)));
        }
        let ghost p_old = p as int;
        in_pos = in_pos + units;
        p = p + w;
        proof {
            if w < w0 {
                assert(crate::utf16::units_between(rb@, p_old + step_len(c), n as int) == 0);
                assert(crate::utf16::units_between(rb@, p as int, n as int) == 0);
            }
        }
    }
    let end_idx = in_pos as usize;
    if end_idx < position_map.len() {
        position_map.set(end_idx, clean_pos);
    }
    proof {
        assert(in_pos == total);
        assert(clean_pos_of(rb@, spans@, 0, 0, 0, total + 1) == clean_pos);
    }
    // Remap the spans' content ranges.
    let mut clean_spans: Vec<FfiPreviewSpan> = Vec::new();
    let mut s: usize = 0;
    while s < spans.len()
        invariant
            s <= spans@.len(),
            position_map@.len() == total + 1,
            total == utf16_total(rb@),
            forall|x: int| 0 <= x < position_map@.len() ==> #[trigger] position_map@[x] <= clean_pos,
            forall|x: int| 0 <= x <= total ==> #[trigger] position_map@[x] == clean_pos_of(rb@, spans@, 0, 0, 0, x),
            clean_pos_of(rb@, spans@, 0, 0, 0, total + 1) == clean_pos,
            forall|k: int|
                0 <= k < clean_spans@.len() ==> (#[trigger] clean_spans@[k]).start
                    < clean_spans@[k].end <= clean_pos,
            clean_spans_fit(rb@, spans@, s as int, clean_spans@),
        decreases spans@.len() - s,
    {
        let sp = &spans[s];
        let ghost before = clean_spans@;
        s = s + 1;
        let cs = sp.content_utf16_start as usize;
        let ce = sp.content_utf16_end as usize;
        if cs < position_map.len() && ce <= position_map.len() {
            let ms = position_map[cs];
            let me = if ce < position_map.len() {
                position_map[ce]
            } else {
                clean_pos
            };
            if ms < me {
                clean_spans.push(
                    FfiPreviewSpan { span_type: convert_inline_kind(&sp.kind), start: ms, end: me },
                );
                proof {
                    assert(clean_spans@.drop_last() =~= before);
                }
            }
        }
        proof {
            assert(clean_spans_fit(rb@, spans@, s as int, clean_spans@));
        }
    }
    let pv = CleanPreview {
        clean_text: string_from_bytes(clean.as_slice()),
        clean_utf16_len: clean_pos,
        clean_spans,
    };
    proof {
        let rp = raw_preview(doc.blocks@, approx_limit as int).0;
        assert(clean_of(rp, spans@, pv));
        assert(exists|sps: Seq<InlineSpan>| #[trigger] clean_of(rp, sps, pv));
    }
    let r = Some(pv);
    proof {
        assert(r->0 == pv);
    }
    r
}

/// Mark the units `[a, b)` that lie inside `marker`.
fn mark_range(marker: &mut Vec<bool>, a: u32, b: u32)
    ensures
        final(marker)@.len() == old(marker)@.len(),
        forall|u: int|
            0 <= u < old(marker)@.len() ==> (#[trigger] final(marker)@[u] <==> (old(marker)@[u] || (a
                <= u < b))),
{
    let mut i = a;
    while i < b
        invariant
            marker@.len() == old(marker)@.len(),
            a <= i,
            a <= b ==> i <= b,
            a > b ==> i == a,
            forall|u: int|
                0 <= u < marker@.len() ==> (#[trigger] marker@[u] <==> (old(marker)@[u] || (a <= u
                    < i))),
        decreases b - i,
    {
        if (i as usize) < marker.len() {
            marker.set(i as usize, true);
        }
        i = i + 1;
    }
}

/// A copy of an inline type.
fn copy_inline_type(t: &FfiInlineType) -> (r: FfiInlineType)
    ensures
        r == *t,
{
    match t {
        FfiInlineType::Bold => FfiInlineType::Bold,
        FfiInlineType::Italic => FfiInlineType::Italic,
        FfiInlineType::BoldItalic => FfiInlineType::BoldItalic,
        FfiInlineType::Strikethrough => FfiInlineType::Strikethrough,
        FfiInlineType::UnderlineTilde => FfiInlineType::UnderlineTilde,
        FfiInlineType::UnderlineHtml => FfiInlineType::UnderlineHtml,
        FfiInlineType::InlineCode => FfiInlineType::InlineCode,
        FfiInlineType::Highlight => FfiInlineType::Highlight,
        FfiInlineType::HighlightColor { color_index } => FfiInlineType::HighlightColor {
            color_index: *color_index,
        },
        FfiInlineType::HighlightHex { hex } => FfiInlineType::HighlightHex { hex: hex.clone() },
        FfiInlineType::Link { url } => FfiInlineType::Link { url: url.clone() },
        FfiInlineType::AutoLink { url } => FfiInlineType::AutoLink { url: url.clone() },
        FfiInlineType::WikiLink => FfiInlineType::WikiLink,
        FfiInlineType::FootnoteRef => FfiInlineType::FootnoteRef,
        FfiInlineType::Comment => FfiInlineType::Comment,
        FfiInlineType::HexColor { hex } => FfiInlineType::HexColor { hex: hex.clone() },
    }
}

/// End of the longest prefix of `b` (walked character by character from
/// byte `p`, having counted `count` UTF-16 units) of at most `max` units.
pub open spec fn cut_end(b: Seq<u8>, max: int, p: int, count: int) -> int
    decreases b.len() - p,
{
    if p < 0 || p >= b.len() || count + step_units(b[p]) > max {
        p
    } else {
        let w = if step_len(b[p]) <= b.len() - p {
            step_len(b[p])
        } else {
            b.len() - p
        };
        cut_end(b, max, p + w, count + step_units(b[p]))
    }
}

/// The spans of `sps` from `k` on that start before `max`, each ending at
/// most at `max`.
pub open spec fn clipped_spans(sps: Seq<FfiPreviewSpan>, max: u32, k: int) -> Seq<FfiPreviewSpan>
    decreases sps.len() - k,
{
    if k < 0 || k >= sps.len() {
        Seq::empty()
    } else if sps[k].start < max {
        seq![
            FfiPreviewSpan {
                span_type: sps[k].span_type,
                start: sps[k].start,
                end: if sps[k].end > max {
                    max
                } else {
                    sps[k].end
                },
            },
        ] + clipped_spans(sps, max, k + 1)
    } else {
        clipped_spans(sps, max, k + 1)
    }
}

/// Copies of the spans of `sps` from `k` on that start before `max`,
/// clipped to `max`.
fn clip_spans(sps: &Vec<FfiPreviewSpan>, max: u32) -> (out: Vec<FfiPreviewSpan>)
    ensures
        out@ == clipped_spans(sps@, max, 0),
{
    let mut out: Vec<FfiPreviewSpan> = Vec::new();
    let mut k: usize = 0;
    while k < sps.len()
        invariant
            k <= sps@.len(),
            out@ + clipped_spans(sps@, max, k as int) == clipped_spans(sps@, max, 0),
        decreases sps@.len() - k,
    {
        let sp = &sps[k];
        if sp.start < max {
            let end = if sp.end > max {
                max
            } else {
                sp.end
            };
            let c = FfiPreviewSpan { span_type: copy_inline_type(&sp.span_type), start: sp.start, end };
            let ghost o = out@;
            out.push(c);
            proof {
                assert(out@ + clipped_spans(sps@, max, k + 1) =~= o + clipped_spans(
                    sps@,
                    max,
                    k as int,
                ));
            }
        }
        k = k + 1;
    }
    proof {
        assert(out@ + clipped_spans(sps@, max, sps@.len() as int) =~= out@);
    }
    out
}

/// Truncate a preview to `max_chars` UTF-16 units: the text is cut before
/// the first character that would pass the limit, spans starting at or
/// past it are dropped and the others end at most at the limit. A preview
/// within the limit is kept as it is.
pub fn truncate_preview(preview: &CleanPreview, max_chars: u32) -> (r: FfiRenderedPreview)
    ensures
        truncated(*preview, max_chars, r),
{
    if preview.clean_utf16_len <= max_chars {
        return FfiRenderedPreview {
            plain_text: preview.clean_text.clone(),
            spans: clip_spans(&preview.clean_spans, u32::MAX),
        };
    }
    let b = preview.clean_text.as_str().as_bytes();
    let n = b.len();
    let mut count: u64 = 0;
    let mut p: usize = 0;
    while p < n
        invariant
            p <= n == b@.len(),
            count <= max_chars,
            cut_end(b@, max_chars as int, p as int, count as int) == cut_end(
                b@,
                max_chars as int,
                0,
                0,
            ),
        ensures
            p == cut_end(b@, max_chars as int, 0, 0),
        decreases n - p,
    {
        let c = b[p];
        let w0 = step_len_of(c);
        let w = if w0 <= n - p {
            w0
        } else {
            n - p
        };
        let nc = count + step_units_of(c) as u64;
        if nc > max_chars as u64 {
            break;
        }
        count = nc;
        p = p + w;
    }
    let text = string_from_range(b, 0, p);
    let spans = clip_spans(&preview.clean_spans, max_chars);
    FfiRenderedPreview { plain_text: text, spans }
}

/// An empty preview.
pub fn empty_preview() -> (r: FfiRenderedPreview)
    ensures
        r.plain_text@.len() == 0,
        r.spans@.len() == 0,
{
    FfiRenderedPreview { plain_text: String::new(), spans: Vec::new() }
}

/// `r` is `pv` truncated to `max` UTF-16 units (see `truncate_preview`).
pub open spec fn truncated(pv: CleanPreview, max: u32, r: FfiRenderedPreview) -> bool {
    if pv.clean_utf16_len <= max {
        r.plain_text == pv.clean_text && r.spans@ == clipped_spans(pv.clean_spans@, u32::MAX, 0)
    } else {
        let b = vstd::utf8::encode_utf8(pv.clean_text@);
        &&& r.plain_text@ == utf8_text(b.subrange(0, cut_end(b, max as int, 0, 0)))
        &&& r.spans@ == clipped_spans(pv.clean_spans@, max, 0)
    }
}

proof fn lemma_clipped_bounded(sps: Seq<FfiPreviewSpan>, max: u32, k: int, bound: int)
    requires
        0 <= k,
        forall|j: int| k <= j < sps.len() ==> (#[trigger] sps[j]).start < sps[j].end <= bound,
    ensures
        forall|i: int|
            0 <= i < clipped_spans(sps, max, k).len() ==> (#[trigger] clipped_spans(sps, max, k)[i]).start
                < clipped_spans(sps, max, k)[i].end && clipped_spans(sps, max, k)[i].end <= max
                && clipped_spans(sps, max, k)[i].end <= bound,
    decreases sps.len() - k,
{
    if k < sps.len() {
        lemma_clipped_bounded(sps, max, k + 1, bound);
        let rest = clipped_spans(sps, max, k + 1);
        if sps[k].start < max {
            let c = clipped_spans(sps, max, k);
            assert forall|i: int| 0 <= i < c.len() implies (#[trigger] c[i]).start < c[i].end && c[i].end <= max
                && c[i].end <= bound by {
                if i > 0 {
                    assert(c[i] == rest[i - 1]);
                }
            }
        }
    }
}

/// Every span of a rendered preview is non-empty and ends at most at the
/// preview's UTF-16 limit (spans that start at or past the limit are
/// dropped, the others cut at it).
pub proof fn lemma_preview_spans_bounded(doc: Document, limit: int, maxes: Seq<u32>, rs: Seq<FfiRenderedPreview>)
    requires
        previews_of(doc, limit, maxes, rs),
    ensures
        forall|k: int, j: int|
            0 <= k < rs.len() && 0 <= j < rs[k].spans@.len() ==> (#[trigger] rs[k].spans@[j]).start
                < rs[k].spans@[j].end && rs[k].spans@[j].end <= maxes[k],
{
    reveal(previews_of);
    let raw = raw_preview(doc.blocks@, limit);
    if !(raw.1 == 0 || raw.0.len() > MAX_SOURCE_LEN) {
        let pv = choose|pv: CleanPreview|
            #[trigger] previewed(raw.0, pv) && forall|k: int|
                0 <= k < rs.len() ==> truncated(pv, maxes[k], #[trigger] rs[k]);
        let sps = choose|sps: Seq<InlineSpan>|
            crate::inline::inline_spans_are(raw.0, 0, raw.0.len() as int, sps) && #[trigger] clean_of(raw.0, sps, pv);
        assert forall|k: int, j: int|
            0 <= k < rs.len() && 0 <= j < rs[k].spans@.len() implies (#[trigger] rs[k].spans@[j]).start
                < rs[k].spans@[j].end && rs[k].spans@[j].end <= maxes[k] by {
            assert(truncated(pv, maxes[k], rs[k]));
            lemma_clipped_bounded(pv.clean_spans@, u32::MAX, 0, pv.clean_utf16_len as int);
            lemma_clipped_bounded(pv.clean_spans@, maxes[k], 0, pv.clean_utf16_len as int);
        }
    }
}

/// `r` has no text and no spans.
pub open spec fn blank_preview(r: FfiRenderedPreview) -> bool {
    r.plain_text@.len() == 0 && r.spans@.len() == 0
}

/// `pv` is the clean preview of the raw preview text `raw`, made with the
/// inline spans of the whole of `raw`.
pub open spec fn previewed(raw: Seq<u8>, pv: CleanPreview) -> bool {
    exists|sps: Seq<InlineSpan>|
        crate::inline::inline_spans_are(raw, 0, raw.len() as int, sps) && #[trigger] clean_of(raw, sps, pv)
}

/// The previews `rs` of `doc`, one for each UTF-16 limit of `maxes`, all
/// cut from one clean preview of the raw text collected up to about
/// `limit` bytes; blank when there is no preview text.
#[verifier::opaque]
pub open spec fn previews_of(doc: Document, limit: int, maxes: Seq<u32>, rs: Seq<FfiRenderedPreview>) -> bool {
    let raw = raw_preview(doc.blocks@, limit);
    &&& rs.len() == maxes.len()
    &&& if raw.1 == 0 || raw.0.len() > MAX_SOURCE_LEN {
        forall|k: int| 0 <= k < rs.len() ==> blank_preview(#[trigger] rs[k])
    } else {
        exists|pv: CleanPreview|
            #[trigger] previewed(raw.0, pv) && forall|k: int|
                0 <= k < rs.len() ==> truncated(pv, maxes[k], #[trigger] rs[k])
    }
}

/// The grouped parse of `s` that previews are built from.
pub open spec fn preview_parse(s: Seq<u8>, options: ParseOptions, doc: Document) -> bool {
    &&& document_of(s, ParseMode::Grouped, doc)
    &&& blocks_follow_rules(s, ParseMode::Grouped, options.scheme_bytes(), doc.blocks@)
}

/// Parse and build the plain preview.
fn build_clean_preview(text: &str, approx_limit: usize, options: &ParseOptions) -> (r: (
    Option<CleanPreview>,
    Ghost<Document>,
))
    requires
        text.spec_bytes().len() <= MAX_SOURCE_LEN,
    ensures
        preview_parse(text.spec_bytes(), *options, r.1@),
        r.0 is None <==> raw_preview(r.1@.blocks@, approx_limit as int).1 == 0 || raw_preview(
            r.1@.blocks@,
            approx_limit as int,
        ).0.len() > MAX_SOURCE_LEN,
        r.0 is Some ==> previewed(raw_preview(r.1@.blocks@, approx_limit as int).0, r.0->0),
{
    let doc = parse_with_options(text, ParseMode::Grouped, options);
    let p = build_clean_preview_from_doc(&doc, approx_limit);
    (p, Ghost(doc))
}

/// Render one preview of at most `max_chars` UTF-16 units.
pub fn render_preview_impl(text: &str, max_chars: u32, options: &ParseOptions) -> (r:
    FfiRenderedPreview)
    requires
        text.spec_bytes().len() <= MAX_SOURCE_LEN,
    ensures
        text@.len() == 0 ==> blank_preview(r),
        text@.len() > 0 ==> exists|doc: Document|
            #[trigger] preview_parse(text.spec_bytes(), *options, doc) && previews_of(
                doc,
                max_chars as int,
                seq![max_chars],
                seq![r],
            ),
{
    if text.is_empty() {
        return empty_preview();
    }
    let (built, Ghost(doc)) = build_clean_preview(text, max_chars as usize, options);
    let r = match built {
        Some(p) => truncate_preview(&p, max_chars),
        None => empty_preview(),
    };
    proof {
        reveal(previews_of);
        let raw = raw_preview(doc.blocks@, max_chars as int);
        if built is Some {
            assert(truncated(built->0, max_chars, seq![r][0]));
            assert(previewed(raw.0, built->0));
        }
        assert(previews_of(doc, max_chars as int, seq![max_chars], seq![r]));
        assert(preview_parse(text.spec_bytes(), *options, doc));
    }
    r
}

/// Two previews cut from one clean preview of a document are its previews.
pub(crate) proof fn lemma_previews_pair(
    doc: Document,
    limit: int,
    pv: CleanPreview,
    a: u32,
    b: u32,
    ra: FfiRenderedPreview,
    rb: FfiRenderedPreview,
)
    requires
        raw_preview(doc.blocks@, limit).1 != 0,
        raw_preview(doc.blocks@, limit).0.len() <= MAX_SOURCE_LEN,
        previewed(raw_preview(doc.blocks@, limit).0, pv),
        truncated(pv, a, ra),
        truncated(pv, b, rb),
    ensures
        previews_of(doc, limit, seq![a, b], seq![ra, rb]),
{
    reveal(previews_of);
    let rs = seq![ra, rb];
    let ms = seq![a, b];
    assert forall|k: int| 0 <= k < rs.len() implies truncated(pv, ms[k], #[trigger] rs[k]) by {
        if k == 0 {
            assert(rs[0] == ra && ms[0] == a);
        } else {
            assert(rs[1] == rb && ms[1] == b);
        }
    }
}

/// Blank previews of a document without preview text are its previews.
pub(crate) proof fn lemma_previews_blank(
    doc: Document,
    limit: int,
    a: u32,
    b: u32,
    ra: FfiRenderedPreview,
    rb: FfiRenderedPreview,
)
    requires
        raw_preview(doc.blocks@, limit).1 == 0 || raw_preview(doc.blocks@, limit).0.len()
            > MAX_SOURCE_LEN,
        blank_preview(ra),
        blank_preview(rb),
    ensures
        previews_of(doc, limit, seq![a, b], seq![ra, rb]),
{
    reveal(previews_of);
    let rs = seq![ra, rb];
    assert forall|k: int| 0 <= k < rs.len() implies blank_preview(#[trigger] rs[k]) by {
        if k == 0 {
            assert(rs[0] == ra);
        } else {
            assert(rs[1] == rb);
        }
    }
}

/// Render a short and a long preview from one parse.
pub fn render_previews_impl(text: &str, short_max: u32, long_max: u32, options: &ParseOptions) -> (r:
    Vec<FfiRenderedPreview>)
    requires
        text.spec_bytes().len() <= MAX_SOURCE_LEN,
    ensures
        r@.len() == 2,
        text@.len() == 0 ==> blank_preview(r@[0]) && blank_preview(r@[1]),
        text@.len() > 0 ==> exists|doc: Document|
            #[trigger] preview_parse(text.spec_bytes(), *options, doc) && previews_of(
                doc,
                (if short_max > long_max {
                    short_max
                } else {
                    long_max
                }) as int,
                seq![short_max, long_max],
                r@,
            ),
{
    if text.is_empty() {
        let a = empty_preview();
        let b = empty_preview();
        return vec![a, b];
    }
    let limit = if short_max > long_max {
        short_max
    } else {
        long_max
    };
    let (built, Ghost(doc)) = build_clean_preview(text, limit as usize, options);
    let (a, b) = match built {
        Some(p) => {
            let short = truncate_preview(&p, short_max);
            let long = truncate_preview(&p, long_max);
            proof {
                lemma_previews_pair(doc, limit as int, p, short_max, long_max, short, long);
            }
            (short, long)
        },
        None => {
            let a = empty_preview();
            let b = empty_preview();
            proof {
                lemma_previews_blank(doc, limit as int, short_max, long_max, a, b);
            }
            (a, b)
        },
    };
    let r = vec![a, b];
    proof {
        assert(r@ =~= seq![a, b]);
    }
    r
}

} // verus!
