//! Incremental parse: dirty-block detection and partial re-parse.
//!
//! After a text edit the blocks that overlap the edit (plus one on each
//! side) are re-parsed from the new source; the blocks before them are
//! kept, and the blocks after them are kept with their offsets shifted.
//! Code blocks, diagrams and tables in the dirty region, and code fences
//! near the edit, make the update fall back to a full parse, as do offsets
//! that would leave the `u32` range.
use vstd::prelude::*;
use vstd::string::StringSliceAdditionalSpecFns;
use crate::ast::{BlockKind, BlockNode, Document, InlineSpan, ListItem, ListMarkerMeta, ParseMode};
use crate::parser::{ParseOptions, document_of, parse_with_options};
use crate::lines::{source_lines, trim};
use crate::text::{find_byte, find_byte_pos};
use crate::utf16::{Utf16Map, utf16_total, utf16_offset, byte_offset_of_utf16, MAX_SOURCE_LEN};

verus! {

/// Snapshot of a previous parse, stored for incremental updates.
#[derive(Debug, Clone)]
pub struct ParseSnapshot {
    /// The block AST from the last parse.
    pub blocks: Vec<BlockNode>,
    /// Total line count.
    pub line_count: u32,
    /// Source text byte length.
    pub source_byte_len: usize,
    /// Source text UTF-16 length.
    pub source_utf16_len: u32,
}

/// Result of an incremental parse update.
#[derive(Debug)]
pub struct IncrementalResult {
    /// The full updated block list.
    pub blocks: Vec<BlockNode>,
    /// Updated line count.
    pub line_count: u32,
    /// Index of the first changed block (inclusive).
    pub dirty_start: u32,
    /// Index past the last changed block (exclusive).
    pub dirty_end: u32,
    /// Total UTF-16 length of the new source text.
    pub total_utf16_len: u32,
}

impl ParseSnapshot {
    /// Create a snapshot from a full parse result.
    pub fn new(
        blocks: Vec<BlockNode>,
        line_count: u32,
        source_byte_len: usize,
        source_utf16_len: u32,
    ) -> (s: Self)
        ensures
            s.blocks == blocks,
            s.line_count == line_count,
            s.source_byte_len == source_byte_len,
            s.source_utf16_len == source_utf16_len,
    {
        ParseSnapshot { blocks, line_count, source_byte_len, source_utf16_len }
    }
}

/// The result is a full `Editable` parse of `s`, all of it dirty.
pub open spec fn full_result(s: Seq<u8>, scheme: Option<Seq<u8>>, r: IncrementalResult) -> bool {
    &&& document_of(s, ParseMode::Editable, Document { blocks: r.blocks, line_count: r.line_count })
    &&& crate::parser::blocks_follow_rules(s, ParseMode::Editable, scheme, r.blocks@)
    &&& r.dirty_start == 0
    &&& r.dirty_end == r.blocks@.len()
    &&& r.total_utf16_len == utf16_total(s)
}

/// The bytes the dirty region `s[start..end]` is parsed from: the region,
/// or nothing when it is not valid UTF-8.
pub open spec fn dirty_bytes(s: Seq<u8>, start: int, end: int) -> Seq<u8> {
    if vstd::utf8::valid_utf8(s.subrange(start, end)) {
        s.subrange(start, end)
    } else {
        Seq::empty()
    }
}

/// `d` is the `Editable` parse of the dirty region `s[start..end]` of
/// whole lines.
pub open spec fn dirty_parse(s: Seq<u8>, start: int, end: int, scheme: Option<Seq<u8>>, d: Document) -> bool {
    &&& 0 <= start < end <= s.len()
    &&& document_of(dirty_bytes(s, start, end), ParseMode::Editable, d)
    &&& crate::parser::blocks_follow_rules(
        dirty_bytes(s, start, end),
        ParseMode::Editable,
        scheme,
        d.blocks@,
    )
}

/// A partial update of `prev` for the new source `s`, re-parsing the whole
/// lines `s[start..end]` as `d`: the blocks before `dirty_start` are the
/// old ones, the blocks of `d` follow moved to `start` (its line and UTF-16
/// offset), and the old blocks after the dirty ones follow, moved to end
/// where `d` ends.
pub open spec fn partial_update(
    prev: ParseSnapshot,
    s: Seq<u8>,
    r: IncrementalResult,
    start: int,
    end: int,
    scheme: Option<Seq<u8>>,
    d: Document,
) -> bool {
    let first = r.dirty_start as int;
    let dend = r.dirty_end as int;
    let nb = prev.blocks@.len() as int;
    let last = nb - (r.blocks@.len() - dend);
    let base_line = newlines_before(s, start);
    let old_end = prev.blocks@[last - 1];
    let dl = (if base_line + d.line_count > u32::MAX {
        u32::MAX as int
    } else {
        base_line + d.line_count
    }) - old_end.line_end;
    &&& dirty_parse(s, start, end, scheme, d)
    &&& 0 <= first < last <= nb
    &&& start == prev.blocks@[first].byte_start
    &&& dend == first + d.blocks@.len()
    &&& dend <= r.blocks@.len() <= MAX_SOURCE_LEN
    &&& forall|i: int| 0 <= i < first ==> block_moved(prev.blocks@[i], #[trigger] r.blocks@[i], 0, 0, 0)
    &&& forall|i: int|
        0 <= i < d.blocks@.len() ==> block_moved(
            d.blocks@[i],
            #[trigger] r.blocks@[first + i],
            start,
            utf16_offset(s, start),
            base_line,
        )
    &&& forall|i: int|
        0 <= i < nb - last ==> block_moved(
            prev.blocks@[last + i],
            #[trigger] r.blocks@[dend + i],
            end - old_end.byte_end,
            utf16_offset(s, end) - old_end.utf16_end,
            dl,
        )
    &&& r.line_count == prev.line_count + dl
    &&& r.total_utf16_len == utf16_total(s)
}

/// A partial update of `prev` for the new source `s`.
pub open spec fn partial_result(prev: ParseSnapshot, s: Seq<u8>, scheme: Option<Seq<u8>>, r: IncrementalResult) -> bool {
    exists|start: int, end: int, d: Document|
        #[trigger] partial_update(prev, s, r, start, end, scheme, d)
}

/// The range of blocks `find_overlap_range` gives for an edit of the UTF-16
/// range `[es, ee)`.
pub open spec fn overlap_range(bs: Seq<BlockNode>, es: u32, ee: u32) -> (int, int) {
    let n = bs.len() as int;
    let f0 = first_not_before(bs, es, 0);
    let l0 = first_after(bs, ee, 0);
    let f = if n == 0 {
        0
    } else if f0 < n - 1 {
        f0
    } else {
        n - 1
    };
    let l1 = if l0 > f + 1 {
        l0
    } else {
        f + 1
    };
    (f, if l1 < n {
        l1
    } else {
        n
    })
}

/// The window an edit of `old_len` UTF-16 units at `es` re-parses, for the
/// new source `s`: the old blocks `first..last` (those the edit overlaps
/// and one more on each side), and the bytes `start..end` of `s` they
/// become, extended to the end of a line.
pub open spec fn update_window(prev: ParseSnapshot, s: Seq<u8>, es: u32, old_len: u32) -> (
    int,
    int,
    int,
    int,
) {
    let ee = if es + old_len > u32::MAX {
        u32::MAX
    } else {
        (es + old_len) as u32
    };
    let nb = prev.blocks@.len() as int;
    let o = overlap_range(prev.blocks@, es, ee);
    let first = if o.0 > 0 {
        o.0 - 1
    } else {
        0
    };
    let last = if o.1 + 1 < nb {
        o.1 + 1
    } else {
        nb
    };
    let raw = prev.blocks@[last - 1].byte_end + (s.len() - prev.source_byte_len);
    let raw_end = if raw < 0 {
        0
    } else if raw > s.len() {
        s.len() as int
    } else {
        raw
    };
    (first, last, prev.blocks@[first].byte_start as int, line_end_after(s, raw_end))
}

/// The nearest block before block `k` that is not blank is a code block
/// (an indented code block there may reach over blank lines).
pub open spec fn code_before(bs: Seq<BlockNode>, k: int) -> bool
    decreases k,
{
    if k <= 0 || k > bs.len() {
        false
    } else if bs[k - 1].kind is Empty {
        code_before(bs, k - 1)
    } else {
        bs[k - 1].kind is CodeBlock
    }
}

/// The nearest block from block `k` on that is not blank is a code block.
pub open spec fn code_after(bs: Seq<BlockNode>, k: int) -> bool
    decreases bs.len() - k,
{
    if k < 0 || k >= bs.len() {
        false
    } else if bs[k].kind is Empty {
        code_after(bs, k + 1)
    } else {
        bs[k].kind is CodeBlock
    }
}

/// The edit cannot be handled in its window: there are no old blocks, a
/// window block is a code block, diagram or table, a code block borders the
/// window across blank lines, a code fence is near the edit, or the window
/// is empty.
pub open spec fn must_fall_back(prev: ParseSnapshot, s: Seq<u8>, es: u32, old_len: u32, new_len: u32) -> bool {
    let w = update_window(prev, s, es, old_len);
    ||| prev.blocks@.len() == 0
    ||| (exists|k: int| w.0 <= k < w.1 && fragile(#[trigger] prev.blocks@[k].kind))
    ||| code_before(prev.blocks@, w.0)
    ||| code_after(prev.blocks@, w.1)
    ||| fence_near(s, es, new_len)
    ||| w.2 >= w.3
    ||| w.2 > s.len()
}

/// The last block of the window's parse `d` is a paragraph or a quote and
/// an old block that is not blank follows the window: in the new text that
/// block's lines may continue it.
pub open spec fn may_run_on(prev: ParseSnapshot, w: (int, int, int, int), d: Document) -> bool {
    &&& w.1 < prev.blocks@.len()
    &&& !(prev.blocks@[w.1].kind is Empty)
    &&& d.blocks@.len() > 0
    &&& (d.blocks@.last().kind is Paragraph || d.blocks@.last().kind is Blockquote)
}

/// The blocks of the window's parse `d` and the old blocks after the
/// window can be moved to their new places with every offset, the line
/// count and the number of blocks in range.
pub open spec fn window_fits(prev: ParseSnapshot, s: Seq<u8>, w: (int, int, int, int), d: Document) -> bool {
    let nb = prev.blocks@.len() as int;
    let old_end = prev.blocks@[w.1 - 1];
    let base_line = newlines_before(s, w.2);
    let dl = (if base_line + d.line_count > u32::MAX {
        u32::MAX as int
    } else {
        base_line + d.line_count
    }) - old_end.line_end;
    &&& forall|i: int|
        0 <= i < d.blocks@.len() ==> block_shift_ok(
            #[trigger] d.blocks@[i],
            w.2,
            utf16_offset(s, w.2),
            base_line,
        )
    &&& forall|j: int|
        w.1 <= j < nb ==> block_shift_ok(
            #[trigger] prev.blocks@[j],
            w.3 - old_end.byte_end,
            utf16_offset(s, w.3) - old_end.utf16_end,
            dl,
        )
    &&& 0 <= prev.line_count + dl <= u32::MAX
    &&& w.0 + d.blocks@.len() + (nb - w.1) <= MAX_SOURCE_LEN
}

/// What an update of `prev` after an edit of `old_len` UTF-16 units at
/// `es`, replaced by `new_len` units, gives for the new source `s`: a full
/// parse when the edit cannot be handled in its window; otherwise the
/// window's lines are parsed, and the result is the partial update with that
/// parse when everything fits in range, else a full parse.
pub open spec fn update_outcome(
    prev: ParseSnapshot,
    s: Seq<u8>,
    es: u32,
    old_len: u32,
    new_len: u32,
    scheme: Option<Seq<u8>>,
    r: IncrementalResult,
) -> bool {
    if must_fall_back(prev, s, es, old_len, new_len) {
        full_result(s, scheme, r)
    } else {
        let w = update_window(prev, s, es, old_len);
        exists|d: Document|
            #[trigger] dirty_parse(s, w.2, w.3, scheme, d) && if window_fits(prev, s, w, d)
                && !may_run_on(prev, w, d) {
                partial_update(prev, s, r, w.2, w.3, scheme, d) && r.dirty_start == w.0 && r.blocks@.len()
                    - r.dirty_end == prev.blocks@.len() - w.1
            } else {
                full_result(s, scheme, r)
            }
    }
}

// ---------------------------------------------------------------------------
// Line boundary helpers
// ---------------------------------------------------------------------------

/// Number of `\n` bytes in `s[0..p]`.
pub open spec fn newlines_before(s: Seq<u8>, p: int) -> int
    decreases p,
{
    if p <= 0 {
        0
    } else {
        newlines_before(s, p - 1) + (if s[p - 1] == 10u8 { 1int } else { 0int })
    }
}

/// Count newlines before the given byte offset (clamped to the source).
pub fn count_newlines_before(source: &[u8], byte_offset: usize) -> (n: usize)
    ensures
        n == newlines_before(
            source@,
            if byte_offset < source@.len() {
                byte_offset as int
            } else {
                source@.len() as int
            },
        ),
        n <= byte_offset,
        n <= source@.len(),
{
    let end = if byte_offset < source.len() {
        byte_offset
    } else {
        source.len()
    };
    let mut n: usize = 0;
    let mut k: usize = 0;
    while k < end
        invariant
            k <= end <= source@.len(),
            n == newlines_before(source@, k as int),
            n <= k,
        decreases end - k,
    {
        if source[k] == 10u8 {
            n = n + 1;
        }
        k = k + 1;
    }
    n
}

/// Start of the line containing `p`: one past the last `\n` before `p`.
pub open spec fn line_start_before(s: Seq<u8>, p: int) -> int
    decreases p,
{
    if p <= 0 {
        0
    } else if s[p - 1] == 10u8 {
        p
    } else {
        line_start_before(s, p - 1)
    }
}

/// Find the start of the line containing `byte_offset` (clamped).
#[verifier::loop_isolation(false)]
pub fn find_line_start(source: &str, byte_offset: usize) -> (r: usize)
    ensures
        r == line_start_before(
            source.spec_bytes(),
            if byte_offset < source.spec_bytes().len() {
                byte_offset as int
            } else {
                source.spec_bytes().len() as int
            },
        ),
        r <= source.spec_bytes().len(),
{
    let b = source.as_bytes();
    let offset = if byte_offset < b.len() {
        byte_offset
    } else {
        b.len()
    };
    let mut i = offset;
    while i > 0
        invariant
            i <= offset <= b@.len(),
            b@ == source.spec_bytes(),
            line_start_before(b@, offset as int) == line_start_before(b@, i as int),
        decreases i,
    {
        if b[i - 1] == 10u8 {
            return i;
        }
        i = i - 1;
    }
    0
}

/// `p` extended to the end of its line (past its `\n`), unless it already
/// is at a line boundary.
pub open spec fn line_end_after(s: Seq<u8>, p: int) -> int {
    if p >= s.len() || p == 0 || s[p - 1] == 10u8 {
        p
    } else {
        let nl = find_byte_pos(s, p, s.len() as int, 10u8);
        if nl < s.len() {
            nl + 1
        } else {
            s.len() as int
        }
    }
}

/// Extend `byte_offset` (clamped) forward to the end of its line.
pub fn extend_to_line_end(source: &str, byte_offset: usize) -> (r: usize)
    ensures
        r == line_end_after(
            source.spec_bytes(),
            if byte_offset < source.spec_bytes().len() {
                byte_offset as int
            } else {
                source.spec_bytes().len() as int
            },
        ),
        r <= source.spec_bytes().len(),
{
    let b = source.as_bytes();
    let n = b.len();
    let offset = if byte_offset < n {
        byte_offset
    } else {
        n
    };
    if offset == n {
        return offset;
    }
    if offset == 0 || b[offset - 1] == 10u8 {
        return offset;
    }
    let nl = find_byte(b, offset, n, 10u8);
    if nl < n {
        nl + 1
    } else {
        n
    }
}

// ---------------------------------------------------------------------------
// Dirty range detection
// ---------------------------------------------------------------------------

/// Index of the first block that ends after `start` (blocks ending at or
/// before it are entirely before the edit).
pub open spec fn first_not_before(bs: Seq<BlockNode>, start: u32, k: int) -> int
    decreases bs.len() - k,
{
    if k < 0 || k >= bs.len() {
        bs.len() as int
    } else if bs[k].utf16_end <= start {
        first_not_before(bs, start, k + 1)
    } else {
        k
    }
}

/// Index of the first block that starts at or after `end`.
pub open spec fn first_after(bs: Seq<BlockNode>, end: u32, k: int) -> int
    decreases bs.len() - k,
{
    if k < 0 || k >= bs.len() {
        bs.len() as int
    } else if bs[k].utf16_start < end {
        first_after(bs, end, k + 1)
    } else {
        k
    }
}

proof fn lemma_first_bounds(bs: Seq<BlockNode>, x: u32, k: int)
    requires
        0 <= k <= bs.len(),
    ensures
        k <= first_not_before(bs, x, k) <= bs.len(),
        k <= first_after(bs, x, k) <= bs.len(),
    decreases bs.len() - k,
{
    if k < bs.len() {
        lemma_first_bounds(bs, x, k + 1);
    }
}

/// The blocks overlapping `[edit_start, edit_end)` in UTF-16 units, as a
/// range `(first, last)`: `first` is the first block not entirely before
/// the edit and `last` the first block entirely after it, with at least one
/// block in the range when there are blocks.
pub fn find_overlap_range(blocks: &[BlockNode], edit_utf16_start: u32, edit_utf16_end: u32) -> (r: (
    usize,
    usize,
))
    ensures
        r.0 == overlap_range(blocks@, edit_utf16_start, edit_utf16_end).0,
        r.1 == overlap_range(blocks@, edit_utf16_start, edit_utf16_end).1,
        blocks@.len() > 0 ==> r.0 < r.1 <= blocks@.len(),
{
    let n = blocks.len();
    proof {
        lemma_first_bounds(blocks@, edit_utf16_start, 0);
        lemma_first_bounds(blocks@, edit_utf16_end, 0);
    }
    let mut first: usize = 0;
    while first < n && blocks[first].utf16_end <= edit_utf16_start
        invariant
            first <= n == blocks@.len(),
            first_not_before(blocks@, edit_utf16_start, 0) == first_not_before(
                blocks@,
                edit_utf16_start,
                first as int,
            ),
        decreases n - first,
    {
        first = first + 1;
    }
    let mut last: usize = 0;
    while last < n && blocks[last].utf16_start < edit_utf16_end
        invariant
            last <= n == blocks@.len(),
            first_after(blocks@, edit_utf16_end, 0) == first_after(
                blocks@,
                edit_utf16_end,
                last as int,
            ),
        decreases n - last,
    {
        last = last + 1;
    }
    let cap = if n > 0 {
        n - 1
    } else {
        0
    };
    let first = if first < cap {
        first
    } else {
        cap
    };
    let last = if last > first + 1 {
        last
    } else {
        first + 1
    };
    let last = if last < n {
        last
    } else {
        n
    };
    (first, last)
}

/// A block whose reach is not bounded by its lines.
pub open spec fn fragile(k: BlockKind) -> bool {
    k is CodeBlock || k is MermaidDiagram || k is Table
}

/// Some line of `s[lo..hi]` (split at `\n`) starts with a code fence after
/// trimming.
pub open spec fn has_fence_line(s: Seq<u8>, lo: int, hi: int) -> bool
    decreases hi - lo,
{
    if lo >= hi {
        false
    } else {
        let nl = find_byte_pos(s, lo, hi, 10u8);
        let t = crate::lines::trimmed(s, lo, nl);
        crate::text::starts_with_at(s, t.0, t.1, seq![96u8, 96u8, 96u8]) || (lo <= nl < hi
            && has_fence_line(s, nl + 1, hi))
    }
}

/// Whether a line of `b[lo..hi]` starts with a code fence.
fn scan_for_fence(b: &[u8], lo: usize, hi: usize) -> (r: bool)
    requires
        lo <= hi <= b@.len(),
    ensures
        r == has_fence_line(b@, lo as int, hi as int),
{
    let mut p = lo;
    while p < hi
        invariant
            lo <= p <= hi <= b@.len(),
            has_fence_line(b@, lo as int, hi as int) == has_fence_line(b@, p as int, hi as int),
        decreases hi - p,
    {
        let nl = find_byte(b, p, hi, 10u8);
        let (a, z) = trim(b, p, nl);
        let lit: [u8; 3] = [96u8, 96u8, 96u8];
        proof {
            assert(lit@ =~= seq![96u8, 96u8, 96u8]);
        }
        if crate::text::has_prefix(b, a, z, lit.as_slice()) {
            return true;
        }
        if nl >= hi {
            return false;
        }
        p = nl + 1;
    }
    false
}

/// The new text has a line starting with a code fence near an edit that
/// wrote `new_len` UTF-16 units at `edit_start`: on the lines that hold the
/// units from three before the edit to three after it.
pub open spec fn fence_near(s: Seq<u8>, edit_start: u32, new_len: u32) -> bool {
    let u0 = if edit_start >= 3 {
        edit_start - 3
    } else {
        0
    };
    let e1 = if edit_start + new_len > u32::MAX {
        u32::MAX as int
    } else {
        edit_start + new_len
    };
    let u1 = if e1 + 3 > u32::MAX {
        u32::MAX as int
    } else {
        e1 + 3
    };
    let b0 = byte_offset_of_utf16(s, u0);
    let b1 = byte_offset_of_utf16(s, u1);
    let a = line_start_before(s, if b0 < s.len() { b0 } else { s.len() as int });
    let z = line_end_after(s, if b1 < s.len() { b1 } else { s.len() as int });
    a < z && has_fence_line(s, a, z)
}

fn is_blank_kind(k: &BlockKind) -> (r: bool)
    ensures
        r == (*k is Empty),
{
    match k {
        BlockKind::Empty => true,
        _ => false,
    }
}

fn is_para_or_quote(k: &BlockKind) -> (r: bool)
    ensures
        r == (*k is Paragraph || *k is Blockquote),
{
    match k {
        BlockKind::Paragraph { .. } => true,
        BlockKind::Blockquote { .. } => true,
        _ => false,
    }
}

fn is_code_kind(k: &BlockKind) -> (r: bool)
    ensures
        r == (*k is CodeBlock),
{
    match k {
        BlockKind::CodeBlock { .. } => true,
        _ => false,
    }
}

/// Whether the update must fall back to a full parse: a dirty block is a
/// code block, diagram or table, the nearest non-blank block before or
/// after the dirty blocks is a code block (an indented code line typed in
/// the window may join it), or a line around the edit (three UTF-16 units
/// either side) starts with a code fence in the new text.
pub fn needs_full_reparse(
    prev: &ParseSnapshot,
    first_dirty: usize,
    last_dirty: usize,
    new_source: &str,
    new_utf16_map: &Utf16Map,
    edit_utf16_start: u32,
    edit_new_utf16_len: u32,
) -> (r: bool)
    requires
        first_dirty <= last_dirty <= prev.blocks@.len(),
        new_utf16_map.wf_for(new_source.spec_bytes()),
    ensures
        r == ((exists|k: int| first_dirty <= k < last_dirty && fragile(#[trigger] prev.blocks@[k].kind))
            || code_before(prev.blocks@, first_dirty as int) || code_after(prev.blocks@, last_dirty as int)
            || fence_near(new_source.spec_bytes(), edit_utf16_start, edit_new_utf16_len)),
{
    let mut k = first_dirty;
    while k < last_dirty
        invariant
            first_dirty <= k <= last_dirty <= prev.blocks@.len(),
            forall|j: int| first_dirty <= j < k ==> !fragile(#[trigger] prev.blocks@[j].kind),
        decreases last_dirty - k,
    {
        let frag = match &prev.blocks[k].kind {
            BlockKind::CodeBlock { .. } => true,
            BlockKind::MermaidDiagram { .. } => true,
            BlockKind::Table { .. } => true,
            _ => false,
        };
        if frag {
            return true;
        }
        k = k + 1;
    }
    let mut p = first_dirty;
    while p > 0 && is_blank_kind(&prev.blocks[p - 1].kind)
        invariant
            p <= first_dirty <= last_dirty <= prev.blocks@.len(),
            code_before(prev.blocks@, p as int) == code_before(prev.blocks@, first_dirty as int),
        decreases p,
    {
        p = p - 1;
    }
    if p > 0 && is_code_kind(&prev.blocks[p - 1].kind) {
        return true;
    }
    let mut q = last_dirty;
    while q < prev.blocks.len() && is_blank_kind(&prev.blocks[q].kind)
        invariant
            first_dirty <= last_dirty <= q <= prev.blocks@.len(),
            code_after(prev.blocks@, q as int) == code_after(prev.blocks@, last_dirty as int),
        decreases prev.blocks@.len() - q,
    {
        q = q + 1;
    }
    if q < prev.blocks.len() && is_code_kind(&prev.blocks[q].kind) {
        return true;
    }
    let b = new_source.as_bytes();
    let scan_utf16_start = edit_utf16_start.saturating_sub(3);
    let scan_utf16_end = edit_utf16_start.saturating_add(edit_new_utf16_len).saturating_add(3);
    let sbs = new_utf16_map.utf16_to_byte(scan_utf16_start, b) as usize;
    let sbe0 = new_utf16_map.utf16_to_byte(scan_utf16_end, b) as usize;
    let sbe = if sbe0 < b.len() {
        sbe0
    } else {
        b.len()
    };
    let scan_start = find_line_start(new_source, sbs);
    let scan_end = extend_to_line_end(new_source, sbe);
    if scan_start >= scan_end {
        return false;
    }
    scan_for_fence(b, scan_start, scan_end)
}

// ---------------------------------------------------------------------------
// Offset adjustment
// ---------------------------------------------------------------------------

/// `base + delta` when it fits in a `u32`.
pub fn safe_add_delta(base: u32, delta: i64) -> (r: Option<u32>)
    ensures
        r == (if 0 <= base + delta <= u32::MAX {
            Some((base + delta) as u32)
        } else {
            None
        }),
{
    match (base as i64).checked_add(delta) {
        None => None,
        Some(result) => {
            if result < 0 || result > 0xFFFF_FFFFi64 {
                None
            } else {
                Some(result as u32)
            }
        },
    }
}

/// `b` is the span `a` with its UTF-16 offsets moved by `du`.
pub open spec fn span_moved(a: InlineSpan, b: InlineSpan, du: int) -> bool {
    &&& b.kind == a.kind
    &&& b.utf16_start == a.utf16_start + du
    &&& b.utf16_end == a.utf16_end + du
    &&& b.content_utf16_start == a.content_utf16_start + du
    &&& b.content_utf16_end == a.content_utf16_end + du
}

/// Span-wise `span_moved`.
pub open spec fn spans_moved(a: Seq<InlineSpan>, b: Seq<InlineSpan>, du: int) -> bool {
    &&& b.len() == a.len()
    &&& forall|k: int| 0 <= k < a.len() ==> span_moved(a[k], #[trigger] b[k], du)
}

/// Item-wise: same texts, spans moved by `du`.
pub open spec fn items_moved(a: Seq<ListItem>, b: Seq<ListItem>, du: int) -> bool {
    &&& b.len() == a.len()
    &&& forall|k: int|
        0 <= k < a.len() ==> (#[trigger] b[k]).text == a[k].text && spans_moved(
            a[k].inline_spans@,
            b[k].inline_spans@,
            du,
        )
}

/// `b` is the kind `a` with the spans of its list items moved by `du`.
pub open spec fn kind_moved(a: BlockKind, b: BlockKind, du: int) -> bool {
    match a {
        BlockKind::BulletList { items } => b matches BlockKind::BulletList { items: bi }
            && items_moved(items@, bi@, du),
        BlockKind::OrderedList { start, items } => b matches BlockKind::OrderedList {
            start: bs,
            items: bi,
        } && bs == start && items_moved(items@, bi@, du),
        BlockKind::Table { headers, rows, alignments } => b matches BlockKind::Table {
            headers: bh,
            rows: br,
            alignments: ba,
        } && bh@ == headers@ && br@.len() == rows@.len() && (forall|i: int|
            0 <= i < rows@.len() ==> (#[trigger] br@[i])@ == rows@[i]@) && ba@ == alignments@,
        _ => b == a,
    }
}

/// `b` is the list marker `a` moved by `db` bytes and `du` UTF-16 units: its
/// byte and UTF-16 offsets move, its indent and texts stay.
pub open spec fn marker_moved(a: Option<ListMarkerMeta>, b: Option<ListMarkerMeta>, db: int, du: int) -> bool {
    match a {
        None => b is None,
        Some(x) => b matches Some(y) && {
            &&& y.indent == x.indent
            &&& y.marker_utf16_start == x.marker_utf16_start + du
            &&& y.marker_utf16_end == x.marker_utf16_end + du
            &&& y.marker_byte_start == x.marker_byte_start + db
            &&& y.marker_byte_end == x.marker_byte_end + db
            &&& y.content_byte_start == x.content_byte_start + db
            &&& y.marker_source == x.marker_source
            &&& y.unordered_marker == x.unordered_marker
            &&& y.ordered_delimiter == x.ordered_delimiter
            &&& y.ordered_raw_number == x.ordered_raw_number
        },
    }
}

/// The offsets of a list marker moved by the deltas stay in the `u32` range.
pub open spec fn marker_shift_ok(m: Option<ListMarkerMeta>, db: int, du: int) -> bool {
    match m {
        None => true,
        Some(x) => {
            &&& 0 <= x.marker_utf16_start + du <= u32::MAX
            &&& 0 <= x.marker_utf16_end + du <= u32::MAX
            &&& 0 <= x.marker_byte_start + db <= u32::MAX
            &&& 0 <= x.marker_byte_end + db <= u32::MAX
            &&& 0 <= x.content_byte_start + db <= u32::MAX
        },
    }
}

/// `b` is the block `a` moved by `db` bytes, `du` UTF-16 units and `dl`
/// lines: offsets, list marker and spans move, the kind's texts stay.
pub open spec fn block_moved(a: BlockNode, b: BlockNode, db: int, du: int, dl: int) -> bool {
    &&& kind_moved(a.kind, b.kind, du)
    &&& marker_moved(a.list_marker, b.list_marker, db, du)
    &&& spans_moved(a.inline_spans@, b.inline_spans@, du)
    &&& b.byte_start == a.byte_start + db
    &&& b.byte_end == a.byte_end + db
    &&& b.utf16_start == a.utf16_start + du
    &&& b.utf16_end == a.utf16_end + du
    &&& b.line_start == a.line_start + dl
    &&& b.line_end == a.line_end + dl
}

/// The offsets of a block moved by the deltas all stay in the `u32` range.
pub open spec fn moves_in_range(a: BlockNode, db: int, du: int, dl: int) -> bool {
    &&& 0 <= a.byte_start + db <= u32::MAX
    &&& 0 <= a.byte_end + db <= u32::MAX
    &&& 0 <= a.utf16_start + du <= u32::MAX
    &&& 0 <= a.utf16_end + du <= u32::MAX
    &&& 0 <= a.line_start + dl <= u32::MAX
    &&& 0 <= a.line_end + dl <= u32::MAX
}

/// Moving the span by `d` UTF-16 units keeps its offsets in the `u32`
/// range.
pub open spec fn span_shift_ok(sp: InlineSpan, d: int) -> bool {
    &&& 0 <= sp.utf16_start + d <= u32::MAX
    &&& 0 <= sp.utf16_end + d <= u32::MAX
    &&& 0 <= sp.content_utf16_start + d <= u32::MAX
    &&& 0 <= sp.content_utf16_end + d <= u32::MAX
}

/// Every span can be moved by `d`.
pub open spec fn spans_shift_ok(sps: Seq<InlineSpan>, d: int) -> bool {
    forall|k: int| 0 <= k < sps.len() ==> span_shift_ok(#[trigger] sps[k], d)
}

/// Every span of every item can be moved by `d`.
pub open spec fn items_shift_ok(items: Seq<ListItem>, d: int) -> bool {
    forall|j: int| 0 <= j < items.len() ==> spans_shift_ok((#[trigger] items[j]).inline_spans@, d)
}

/// The spans the kind carries can be moved by `d`.
pub open spec fn kind_shift_ok(k: BlockKind, d: int) -> bool {
    match k {
        BlockKind::BulletList { items } => items_shift_ok(items@, d),
        BlockKind::OrderedList { items, .. } => items_shift_ok(items@, d),
        _ => true,
    }
}

/// Every offset of the block, its spans and its items' spans stays in the
/// `u32` range when moved by the deltas.
pub open spec fn block_shift_ok(b: BlockNode, db: int, du: int, dl: int) -> bool {
    &&& moves_in_range(b, db, du, dl)
    &&& marker_shift_ok(b.list_marker, db, du)
    &&& spans_shift_ok(b.inline_spans@, du)
    &&& kind_shift_ok(b.kind, du)
}

/// The span moved by `delta` UTF-16 units, if every offset stays in range.
fn shift_span(sp: &InlineSpan, delta: i64) -> (r: Option<InlineSpan>)
    ensures
        r matches Some(t) ==> span_moved(*sp, t, delta as int),
        r is Some <==> span_shift_ok(*sp, delta as int),
{
    let ss = safe_add_delta(sp.utf16_start, delta)?;
    let se = safe_add_delta(sp.utf16_end, delta)?;
    let cs = safe_add_delta(sp.content_utf16_start, delta)?;
    let ce = safe_add_delta(sp.content_utf16_end, delta)?;
    Some(
        InlineSpan {
            kind: crate::inline::copy_inline_kind(&sp.kind),
            utf16_start: ss,
            utf16_end: se,
            content_utf16_start: cs,
            content_utf16_end: ce,
        },
    )
}

/// All spans moved, or `None` when one would leave the range.
fn shift_spans(spans: &Vec<InlineSpan>, delta: i64) -> (r: Option<Vec<InlineSpan>>)
    ensures
        r matches Some(v) ==> spans_moved(spans@, v@, delta as int),
        r is Some <==> spans_shift_ok(spans@, delta as int),
{
    let mut out: Vec<InlineSpan> = Vec::new();
    let mut k: usize = 0;
    while k < spans.len()
        invariant
            k <= spans@.len(),
            out@.len() == k,
            forall|j: int| 0 <= j < k ==> span_shift_ok(#[trigger] spans@[j], delta as int),
            forall|j: int| 0 <= j < k ==> span_moved(spans@[j], #[trigger] out@[j], delta as int),
        decreases spans@.len() - k,
    {
        let t = shift_span(&spans[k], delta)?;
        out.push(t);
        k = k + 1;
    }
    Some(out)
}

/// List items with their spans moved.
fn shift_items(items: &Vec<ListItem>, delta: i64) -> (r: Option<Vec<ListItem>>)
    ensures
        r matches Some(v) ==> items_moved(items@, v@, delta as int),
        r is Some <==> items_shift_ok(items@, delta as int),
{
    let mut out: Vec<ListItem> = Vec::new();
    let mut k: usize = 0;
    while k < items.len()
        invariant
            k <= items@.len(),
            out@.len() == k,
            forall|j: int| 0 <= j < k ==> spans_shift_ok((#[trigger] items@[j]).inline_spans@, delta as int),
            forall|j: int|
                0 <= j < k ==> (#[trigger] out@[j]).text == items@[j].text && spans_moved(
                    items@[j].inline_spans@,
                    out@[j].inline_spans@,
                    delta as int,
                ),
        decreases items@.len() - k,
    {
        let spans = shift_spans(&items[k].inline_spans, delta)?;
        out.push(ListItem { text: items[k].text.clone(), inline_spans: spans });
        k = k + 1;
    }
    Some(out)
}

/// The list marker moved by the deltas, if every offset stays in range.
fn shift_marker(m: &Option<ListMarkerMeta>, byte_delta: i64, utf16_delta: i64) -> (r: Option<
    Option<ListMarkerMeta>,
>)
    ensures
        r matches Some(t) ==> marker_moved(*m, t, byte_delta as int, utf16_delta as int),
        r is Some <==> marker_shift_ok(*m, byte_delta as int, utf16_delta as int),
{
    match m {
        Some(x) => {
            let mus = safe_add_delta(x.marker_utf16_start, utf16_delta)?;
            let mue = safe_add_delta(x.marker_utf16_end, utf16_delta)?;
            let mbs = safe_add_delta(x.marker_byte_start, byte_delta)?;
            let mbe = safe_add_delta(x.marker_byte_end, byte_delta)?;
            let cbs = safe_add_delta(x.content_byte_start, byte_delta)?;
            Some(
                Some(
                    ListMarkerMeta {
                        indent: x.indent,
                        marker_utf16_start: mus,
                        marker_utf16_end: mue,
                        marker_byte_start: mbs,
                        marker_byte_end: mbe,
                        content_byte_start: cbs,
                        marker_source: x.marker_source.clone(),
                        unordered_marker: x.unordered_marker.clone(),
                        ordered_delimiter: x.ordered_delimiter.clone(),
                        ordered_raw_number: x.ordered_raw_number.clone(),
                    },
                ),
            )
        },
        None => Some(None),
    }
}

/// The kind with the spans of its list items moved.
fn shift_kind(kind: &BlockKind, delta: i64) -> (r: Option<BlockKind>)
    ensures
        r matches Some(k) ==> kind_moved(*kind, k, delta as int),
        r is Some <==> kind_shift_ok(*kind, delta as int),
{
    match kind {
        BlockKind::Heading { level, text } => Some(BlockKind::Heading { level: *level, text: text.clone() }),
        BlockKind::Paragraph { text } => Some(BlockKind::Paragraph { text: text.clone() }),
        BlockKind::CodeBlock { language, code } => Some(
            BlockKind::CodeBlock { language: language.clone(), code: code.clone() },
        ),
        BlockKind::MermaidDiagram { diagram_type, source } => Some(
            BlockKind::MermaidDiagram { diagram_type: *diagram_type, source: source.clone() },
        ),
        BlockKind::Blockquote { text } => Some(BlockKind::Blockquote { text: text.clone() }),
        BlockKind::BulletList { items } => {
            let v = shift_items(items, delta)?;
            Some(BlockKind::BulletList { items: v })
        },
        BlockKind::OrderedList { start, items } => {
            let v = shift_items(items, delta)?;
            Some(BlockKind::OrderedList { start: *start, items: v })
        },
        BlockKind::Checkbox { checked, text } => Some(
            BlockKind::Checkbox { checked: *checked, text: text.clone() },
        ),
        BlockKind::Table { headers, rows, alignments } => Some(
            BlockKind::Table {
                headers: headers.clone(),
                rows: rows.clone(),
                alignments: alignments.clone(),
            },
        ),
        BlockKind::HorizontalRule => Some(BlockKind::HorizontalRule),
        BlockKind::Empty => Some(BlockKind::Empty),
        BlockKind::FootnoteDefinition { label, text } => Some(
            BlockKind::FootnoteDefinition { label: label.clone(), text: text.clone() },
        ),
        BlockKind::ImageMarker { uuid } => Some(BlockKind::ImageMarker { uuid: uuid.clone() }),
        BlockKind::Callout { kind, title, text } => Some(
            BlockKind::Callout { kind: *kind, title: title.clone(), text: text.clone() },
        ),
        BlockKind::BulletItem { text } => Some(BlockKind::BulletItem { text: text.clone() }),
        BlockKind::NumberedItem { number, text } => Some(
            BlockKind::NumberedItem { number: *number, text: text.clone() },
        ),
    }
}

/// The block moved by the deltas, or `None` when an offset would leave the
/// `u32` range.
fn moved_block(block: &BlockNode, byte_delta: i64, utf16_delta: i64, line_delta: i64) -> (r: Option<
    BlockNode,
>)
    ensures
        r matches Some(t) ==> block_moved(
            *block,
            t,
            byte_delta as int,
            utf16_delta as int,
            line_delta as int,
        ),
        r is Some <==> block_shift_ok(*block, byte_delta as int, utf16_delta as int, line_delta as int),
{
    let bs = match safe_add_delta(block.byte_start, byte_delta) {
        Some(v) => v,
        None => {
            return None;
        },
    };
    let be = match safe_add_delta(block.byte_end, byte_delta) {
        Some(v) => v,
        None => {
            return None;
        },
    };
    let us = match safe_add_delta(block.utf16_start, utf16_delta) {
        Some(v) => v,
        None => {
            return None;
        },
    };
    let ue = match safe_add_delta(block.utf16_end, utf16_delta) {
        Some(v) => v,
        None => {
            return None;
        },
    };
    let ls = match safe_add_delta(block.line_start, line_delta) {
        Some(v) => v,
        None => {
            return None;
        },
    };
    let le = match safe_add_delta(block.line_end, line_delta) {
        Some(v) => v,
        None => {
            return None;
        },
    };
    let spans = match shift_spans(&block.inline_spans, utf16_delta) {
        Some(v) => v,
        None => {
            return None;
        },
    };
    let kind = match shift_kind(&block.kind, utf16_delta) {
        Some(k) => k,
        None => {
            return None;
        },
    };
    let list_marker = match shift_marker(&block.list_marker, byte_delta, utf16_delta) {
        Some(m) => m,
        None => {
            return None;
        },
    };
    Some(
        BlockNode {
            kind,
            line_start: ls,
            line_end: le,
            utf16_start: us,
            utf16_end: ue,
            byte_start: bs,
            byte_end: be,
            list_marker,
            inline_spans: spans,
        },
    )
}

/// A copy of a block.
fn copy_block(block: &BlockNode) -> (r: BlockNode)
    ensures
        block_moved(*block, r, 0, 0, 0),
{
    match moved_block(block, 0, 0, 0) {
        Some(t) => t,
        None => {
            proof {
                assert(false);
            }
            BlockNode {
                kind: BlockKind::Empty,
                line_start: 0,
                line_end: 0,
                utf16_start: 0,
                utf16_end: 0,
                byte_start: 0,
                byte_end: 0,
                list_marker: None,
                inline_spans: Vec::new(),
            }
        },
    }
}

/// Shift a suffix block by the deltas; `false` (the block left as it was)
/// when an offset would leave the `u32` range (the caller then parses
/// everything).
pub fn shift_suffix_block(block: &mut BlockNode, byte_delta: i64, utf16_delta: i64, line_delta: i64) -> (ok:
    bool)
    ensures
        ok == block_shift_ok(*old(block), byte_delta as int, utf16_delta as int, line_delta as int),
        ok ==> block_moved(
            *old(block),
            *final(block),
            byte_delta as int,
            utf16_delta as int,
            line_delta as int,
        ),
        !ok ==> *final(block) == *old(block),
{
    match moved_block(block, byte_delta, utf16_delta, line_delta) {
        Some(t) => {
            *block = t;
            true
        },
        None => false,
    }
}

// ---------------------------------------------------------------------------
// The update
// ---------------------------------------------------------------------------

/// Fall back to a full re-parse, marking all blocks as dirty.
pub fn full_parse_result(source: &str, options: &ParseOptions) -> (r: IncrementalResult)
    requires
        source.spec_bytes().len() <= MAX_SOURCE_LEN,
    ensures
        full_result(source.spec_bytes(), options.scheme_bytes(), r),
        r.blocks@.len() <= MAX_SOURCE_LEN,
{
    let doc = parse_with_options(source, ParseMode::Editable, options);
    let map = Utf16Map::build(source.as_bytes());
    let n = doc.blocks.len();
    proof {
        lemma_blocks_fit(source.spec_bytes(), doc.blocks@);
    }
    IncrementalResult {
        blocks: doc.blocks,
        line_count: doc.line_count,
        dirty_start: 0,
        dirty_end: n as u32,
        total_utf16_len: map.total_utf16_len,
    }
}

/// A document has no more blocks than the source has lines, and no more
/// lines than bytes.
proof fn lemma_blocks_fit(s: Seq<u8>, bs: Seq<BlockNode>)
    requires
        s.len() <= MAX_SOURCE_LEN,
        crate::parser::layout(s, ParseMode::Editable, bs, source_lines(s).len() as int),
    ensures
        bs.len() <= MAX_SOURCE_LEN,
{
    crate::lines::lemma_lines_shape(s, 0);
    lemma_blocks_count(s, bs, bs.len() as int);
}

proof fn lemma_blocks_count(s: Seq<u8>, bs: Seq<BlockNode>, k: int)
    requires
        0 <= k <= bs.len(),
        crate::parser::layout(s, ParseMode::Editable, bs, source_lines(s).len() as int),
    ensures
        k > 0 ==> bs[k - 1].line_end >= k,
        k <= source_lines(s).len(),
    decreases k,
{
    if k > 0 {
        lemma_blocks_count(s, bs, k - 1);
        assert(crate::parser::placed(s, bs[k - 1]));
        if k > 1 {
            assert(crate::parser::gap_ok(s, ParseMode::Editable, bs[k - 2], bs[k - 1].line_start as int));
        }
    }
}

/// Re-parse after an edit of `edit_old_utf16_len` units at
/// `edit_utf16_start`, replaced by `edit_new_utf16_len` units, giving the
/// new `blocks` and the range of those that changed. `options` must be
/// those of the parse that produced `prev`.
#[verifier::spinoff_prover]
#[verifier::rlimit(100)]
pub fn incremental_update(
    prev: &ParseSnapshot,
    new_source: &str,
    edit_utf16_start: u32,
    edit_old_utf16_len: u32,
    edit_new_utf16_len: u32,
    options: &ParseOptions,
) -> (r: IncrementalResult)
    requires
        new_source.spec_bytes().len() <= MAX_SOURCE_LEN,
        prev.blocks@.len() <= MAX_SOURCE_LEN,
        prev.source_byte_len <= MAX_SOURCE_LEN,
    ensures
        r.blocks@.len() <= MAX_SOURCE_LEN,
        update_outcome(
            *prev,
            new_source.spec_bytes(),
            edit_utf16_start,
            edit_old_utf16_len,
            edit_new_utf16_len,
            options.scheme_bytes(),
            r,
        ),
        full_result(new_source.spec_bytes(), options.scheme_bytes(), r) || partial_result(
            *prev,
            new_source.spec_bytes(),
            options.scheme_bytes(),
            r,
        ),
{
    let ghost s = new_source.spec_bytes();
    let ghost scheme = options.scheme_bytes();
    let ghost w = update_window(*prev, s, edit_utf16_start, edit_old_utf16_len);
    let ghost fb = must_fall_back(*prev, s, edit_utf16_start, edit_old_utf16_len, edit_new_utf16_len);
    if prev.blocks.len() == 0 {
        return full_parse_result(new_source, options);
    }
    let b = new_source.as_bytes();
    let n = b.len();
    let edit_end_old = edit_utf16_start.saturating_add(edit_old_utf16_len);
    let byte_delta: i64 = n as i64 - prev.source_byte_len as i64;
    let (first_overlap, last_overlap) = find_overlap_range(
        prev.blocks.as_slice(),
        edit_utf16_start,
        edit_end_old,
    );
    let nb = prev.blocks.len();
    let first_dirty = if first_overlap > 0 {
        first_overlap - 1
    } else {
        0
    };
    let last_dirty = if last_overlap + 1 < nb {
        last_overlap + 1
    } else {
        nb
    };
    proof {
        assert(first_dirty == w.0 && last_dirty == w.1);
    }
    let map = Utf16Map::build(b);
    if needs_full_reparse(
        prev,
        first_dirty,
        last_dirty,
        new_source,
        &map,
        edit_utf16_start,
        edit_new_utf16_len,
    ) {
        return full_parse_result(new_source, options);
    }
    let start = prev.blocks[first_dirty].byte_start as usize;
    let old_dirty_end = prev.blocks[last_dirty - 1].byte_end as usize;
    let raw_end: i64 = old_dirty_end as i64 + byte_delta;
    let raw_end: usize = if raw_end < 0 {
        0
    } else if raw_end > n as i64 {
        n
    } else {
        raw_end as usize
    };
    let end = extend_to_line_end(new_source, raw_end);
    proof {
        assert(start == w.2 && end == w.3);
    }
    if start >= end || start > n {
        return full_parse_result(new_source, options);
    }
    proof {
        assert(!fb);
    }
    // Parse the dirty region as a document of its own.
    let dirty_text = crate::text::str_from_range(b, start, end);
    proof {
        if !vstd::utf8::valid_utf8(b@.subrange(start as int, end as int)) {
            assert(dirty_text@ =~= Seq::<char>::empty());
            assert(dirty_text.spec_bytes() =~= Seq::<u8>::empty());
        }
    }
    let dirty_doc = parse_with_options(dirty_text, ParseMode::Editable, options);
    proof {
        lemma_blocks_fit(dirty_text.spec_bytes(), dirty_doc.blocks@);
        assert(dirty_parse(s, start as int, end as int, scheme, dirty_doc));
    }
    // A paragraph or quote at the end of the window may run on into the
    // old block after it: parse everything.
    if last_dirty < nb && !is_blank_kind(&prev.blocks[last_dirty].kind) && dirty_doc.blocks.len() > 0
        && is_para_or_quote(&dirty_doc.blocks[dirty_doc.blocks.len() - 1].kind) {
        let r = full_parse_result(new_source, options);
        proof {
            assert(may_run_on(*prev, w, dirty_doc));
        }
        return r;
    }
    proof {
        assert(!may_run_on(*prev, w, dirty_doc));
    }
    let base_utf16 = map.byte_to_utf16(start as u32, b);
    let base_line = count_newlines_before(b, start);
    let mut result: Vec<BlockNode> = Vec::new();
    let mut k: usize = 0;
    while k < first_dirty
        invariant
            k <= first_dirty < last_dirty <= nb == prev.blocks@.len(),
            result@.len() == k,
            forall|i: int| 0 <= i < k ==> block_moved(prev.blocks@[i], #[trigger] result@[i], 0, 0, 0),
        decreases first_dirty - k,
    {
        result.push(copy_block(&prev.blocks[k]));
        k = k + 1;
    }
    let dirty_count = dirty_doc.blocks.len();
    let mut d: usize = 0;
    while d < dirty_count
        invariant
            new_source.spec_bytes().len() <= MAX_SOURCE_LEN,
            s == new_source.spec_bytes(),
            scheme == options.scheme_bytes(),
            !fb,
            fb == must_fall_back(*prev, s, edit_utf16_start, edit_old_utf16_len, edit_new_utf16_len),
            w == update_window(*prev, s, edit_utf16_start, edit_old_utf16_len),
            dirty_parse(s, start as int, end as int, scheme, dirty_doc),
            w.0 == first_dirty && w.1 == last_dirty && w.2 == start && w.3 == end,
            d <= dirty_count == dirty_doc.blocks@.len(),
            start <= MAX_SOURCE_LEN,
            base_line <= MAX_SOURCE_LEN,
            base_utf16 <= u32::MAX,
            base_utf16 == utf16_offset(s, start as int),
            base_line == newlines_before(s, start as int),
            result@.len() == first_dirty + d,
            first_dirty < last_dirty <= nb == prev.blocks@.len(),
            forall|i: int|
                0 <= i < first_dirty ==> block_moved(prev.blocks@[i], #[trigger] result@[i], 0, 0, 0),
            forall|i: int|
                0 <= i < d ==> block_moved(
                    dirty_doc.blocks@[i],
                    #[trigger] result@[first_dirty + i],
                    start as int,
                    base_utf16 as int,
                    base_line as int,
                ),
            forall|i: int|
                0 <= i < d ==> block_shift_ok(
                    #[trigger] dirty_doc.blocks@[i],
                    start as int,
                    base_utf16 as int,
                    base_line as int,
                ),
        decreases dirty_count - d,
    {
        match moved_block(&dirty_doc.blocks[d], start as i64, base_utf16 as i64, base_line as i64) {
            Some(t) => result.push(t),
            None => {
                proof {
                    assert(!window_fits(*prev, s, w, dirty_doc));
                }
                return full_parse_result(new_source, options);
            },
        }
        d = d + 1;
    }
    let dirty_end_idx = result.len();
    let suffix_byte_delta: i64 = end as i64 - old_dirty_end as i64;
    let old_dirty_utf16_end = prev.blocks[last_dirty - 1].utf16_end;
    let new_dirty_utf16_end = map.byte_to_utf16(end as u32, b);
    let suffix_utf16_delta: i64 = new_dirty_utf16_end as i64 - old_dirty_utf16_end as i64;
    let old_dirty_line_end = prev.blocks[last_dirty - 1].line_end;
    let new_dirty_line_end = (base_line as u32).saturating_add(dirty_doc.line_count);
    let suffix_line_delta: i64 = new_dirty_line_end as i64 - old_dirty_line_end as i64;
    let mut j = last_dirty;
    while j < nb
        invariant
            new_source.spec_bytes().len() <= MAX_SOURCE_LEN,
            s == new_source.spec_bytes(),
            scheme == options.scheme_bytes(),
            !fb,
            fb == must_fall_back(*prev, s, edit_utf16_start, edit_old_utf16_len, edit_new_utf16_len),
            w == update_window(*prev, s, edit_utf16_start, edit_old_utf16_len),
            dirty_parse(s, start as int, end as int, scheme, dirty_doc),
            w.0 == first_dirty && w.1 == last_dirty && w.2 == start && w.3 == end,
            dirty_count == dirty_doc.blocks@.len(),
            last_dirty <= j <= nb == prev.blocks@.len(),
            first_dirty < last_dirty,
            start <= MAX_SOURCE_LEN,
            base_line <= MAX_SOURCE_LEN,
            base_utf16 == utf16_offset(s, start as int),
            base_line == newlines_before(s, start as int),
            suffix_byte_delta == end - prev.blocks@[last_dirty - 1].byte_end,
            suffix_utf16_delta == utf16_offset(s, end as int) - prev.blocks@[last_dirty - 1].utf16_end,
            suffix_line_delta == (if base_line + dirty_doc.line_count > u32::MAX {
                u32::MAX as int
            } else {
                base_line + dirty_doc.line_count
            }) - prev.blocks@[last_dirty - 1].line_end,
            result@.len() == dirty_end_idx + (j - last_dirty),
            dirty_end_idx == first_dirty + dirty_count,
            forall|i: int|
                0 <= i < first_dirty ==> block_moved(prev.blocks@[i], #[trigger] result@[i], 0, 0, 0),
            forall|i: int|
                0 <= i < dirty_count ==> block_moved(
                    dirty_doc.blocks@[i],
                    #[trigger] result@[first_dirty + i],
                    start as int,
                    base_utf16 as int,
                    base_line as int,
                ),
            forall|i: int|
                0 <= i < dirty_count ==> block_shift_ok(
                    #[trigger] dirty_doc.blocks@[i],
                    start as int,
                    base_utf16 as int,
                    base_line as int,
                ),
            forall|i: int|
                0 <= i < j - last_dirty ==> block_moved(
                    prev.blocks@[last_dirty + i],
                    #[trigger] result@[dirty_end_idx + i],
                    suffix_byte_delta as int,
                    suffix_utf16_delta as int,
                    suffix_line_delta as int,
                ),
            forall|i: int|
                last_dirty <= i < j ==> block_shift_ok(
                    #[trigger] prev.blocks@[i],
                    suffix_byte_delta as int,
                    suffix_utf16_delta as int,
                    suffix_line_delta as int,
                ),
        decreases nb - j,
    {
        match moved_block(&prev.blocks[j], suffix_byte_delta, suffix_utf16_delta, suffix_line_delta) {
            Some(t) => result.push(t),
            None => {
                proof {
                    assert(!window_fits(*prev, s, w, dirty_doc));
                }
                return full_parse_result(new_source, options);
            },
        }
        j = j + 1;
    }
    let line_count = match safe_add_delta(prev.line_count, suffix_line_delta) {
        Some(lc) => lc,
        None => {
            proof {
                assert(!window_fits(*prev, s, w, dirty_doc));
            }
            return full_parse_result(new_source, options);
        },
    };
    // More blocks than a source may have lines cannot come from a
    // consistent snapshot.
    if result.len() > MAX_SOURCE_LEN {
        proof {
            assert(!window_fits(*prev, s, w, dirty_doc));
        }
        return full_parse_result(new_source, options);
    }
    let r = IncrementalResult {
        blocks: result,
        line_count,
        dirty_start: first_dirty as u32,
        dirty_end: dirty_end_idx as u32,
        total_utf16_len: map.total_utf16_len,
    };
    proof {
        assert(window_fits(*prev, s, w, dirty_doc));
        assert(partial_update(
            *prev,
            s,
            r,
            start as int,
            end as int,
            scheme,
            dirty_doc,
        ));
    }
    r
}

/// An update that re-parsed the whole source gives the blocks of every
/// `Editable` parse of the new source with the same image-marker scheme:
/// the same line count and, block for block, the same line, byte and
/// UTF-16 ranges.
pub proof fn lemma_full_result_is_parse(
    s: Seq<u8>,
    scheme: Option<Seq<u8>>,
    r: IncrementalResult,
    doc: Document,
)
    requires
        full_result(s, scheme, r),
        document_of(s, ParseMode::Editable, doc),
        crate::parser::blocks_follow_rules(s, ParseMode::Editable, scheme, doc.blocks@),
    ensures
        r.line_count == doc.line_count,
        r.blocks@.len() == doc.blocks@.len(),
        forall|k: int|
            0 <= k < r.blocks@.len() ==> {
                &&& (#[trigger] r.blocks@[k]).line_start == doc.blocks@[k].line_start
                &&& r.blocks@[k].line_end == doc.blocks@[k].line_end
                &&& r.blocks@[k].byte_start == doc.blocks@[k].byte_start
                &&& r.blocks@[k].byte_end == doc.blocks@[k].byte_end
                &&& r.blocks@[k].utf16_start == doc.blocks@[k].utf16_start
                &&& r.blocks@[k].utf16_end == doc.blocks@[k].utf16_end
            },
{
    let d = Document { blocks: r.blocks, line_count: r.line_count };
    crate::parser::lemma_parse_unique(s, ParseMode::Editable, scheme, d, doc);
}


/// What a full `Editable` parse says of each of its blocks.
spec fn editable_block_ok(s: Seq<u8>, scheme: Option<Seq<u8>>, x: BlockNode) -> bool {
    &&& crate::parser::placed(s, x)
    &&& (x.kind is Empty ==> {
        &&& x.line_end == x.line_start + 1
        &&& crate::parser::line_blank(s, source_lines(s)[x.line_start as int])
    })
    &&& crate::inline::sorted_by_start(x.inline_spans@)
    &&& crate::inline::all_in(s, x.inline_spans@, crate::inline::text_lo(x), x.byte_end as int)
    &&& (crate::inline::no_inline(x.kind) ==> x.inline_spans@.len() == 0)
    &&& crate::inline::code_complete(s, x, x.inline_spans@)
    &&& crate::block_rules::follows_rule(
        s,
        ParseMode::Editable,
        scheme,
        x.line_start as int,
        x.line_end as int,
        x.kind,
        x.list_marker is Some,
    )
    &&& crate::block_rules::marker_fits(s, x.line_start as int, x.list_marker)
    &&& if crate::inline::inline_kept(s, x) {
        x.inline_spans@.len() == 0
    } else {
        crate::inline::inline_spans_are(s, crate::inline::text_lo(x), crate::inline::text_hi(s, x), x.inline_spans@)
    }
}

/// A block moved by nothing keeps its place and kind shape.
proof fn lemma_zero_move_shape(a: BlockNode, b: BlockNode)
    requires
        block_moved(a, b, 0, 0, 0),
    ensures
        b.line_start == a.line_start,
        b.line_end == a.line_end,
        b.byte_start == a.byte_start,
        b.byte_end == a.byte_end,
        b.utf16_start == a.utf16_start,
        b.utf16_end == a.utf16_end,
        b.list_marker == a.list_marker,
        b.inline_spans@ == a.inline_spans@,
        b.kind is Empty <==> a.kind is Empty,
{
    assert(b.inline_spans@ =~= a.inline_spans@) by {
        assert forall|k: int| 0 <= k < a.inline_spans@.len() implies b.inline_spans@[k] == a.inline_spans@[k] by {
            assert(span_moved(a.inline_spans@[k], b.inline_spans@[k], 0));
        }
    }
    match a.list_marker {
        Some(x) => {
            assert(b.list_marker == a.list_marker);
        },
        None => {},
    }
}

/// A table moved by nothing still fits its lines.
proof fn lemma_table_moved(s: Seq<u8>, scheme: Option<Seq<u8>>, i: int, end: int, a: BlockKind, b: BlockKind)
    requires
        crate::block_rules::kind_fits(s, scheme, i, crate::block_rules::BlockShape::Table, end, a),
        kind_moved(a, b, 0),
    ensures
        crate::block_rules::kind_fits(s, scheme, i, crate::block_rules::BlockShape::Table, end, b),
{
    reveal(crate::block_rules::kind_fits);
    match a {
        BlockKind::Table { headers, rows, alignments } => {
            match b {
                BlockKind::Table { headers: bh, rows: br, alignments: ba } => {
                    assert forall|q: int| 0 <= q < br@.len() implies crate::block_rules::cells_fit(
                        s,
                        crate::block_rules::line_trim(s, i + 2 + q).0,
                        crate::block_rules::line_trim(s, i + 2 + q).1,
                        (#[trigger] br@[q])@,
                    ) by {
                        assert(br@[q]@ == rows@[q]@);
                        assert(crate::block_rules::cells_fit(
                            s,
                            crate::block_rules::line_trim(s, i + 2 + q).0,
                            crate::block_rules::line_trim(s, i + 2 + q).1,
                            rows@[q]@,
                        ));
                    }
                },
                _ => {},
            }
        },
        _ => {},
    }
}

/// A block moved by nothing keeps what the rules say of it.
#[verifier::rlimit(50)]
proof fn lemma_zero_move(s: Seq<u8>, scheme: Option<Seq<u8>>, a: BlockNode, b: BlockNode)
    requires
        block_moved(a, b, 0, 0, 0),
        editable_block_ok(s, scheme, a),
    ensures
        editable_block_ok(s, scheme, b),
{
    lemma_zero_move_shape(a, b);
    let i = a.line_start as int;
    let t = crate::block_rules::block_rule(s, ParseMode::Editable, scheme, i);
    assert(crate::block_rules::kind_fits(s, scheme, i, t.0, t.1, a.kind));
    reveal(crate::block_rules::kind_fits);
    match a.kind {
        BlockKind::Table { .. } => {
            if t.0 == crate::block_rules::BlockShape::Table {
                lemma_table_moved(s, scheme, i, t.1, a.kind, b.kind);
            }
        },
        BlockKind::BulletList { items } => {
            match b.kind {
                BlockKind::BulletList { items: bi } => {
                    assert forall|j: int| 0 <= j < bi@.len() implies (#[trigger] bi@[j]).text == items@[j].text by {
                    }
                },
                _ => {},
            }
        },
        BlockKind::OrderedList { items, .. } => {
            match b.kind {
                BlockKind::OrderedList { items: bi, .. } => {
                    assert forall|j: int| 0 <= j < bi@.len() implies (#[trigger] bi@[j]).text == items@[j].text by {
                    }
                },
                _ => {},
            }
        },
        _ => {
            assert(b.kind == a.kind);
        },
    }
}

/// An update whose re-parsed window is the whole new text, keeping no old
/// block before or after it, gives the full `Editable` parse of that text,
/// when the snapshot is the `Editable` parse of the old text.
#[verifier::rlimit(100)]
#[verifier::spinoff_prover]
pub proof fn lemma_whole_window_is_full_parse(
    old: Seq<u8>,
    prev: ParseSnapshot,
    s: Seq<u8>,
    scheme: Option<Seq<u8>>,
    r: IncrementalResult,
    end: int,
    d: Document,
)
    requires
        document_of(old, ParseMode::Editable, Document { blocks: prev.blocks, line_count: prev.line_count }),
        vstd::utf8::valid_utf8(s),
        partial_update(prev, s, r, 0, end, scheme, d),
        end == s.len(),
        r.dirty_start == 0,
        r.dirty_end == r.blocks@.len(),
    ensures
        document_of(s, ParseMode::Editable, Document { blocks: r.blocks, line_count: r.line_count }),
        crate::parser::blocks_follow_rules(s, ParseMode::Editable, scheme, r.blocks@),
{
    lemma_last_line_end(old, prev);
    lemma_whole_window_update(prev, s, scheme, r, end, d);
}

/// When the window of an edit takes in every old block and reaches the end
/// of the new text, the update, partial or not, is the full `Editable`
/// parse of the new text, the snapshot being the `Editable` parse of the old.
pub proof fn lemma_whole_window_update_is_parse(
    old: Seq<u8>,
    prev: ParseSnapshot,
    s: Seq<u8>,
    es: u32,
    old_len: u32,
    new_len: u32,
    scheme: Option<Seq<u8>>,
    r: IncrementalResult,
)
    requires
        document_of(old, ParseMode::Editable, Document { blocks: prev.blocks, line_count: prev.line_count }),
        vstd::utf8::valid_utf8(s),
        update_outcome(prev, s, es, old_len, new_len, scheme, r),
        update_window(prev, s, es, old_len).0 == 0,
        update_window(prev, s, es, old_len).1 == prev.blocks@.len(),
        update_window(prev, s, es, old_len).3 == s.len(),
    ensures
        document_of(s, ParseMode::Editable, Document { blocks: r.blocks, line_count: r.line_count }),
        crate::parser::blocks_follow_rules(s, ParseMode::Editable, scheme, r.blocks@),
{
    if !must_fall_back(prev, s, es, old_len, new_len) {
        let w = update_window(prev, s, es, old_len);
        let d = choose|d: Document|
            #[trigger] dirty_parse(s, w.2, w.3, scheme, d) && if window_fits(prev, s, w, d) && !may_run_on(
                prev,
                w,
                d,
            ) {
                partial_update(prev, s, r, w.2, w.3, scheme, d) && r.dirty_start == w.0 && r.blocks@.len()
                    - r.dirty_end == prev.blocks@.len() - w.1
            } else {
                full_result(s, scheme, r)
            };
        if window_fits(prev, s, w, d) && !may_run_on(prev, w, d) {
            crate::parser::lemma_editable_layout(
                old,
                Document { blocks: prev.blocks, line_count: prev.line_count },
            );
            assert(w.2 == 0);
            lemma_whole_window_is_full_parse(old, prev, s, scheme, r, w.3, d);
        }
    }
}

/// `lemma_whole_window_is_full_parse` for a snapshot whose last block ends
/// at its last line.
#[verifier::rlimit(100)]
#[verifier::spinoff_prover]
proof fn lemma_whole_window_update(
    prev: ParseSnapshot,
    s: Seq<u8>,
    scheme: Option<Seq<u8>>,
    r: IncrementalResult,
    end: int,
    d: Document,
)
    requires
        prev.blocks@.len() > 0 ==> prev.blocks@.last().line_end == prev.line_count,
        vstd::utf8::valid_utf8(s),
        partial_update(prev, s, r, 0, end, scheme, d),
        end == s.len(),
        r.dirty_start == 0,
        r.dirty_end == r.blocks@.len(),
    ensures
        document_of(s, ParseMode::Editable, Document { blocks: r.blocks, line_count: r.line_count }),
        crate::parser::blocks_follow_rules(s, ParseMode::Editable, scheme, r.blocks@),
{
    lemma_whole_window_moves(prev, s, scheme, r, end, d);
    lemma_whole_dirty_parse(s, scheme, d);
    lemma_whole_window_blocks(s, scheme, d, r.blocks);
}

/// The dirty parse of the whole of valid `s` is a parse of `s`.
proof fn lemma_whole_dirty_parse(s: Seq<u8>, scheme: Option<Seq<u8>>, d: Document)
    requires
        vstd::utf8::valid_utf8(s),
        dirty_parse(s, 0, s.len() as int, scheme, d),
    ensures
        document_of(s, ParseMode::Editable, d),
        crate::parser::blocks_follow_rules(s, ParseMode::Editable, scheme, d.blocks@),
{
    assert(s.subrange(0, s.len() as int) =~= s);
    assert(dirty_bytes(s, 0, s.len() as int) == s);
}

/// The blocks of a whole-window update are those of its parse, moved by
/// nothing, and so is its line count.
#[verifier::rlimit(100)]
#[verifier::spinoff_prover]
proof fn lemma_whole_window_moves(
    prev: ParseSnapshot,
    s: Seq<u8>,
    scheme: Option<Seq<u8>>,
    r: IncrementalResult,
    end: int,
    d: Document,
)
    requires
        prev.blocks@.len() > 0 ==> prev.blocks@.last().line_end == prev.line_count,
        partial_update(prev, s, r, 0, end, scheme, d),
        r.dirty_start == 0,
        r.dirty_end == r.blocks@.len(),
    ensures
        dirty_parse(s, 0, end, scheme, d),
        r.blocks@.len() == d.blocks@.len(),
        r.line_count == d.line_count,
        forall|k: int| 0 <= k < r.blocks@.len() ==> block_moved(d.blocks@[k], #[trigger] r.blocks@[k], 0, 0, 0),
{
    assert(newlines_before(s, 0) == 0);
    assert(utf16_offset(s, 0) == 0) by {
        reveal_with_fuel(crate::utf16::units_between, 1);
    }
    let nb = prev.blocks@.len() as int;
    let last = nb - (r.blocks@.len() - r.dirty_end as int);
    assert(last == nb);
    assert(prev.blocks@[last - 1] == prev.blocks@.last());
    assert(r.blocks@.len() == d.blocks@.len());
    assert forall|k: int| 0 <= k < r.blocks@.len() implies block_moved(d.blocks@[k], #[trigger] r.blocks@[k], 0, 0, 0) by {
        assert(r.blocks@[r.dirty_start as int + k] == r.blocks@[k]);
        assert(block_moved(
            d.blocks@[k],
            r.blocks@[r.dirty_start as int + k],
            0,
            utf16_offset(s, 0),
            newlines_before(s, 0),
        ));
    }
}

/// The last block of an `Editable` parse ends at its last line.
proof fn lemma_last_line_end(old: Seq<u8>, prev: ParseSnapshot)
    requires
        document_of(old, ParseMode::Editable, Document { blocks: prev.blocks, line_count: prev.line_count }),
    ensures
        prev.blocks@.len() > 0 ==> prev.blocks@.last().line_end == prev.line_count,
{
    crate::parser::lemma_editable_tiles(old, Document { blocks: prev.blocks, line_count: prev.line_count });
}

/// The per-block half of `lemma_whole_window_is_full_parse`.
#[verifier::rlimit(100)]
#[verifier::spinoff_prover]
proof fn lemma_whole_window_blocks(s: Seq<u8>, scheme: Option<Seq<u8>>, d: Document, rb: Vec<BlockNode>)
    requires
        document_of(s, ParseMode::Editable, d),
        crate::parser::blocks_follow_rules(s, ParseMode::Editable, scheme, d.blocks@),
        rb@.len() == d.blocks@.len(),
        forall|k: int| 0 <= k < rb@.len() ==> block_moved(d.blocks@[k], #[trigger] rb@[k], 0, 0, 0),
    ensures
        document_of(s, ParseMode::Editable, Document { blocks: rb, line_count: d.line_count }),
        crate::parser::blocks_follow_rules(s, ParseMode::Editable, scheme, rb@),
{
    let a = d.blocks@;
    let b = rb@;
    reveal(crate::parser::blocks_spans_exact);
    assert forall|k: int| 0 <= k < b.len() implies editable_block_ok(s, scheme, #[trigger] b[k]) by {
        assert(editable_block_ok(s, scheme, a[k]));
        lemma_zero_move(s, scheme, a[k], b[k]);
    }
    assert forall|k: int| 0 <= k < b.len() - 1 implies crate::parser::gap_ok(
        s,
        ParseMode::Editable,
        #[trigger] b[k],
        b[k + 1].line_start as int,
    ) by {
        lemma_zero_move_shape(a[k], b[k]);
        lemma_zero_move_shape(a[k + 1], b[k + 1]);
        assert(crate::parser::gap_ok(s, ParseMode::Editable, a[k], a[k + 1].line_start as int));
    }
    if b.len() > 0 {
        lemma_zero_move_shape(a[0], b[0]);
        lemma_zero_move_shape(a[b.len() - 1], b[b.len() - 1]);
        assert(crate::parser::gap_ok(s, ParseMode::Editable, a[a.len() - 1], source_lines(s).len() as int));
    }
    assert(crate::parser::layout(s, ParseMode::Editable, b, source_lines(s).len() as int));
    assert forall|k: int| 0 <= k < b.len() implies crate::inline::sorted_by_start((#[trigger] b[k]).inline_spans@)
        && crate::inline::all_in(s, b[k].inline_spans@, crate::inline::text_lo(b[k]), b[k].byte_end as int)
        && (crate::inline::no_inline(b[k].kind) ==> b[k].inline_spans@.len() == 0)
        && crate::inline::code_complete(s, b[k], b[k].inline_spans@) by {
        assert(editable_block_ok(s, scheme, b[k]));
    }
    assert(crate::parser::blocks_spans_exact(s, b)) by {
        assert forall|k: int| 0 <= k < b.len() implies if crate::inline::inline_kept(s, #[trigger] b[k]) {
            b[k].inline_spans@.len() == 0
        } else {
            crate::inline::inline_spans_are(
                s,
                crate::inline::text_lo(b[k]),
                crate::inline::text_hi(s, b[k]),
                b[k].inline_spans@,
            )
        } by {
            assert(editable_block_ok(s, scheme, b[k]));
        }
    }
    assert forall|k: int| 0 <= k < b.len() implies crate::block_rules::follows_rule(
        s,
        ParseMode::Editable,
        scheme,
        (#[trigger] b[k]).line_start as int,
        b[k].line_end as int,
        b[k].kind,
        b[k].list_marker is Some,
    ) && crate::block_rules::marker_fits(s, b[k].line_start as int, b[k].list_marker) by {
        assert(editable_block_ok(s, scheme, b[k]));
    }
}

} // verus!
