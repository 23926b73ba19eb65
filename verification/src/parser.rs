//! Block-level parser producing a `Document` from source text.
//!
//! The source is split into lines; each line is classified in a fixed
//! priority order (blank, image marker, indented code, fenced code, table,
//! thematic break, ATX heading, blockquote / callout, list items, footnote
//! definition, paragraph / setext heading). Two modes exist: `Grouped`
//! collapses blank runs and groups list items into lists, `Editable` gives
//! every list item and every blank line a block of its own.
//!
//! The contract of `parse` states the layout of the blocks over the source
//! lines: each block covers a non-empty run of lines, carries the byte and
//! UTF-16 range of those lines, blocks come in line order, and the lines
//! between blocks are blank (in `Grouped` mode only, after an `Empty` block).
use vstd::prelude::*;
use vstd::string::StringSliceAdditionalSpecFns;
use crate::ast::{
    BlockKind, BlockNode, CalloutKind, ColumnAlignment, Document, InlineSpan, ListItem,
    ListMarkerMeta, MermaidDiagramType, ParseMode, is_mermaid_info_string, mermaid_type_of,
    mermaid_keyword,
};
use vstd::utf8::encode_utf8;
use crate::lines::{
    Line, line_view, source_lines, lemma_lines_shape, lines_shape, split_lines, trim, trimmed,
    blank, is_blank, is_indented_code_line, setext_underline, strip_indented_code_indent, parse_heading,
    is_heading_line, parse_setext_underline, is_horizontal_rule, parse_list_marker,
    ParsedListKind, ParsedListMarker, parse_image_marker_line, parse_footnote_def, is_table_row,
    is_table_separator, list_marker,
};
use crate::text::{
    string_from_range, string_from_bytes, has_prefix, push_range, push_all, find_byte, trim_start,
    trim_end, ws_len_at, lossy_text, utf8_text, starts_with_at,
};
use crate::utf16::{Utf16Map, utf16_offset, MAX_SOURCE_LEN};
use crate::block_rules::{
    BlockShape, block_rule, kind_fits, follows_rule, has_marker, line_trim, line_is_blank,
    fence_at, quote_line, quote_body, callout_header, code_run_end, fence_close, table_rows_end,
    quote_run_end, list_item_line, list_run_end, table_start, para_break_at, para_run_end, first_ws,
    fence_language, names_mermaid, opt_text, LinePart, joined_lines, fence_body_end,
    callout_name_range, callout_title, line_part, cells_fit, alignments_fit, item_texts, items_fit,
    marker_fits, meta_fits, byte_text,
};

verus! {

/// Maximum columns in a table before it's treated as a paragraph.
pub const MAX_TABLE_COLUMNS: usize = 20;

/// Maximum data rows in a table.
pub const MAX_TABLE_ROWS: usize = 500;

/// Options of the block parser.
#[derive(Debug, Clone, PartialEq, Eq)]
pub struct ParseOptions {
    /// Scheme of the block-level image marker `![](<scheme><UUID>)`, such as
    /// `"ember:"`; `None` leaves such lines to the paragraph rules.
    pub image_marker_scheme: Option<String>,
}

impl ParseOptions {
    /// The image-marker scheme as UTF-8 bytes.
    pub open spec fn scheme_bytes(self) -> Option<Seq<u8>> {
        match self.image_marker_scheme {
            Some(x) => Some(vstd::utf8::encode_utf8(x@)),
            None => None,
        }
    }
}

/// The scheme of `parse`: `ember:`.
pub open spec fn ember_scheme() -> Seq<u8> {
    seq![101u8, 109u8, 98u8, 101u8, 114u8, 58u8]
}

impl Default for ParseOptions {
    fn default() -> (o: Self)
        ensures
            o.image_marker_scheme is None,
    {
        ParseOptions { image_marker_scheme: None }
    }
}

// ---------------------------------------------------------------------------
// Layout of blocks over the source lines
// ---------------------------------------------------------------------------

/// The lines of `s` as a `Vec<Line>` matches the spec split.
pub open spec fn lines_match(s: Seq<u8>, lines: Seq<Line>) -> bool {
    lines.map_values(|l: Line| line_view(l)) == source_lines(s)
}

/// The line `l` is blank (only whitespace).
pub open spec fn line_blank(s: Seq<u8>, l: (int, int, int)) -> bool {
    blank(s, l.0, l.1)
}

/// Block `b` covers lines `[line_start, line_end)` of `s` and carries their
/// byte range and its UTF-16 image.
pub open spec fn placed(s: Seq<u8>, b: BlockNode) -> bool {
    let ls = source_lines(s);
    &&& b.line_start < b.line_end <= ls.len()
    &&& b.byte_start == ls[b.line_start as int].0
    &&& b.byte_end == ls[b.line_end - 1].2
    &&& b.utf16_start == utf16_offset(s, b.byte_start as int)
    &&& b.utf16_end == utf16_offset(s, b.byte_end as int)
}

/// Block `k` ends where the next block (or the line index `next`) starts,
/// or, in `Grouped` mode, it is an `Empty` block followed by blank lines.
pub open spec fn gap_ok(s: Seq<u8>, mode: ParseMode, b: BlockNode, next: int) -> bool {
    ||| b.line_end == next
    ||| (mode == ParseMode::Grouped && b.kind is Empty && b.line_end < next && forall|j: int|
        b.line_end <= j < next ==> line_blank(s, #[trigger] source_lines(s)[j]))
}

/// The blocks cover lines `[0, upto)` of `s` in order, each placed, with
/// only the gaps that `gap_ok` admits.
pub open spec fn layout(s: Seq<u8>, mode: ParseMode, bs: Seq<BlockNode>, upto: int) -> bool {
    &&& forall|k: int| 0 <= k < bs.len() ==> placed(s, #[trigger] bs[k])
    &&& bs.len() == 0 ==> upto == 0
    &&& bs.len() > 0 ==> bs[0].line_start == 0
    &&& forall|k: int|
        0 <= k < bs.len() - 1 ==> gap_ok(s, mode, #[trigger] bs[k], bs[k + 1].line_start as int)
    &&& bs.len() > 0 ==> gap_ok(s, mode, bs[bs.len() - 1], upto)
    &&& forall|k: int| 0 <= k < bs.len() ==> (#[trigger] bs[k]).kind is Empty ==> {
        &&& bs[k].line_end == bs[k].line_start + 1
        &&& line_blank(s, source_lines(s)[bs[k].line_start as int])
    }
    &&& mode == ParseMode::Grouped ==> forall|k: int|
        0 <= k < bs.len() - 1 ==> !((#[trigger] bs[k]).kind is Empty && bs[k + 1].kind is Empty)
}

/// Facts about the lines of `s` that the parser relies on.
pub proof fn lemma_lines_facts(s: Seq<u8>, lines: Seq<Line>)
    requires
        lines_match(s, lines),
    ensures
        lines.len() == source_lines(s).len(),
        lines.len() <= s.len(),
        forall|k: int| 0 <= k < lines.len() ==> line_view(#[trigger] lines[k]) == source_lines(s)[k],
        forall|k: int|
            0 <= k < lines.len() ==> {
                &&& (#[trigger] lines[k]).byte_start <= lines[k].text_end <= lines[k].byte_end
                    <= s.len()
                &&& lines[k].byte_start < lines[k].byte_end
            },
        forall|k: int|
            0 <= k < lines.len() - 1 ==> (#[trigger] lines[k]).byte_end == lines[k + 1].byte_start,
{
    lemma_lines_shape(s, 0);
    let ls = source_lines(s);
    assert(lines.len() == ls.len()) by {
        assert(lines.map_values(|l: Line| line_view(l)).len() == lines.len());
    }
    assert forall|k: int| 0 <= k < lines.len() implies line_view(#[trigger] lines[k]) == ls[k] by {
        assert(lines.map_values(|l: Line| line_view(l))[k] == line_view(lines[k]));
    }
    assert forall|k: int| 0 <= k < lines.len() - 1 implies (#[trigger] lines[k]).byte_end
        == lines[k + 1].byte_start by {
        assert(line_view(lines[k]) == ls[k]);
        assert(line_view(lines[k + 1]) == ls[k + 1]);
    }
    assert forall|k: int| 0 <= k < lines.len() implies {
        &&& (#[trigger] lines[k]).byte_start <= lines[k].text_end <= lines[k].byte_end <= s.len()
        &&& lines[k].byte_start < lines[k].byte_end
    } by {
        assert(line_view(lines[k]) == ls[k]);
    }
}

/// Build a block over lines `[ls, le)`.
fn make_block(
    kind: BlockKind,
    marker: Option<ListMarkerMeta>,
    lines: &Vec<Line>,
    ls: usize,
    le: usize,
    b: &[u8],
    map: &Utf16Map,
) -> (blk: BlockNode)
    requires
        lines_match(b@, lines@),
        map.wf_for(b@),
        ls < le <= lines@.len(),
    ensures
        placed(b@, blk),
        blk.line_start == ls,
        blk.line_end == le,
        blk.kind == kind,
        blk.list_marker == marker,
        blk.inline_spans@.len() == 0,
{
    proof {
        lemma_lines_facts(b@, lines@);
        assert(line_view(lines@[ls as int]) == source_lines(b@)[ls as int]);
        assert(line_view(lines@[le - 1]) == source_lines(b@)[le - 1]);
    }
    let byte_start = lines[ls].byte_start as u32;
    let byte_end = lines[le - 1].byte_end as u32;
    let utf16_start = map.byte_to_utf16(byte_start, b);
    let utf16_end = map.byte_to_utf16(byte_end, b);
    BlockNode {
        kind,
        line_start: ls as u32,
        line_end: le as u32,
        utf16_start,
        utf16_end,
        byte_start,
        byte_end,
        list_marker: marker,
        inline_spans: Vec::new(),
    }
}

/// A one-byte string for an ASCII byte.
fn ascii_string(c: u8) -> (s: String)
    ensures
        s@ == utf8_text(seq![c]),
{
    let v: Vec<u8> = vec![c];
    proof {
        assert(v@ =~= seq![c]);
    }
    string_from_bytes(v.as_slice())
}

/// Source metadata of a list marker found on a line.
fn marker_to_meta(m: &ParsedListMarker, line_start: usize, b: &[u8], map: &Utf16Map) -> (meta:
    ListMarkerMeta)
    requires
        map.wf_for(b@),
        line_start <= m.marker_start <= m.marker_end <= b@.len(),
        m.number_start <= m.number_end <= b@.len(),
        m.content_start <= b@.len(),
        m.indent <= 32,
    ensures
        meta_fits(b@, *m, meta),
        meta.indent == m.indent,
        meta.marker_byte_start == m.marker_start,
        meta.marker_byte_end == m.marker_end,
        meta.content_byte_start == m.content_start,
        meta.marker_utf16_start == utf16_offset(b@, m.marker_start as int),
        meta.marker_utf16_end == utf16_offset(b@, m.marker_end as int),
        meta.marker_source@ == utf8_text(b@.subrange(m.marker_start as int, m.marker_end as int)),
        meta.ordered_raw_number@ == utf8_text(
            b@.subrange(m.number_start as int, m.number_end as int),
        ),
{
    let msb = m.marker_start as u32;
    let meb = m.marker_end as u32;
    let unordered_marker = match m.unordered_marker {
        Some(c) => ascii_string(c),
        None => String::new(),
    };
    let ordered_delimiter = match m.ordered_delimiter {
        Some(c) => ascii_string(c),
        None => String::new(),
    };
    ListMarkerMeta {
        indent: m.indent as u32,
        marker_utf16_start: map.byte_to_utf16(msb, b),
        marker_utf16_end: map.byte_to_utf16(meb, b),
        marker_byte_start: msb,
        marker_byte_end: meb,
        content_byte_start: m.content_start as u32,
        marker_source: string_from_range(b, m.marker_start, m.marker_end),
        unordered_marker,
        ordered_delimiter,
        ordered_raw_number: string_from_range(b, m.number_start, m.number_end),
    }
}


// ---------------------------------------------------------------------------
// Table helpers
// ---------------------------------------------------------------------------

/// The `|`-separated cells of `s[lo..hi]` as trimmed ranges.
pub open spec fn trimmed_segments(s: Seq<u8>, lo: int, hi: int) -> Seq<(int, int)> {
    crate::lines::pipe_segments(s, lo, hi).map_values(|c: (int, int)| trimmed(s, c.0, c.1))
}

/// Drop an empty first cell, then an empty last cell.
pub open spec fn drop_empty_ends(c: Seq<(int, int)>) -> Seq<(int, int)> {
    let a = if c.len() > 0 && c[0].0 == c[0].1 {
        c.drop_first()
    } else {
        c
    };
    if a.len() > 0 && a[a.len() - 1].0 == a[a.len() - 1].1 {
        a.drop_last()
    } else {
        a
    }
}

/// The cells of a table row: trimmed `|`-separated segments without an
/// empty first or last one.
pub open spec fn row_cells(s: Seq<u8>, lo: int, hi: int) -> Seq<(int, int)> {
    drop_empty_ends(trimmed_segments(s, lo, hi))
}

/// The trimmed `|`-separated segments of `b[lo..hi]`.
fn row_segments(b: &[u8], lo: usize, hi: usize) -> (segs: Vec<(usize, usize)>)
    requires
        lo <= hi <= b@.len(),
    ensures
        segs@.len() == trimmed_segments(b@, lo as int, hi as int).len(),
        forall|k: int|
            0 <= k < segs@.len() ==> {
                &&& (#[trigger] segs@[k]).0 == trimmed_segments(b@, lo as int, hi as int)[k].0
                &&& segs@[k].1 == trimmed_segments(b@, lo as int, hi as int)[k].1
                &&& lo <= segs@[k].0 <= segs@[k].1 <= hi
            },
{
    let ghost s = b@;
    let ghost whole = crate::lines::pipe_segments(s, lo as int, hi as int);
    let mut segs: Vec<(usize, usize)> = Vec::new();
    let mut start = lo;
    let ghost mut done: Seq<(int, int)> = Seq::empty();
    loop
        invariant
            lo <= start <= hi <= b@.len(),
            s == b@,
            whole == crate::lines::pipe_segments(s, lo as int, hi as int),
            done + crate::lines::pipe_segments(s, start as int, hi as int) == whole,
            segs@.len() == done.len(),
            forall|k: int|
                0 <= k < segs@.len() ==> {
                    &&& (#[trigger] segs@[k]).0 == trimmed(s, done[k].0, done[k].1).0
                    &&& segs@[k].1 == trimmed(s, done[k].0, done[k].1).1
                    &&& lo <= segs@[k].0 <= segs@[k].1 <= hi
                    &&& lo <= done[k].0 <= done[k].1 <= hi
                },
        decreases hi - start,
    {
        let p = find_byte(b, start, hi, 124u8);
        proof {
            crate::text::lemma_find_byte_pos(s, start as int, hi as int, 124u8);
        }
        if p >= hi {
            let (a, z) = trim(b, start, hi);
            segs.push((a, z));
            proof {
                let rest = crate::lines::pipe_segments(s, start as int, hi as int);
                assert(rest == seq![(start as int, hi as int)]);
                done = done.push((start as int, hi as int));
                assert(done =~= whole);
                assert forall|k: int| 0 <= k < segs@.len() implies {
                    &&& (#[trigger] segs@[k]).0 == trimmed_segments(b@, lo as int, hi as int)[k].0
                    &&& segs@[k].1 == trimmed_segments(b@, lo as int, hi as int)[k].1
                    &&& lo <= segs@[k].0 <= segs@[k].1 <= hi
                } by {
                    assert(trimmed_segments(b@, lo as int, hi as int)[k] == trimmed(
                        s,
                        whole[k].0,
                        whole[k].1,
                    ));
                }
            }
            return segs;
        }
        let (a, z) = trim(b, start, p);
        segs.push((a, z));
        proof {
            let rest = crate::lines::pipe_segments(s, start as int, hi as int);
            assert(rest == seq![(start as int, p as int)] + crate::lines::pipe_segments(
                s,
                p + 1,
                hi as int,
            ));
            assert(done + rest == done.push((start as int, p as int))
                + crate::lines::pipe_segments(s, p + 1, hi as int));
            done = done.push((start as int, p as int));
        }
        start = p + 1;
    }
}

/// Indices into the trimmed segments kept by `drop_empty_ends`.
fn kept_range(segs: &Vec<(usize, usize)>) -> (r: (usize, usize))
    ensures
        r.0 <= r.1 <= segs@.len(),
        ({
            let c = segs@.map_values(|x: (usize, usize)| (x.0 as int, x.1 as int));
            drop_empty_ends(c) == c.subrange(r.0 as int, r.1 as int)
        }),
{
    let ghost c = segs@.map_values(|x: (usize, usize)| (x.0 as int, x.1 as int));
    let n = segs.len();
    let first: usize = if n > 0 && segs[0].0 == segs[0].1 {
        1
    } else {
        0
    };
    let last: usize = if n > first && segs[n - 1].0 == segs[n - 1].1 {
        n - 1
    } else {
        n
    };
    proof {
        let a = if c.len() > 0 && c[0].0 == c[0].1 {
            c.drop_first()
        } else {
            c
        };
        assert(a =~= c.subrange(first as int, n as int));
        if a.len() > 0 && a[a.len() - 1].0 == a[a.len() - 1].1 {
            assert(a.drop_last() =~= c.subrange(first as int, last as int));
        } else {
            assert(a =~= c.subrange(first as int, last as int));
        }
    }
    (first, last)
}

/// Cells of a table row, each trimmed; an empty first or last cell (from a
/// leading or trailing `|`) is dropped.
pub fn parse_table_row(b: &[u8], lo: usize, hi: usize) -> (cells: Vec<String>)
    requires
        lo <= hi <= b@.len(),
    ensures
        cells@.len() == row_cells(b@, lo as int, hi as int).len(),
        forall|k: int|
            0 <= k < cells@.len() ==> (#[trigger] cells@[k])@ == utf8_text(
                b@.subrange(
                    row_cells(b@, lo as int, hi as int)[k].0,
                    row_cells(b@, lo as int, hi as int)[k].1,
                ),
            ),
{
    let segs = row_segments(b, lo, hi);
    let (first, last) = kept_range(&segs);
    let ghost c = segs@.map_values(|x: (usize, usize)| (x.0 as int, x.1 as int));
    proof {
        assert(c =~= trimmed_segments(b@, lo as int, hi as int));
    }
    let mut cells: Vec<String> = Vec::new();
    let mut k = first;
    while k < last
        invariant
            first <= k <= last <= segs@.len(),
            lo <= hi <= b@.len(),
            cells@.len() == k - first,
            forall|j: int|
                0 <= j < cells@.len() ==> (#[trigger] cells@[j])@ == utf8_text(
                    b@.subrange(segs@[first + j].0 as int, segs@[first + j].1 as int),
                ),
            forall|j: int|
                0 <= j < segs@.len() ==> lo <= (#[trigger] segs@[j]).0 <= segs@[j].1 <= hi,
        decreases last - k,
    {
        let (a, z) = segs[k];
        cells.push(string_from_range(b, a, z));
        k = k + 1;
    }
    proof {
        assert forall|j: int| 0 <= j < cells@.len() implies (#[trigger] cells@[j])@ == utf8_text(
            b@.subrange(
                row_cells(b@, lo as int, hi as int)[j].0,
                row_cells(b@, lo as int, hi as int)[j].1,
            ),
        ) by {
            assert(row_cells(b@, lo as int, hi as int)[j] == c[first + j]);
        }
    }
    cells
}

/// Alignment of a separator cell: `:` at the start, the end, or both.
pub open spec fn alignment_of(s: Seq<u8>, a: int, z: int) -> ColumnAlignment {
    let lead = a < z && s[a] == 58u8;
    let trail = a < z && s[z - 1] == 58u8;
    if lead && trail {
        ColumnAlignment::Center
    } else if trail {
        ColumnAlignment::Right
    } else if lead {
        ColumnAlignment::Left
    } else {
        ColumnAlignment::Default
    }
}

/// Column alignments of a table separator row.
pub fn parse_alignments(b: &[u8], lo: usize, hi: usize) -> (al: Vec<ColumnAlignment>)
    requires
        lo <= hi <= b@.len(),
    ensures
        al@.len() == row_cells(b@, lo as int, hi as int).len(),
        forall|k: int|
            0 <= k < al@.len() ==> #[trigger] al@[k] == alignment_of(
                b@,
                row_cells(b@, lo as int, hi as int)[k].0,
                row_cells(b@, lo as int, hi as int)[k].1,
            ),
{
    let segs = row_segments(b, lo, hi);
    let (first, last) = kept_range(&segs);
    let ghost c = segs@.map_values(|x: (usize, usize)| (x.0 as int, x.1 as int));
    proof {
        assert(c =~= trimmed_segments(b@, lo as int, hi as int));
    }
    let mut al: Vec<ColumnAlignment> = Vec::new();
    let mut k = first;
    while k < last
        invariant
            first <= k <= last <= segs@.len(),
            lo <= hi <= b@.len(),
            al@.len() == k - first,
            forall|j: int|
                0 <= j < al@.len() ==> #[trigger] al@[j] == alignment_of(
                    b@,
                    segs@[first + j].0 as int,
                    segs@[first + j].1 as int,
                ),
            forall|j: int|
                0 <= j < segs@.len() ==> lo <= (#[trigger] segs@[j]).0 <= segs@[j].1 <= hi,
        decreases last - k,
    {
        let (a, z) = segs[k];
        let lead = a < z && b[a] == 58u8;
        let trail = a < z && b[z - 1] == 58u8;
        let x = if lead && trail {
            ColumnAlignment::Center
        } else if trail {
            ColumnAlignment::Right
        } else if lead {
            ColumnAlignment::Left
        } else {
            ColumnAlignment::Default
        };
        al.push(x);
        k = k + 1;
    }
    proof {
        assert forall|j: int| 0 <= j < al@.len() implies #[trigger] al@[j] == alignment_of(
            b@,
            row_cells(b@, lo as int, hi as int)[j].0,
            row_cells(b@, lo as int, hi as int)[j].1,
        ) by {
            assert(row_cells(b@, lo as int, hi as int)[j] == c[first + j]);
        }
    }
    al
}


// ---------------------------------------------------------------------------
// Block collectors: each takes the first line index of a block and returns
// the block's content and the index of the line after it.
// ---------------------------------------------------------------------------

/// Indented code block starting at line `i`: consecutive indented-code and
/// blank lines; trailing blank lines are left out of the block. Each code
/// line loses its indent; lines are joined with `\n`.
#[verifier::loop_isolation(false)]
fn collect_indented_code(b: &[u8], lines: &Vec<Line>, i: usize) -> (r: (String, usize))
    requires
        lines_match(b@, lines@),
        i < lines@.len(),
        crate::lines::code_line(b@, lines@[i as int].byte_start as int, lines@[i as int].text_end as int),
    ensures
        i < r.1 <= lines@.len(),
        r.1 == code_run_end(b@, i + 1, i + 1),
        r.0@ == utf8_text(joined_lines(b@, i as int, r.1 as int, LinePart::Code)),
{
    proof {
        lemma_lines_facts(b@, lines@);
    }
    let n = lines.len();
    let mut out: Vec<u8> = Vec::new();
    let mut k = i;
    let mut end = i + 1;
    let mut pending: usize = 0;
    while k < n
        invariant
            i <= k <= n,
            i < end <= n,
            k == i || end <= k,
            pending <= k,
            code_run_end(b@, k as int, end as int) == code_run_end(b@, i + 1, i + 1),
            k == i ==> out@.len() == 0 && pending == 0,
            k > i ==> out@ == joined_lines(b@, i as int, end as int, LinePart::Code),
            k > i ==> pending == k - end,
            k > i ==> out@ + newline_run(pending as int) == joined_lines(
                b@,
                i as int,
                k as int,
                LinePart::Code,
            ),
        decreases n - k,
    {
        let ln = lines[k];
        proof {
            assert(line_view(lines@[k as int]) == source_lines(b@)[k as int]);
        }
        let ghost before = out@;
        if crate::lines::is_code_line(b, ln.byte_start, ln.text_end) {
            if k > i {
                out.push(10u8);
            }
            let mut q: usize = 0;
            while q < pending
                invariant
                    q <= pending,
                    k > i ==> out@ == before + seq![10u8] + newline_run(q as int),
                    k == i ==> out@ == before,
                decreases pending - q,
            {
                proof {
                    assert(newline_run(q + 1) =~= newline_run(q as int).push(10u8));
                }
                out.push(10u8);
                q = q + 1;
            }
            pending = 0;
            let cs = strip_indented_code_indent(b, ln.byte_start, ln.text_end);
            push_range(&mut out, b, cs, ln.text_end);
            proof {
                if k > i {
                    let p = (k - end) as int;
                    assert(joined_lines(b@, i as int, k + 1, LinePart::Code) == joined_lines(
                        b@,
                        i as int,
                        k as int,
                        LinePart::Code,
                    ) + seq![10u8] + line_part(b@, k as int, LinePart::Code));
                    assert(out@ =~= joined_lines(b@, i as int, k + 1, LinePart::Code));
                } else {
                    assert(out@ =~= joined_lines(b@, i as int, k + 1, LinePart::Code));
                }
                assert(out@ + newline_run(0) =~= out@);
            }
            k = k + 1;
            end = k;
        } else if is_blank(b, ln.byte_start, ln.text_end) {
            proof {
                crate::lines::lemma_blank_no_marker(b@, ln.byte_start as int, ln.text_end as int);
                assert(line_part(b@, k as int, LinePart::Code) =~= Seq::<u8>::empty());
                assert(newline_run(pending + 1) =~= newline_run(pending as int) + seq![10u8]);
                assert(joined_lines(b@, i as int, k + 1, LinePart::Code) =~= joined_lines(
                    b@,
                    i as int,
                    k as int,
                    LinePart::Code,
                ) + seq![10u8]);
            }
            pending = pending + 1;
            k = k + 1;
        } else {
            break;
        }
    }
    (string_from_bytes(out.as_slice()), end)
}

/// `n` line breaks.
spec fn newline_run(n: int) -> Seq<u8> {
    Seq::new(n as nat, |j: int| 10u8)
}

/// Whether the trimmed range starts with a code fence.
fn is_fence(b: &[u8], lo: usize, hi: usize) -> (r: bool)
    requires
        lo <= hi <= b@.len(),
    ensures
        r == starts_with_at(b@, lo as int, hi as int, seq![96u8, 96u8, 96u8]),
{
    let lit: [u8; 3] = [96u8, 96u8, 96u8];
    proof {
        assert(lit@ =~= seq![96u8, 96u8, 96u8]);
    }
    has_prefix(b, lo, hi, lit.as_slice())
}

/// End of the first whitespace-separated word starting at `p`.
fn word_end(b: &[u8], p: usize, hi: usize) -> (e: usize)
    requires
        p <= hi <= b@.len(),
    ensures
        p <= e <= hi,
        e == first_ws(b@, p as int, hi as int),
{
    let mut e = p;
    while e < hi
        invariant
            p <= e <= hi <= b@.len(),
            first_ws(b@, e as int, hi as int) == first_ws(b@, p as int, hi as int),
        decreases hi - e,
    {
        if ws_len_at(b, e) > 0 {
            return e;
        }
        e = e + 1;
    }
    e
}

/// Fenced code block starting at line `i` whose trimmed text `[t0, t1)`
/// starts with a fence: the info string's first word is the language; lines
/// up to the closing fence (or the end) are the code. A `mermaid` language
/// makes a diagram block.
#[verifier::loop_isolation(false)]
fn collect_fenced(b: &[u8], lines: &Vec<Line>, i: usize, t0: usize, t1: usize) -> (r: (
    BlockKind,
    usize,
))
    requires
        lines_match(b@, lines@),
        i < lines@.len(),
        t0 + 3 <= t1 <= b@.len(),
    ensures
        i < r.1 <= lines@.len(),
        r.1 == fence_close(b@, i + 1),
        ({
            let lang = fence_language(b@, t0 as int, t1 as int);
            let body = utf8_text(
                joined_lines(b@, i + 1, fence_body_end(b@, i + 1), LinePart::Raw),
            );
            if names_mermaid(lang) {
                r.0 matches BlockKind::MermaidDiagram { diagram_type, source } && source@ == body
                    && diagram_type == mermaid_type_of(mermaid_keyword(encode_utf8(body)))
            } else {
                r.0 matches BlockKind::CodeBlock { language, code } && opt_text(language) == lang
                    && code@ == body
            }
        }),
{
    proof {
        lemma_lines_facts(b@, lines@);
    }
    let n = lines.len();
    let (a, z) = trim(b, t0 + 3, t1);
    let language: Option<String> = if a == z {
        None
    } else {
        let e = word_end(b, a, z);
        Some(string_from_range(b, a, e))
    };
    let mut out: Vec<u8> = Vec::new();
    let mut k = i + 1;
    let mut first = true;
    let ghost mut stop: int = n as int;
    while k < n
        invariant
            i < k <= n,
            fence_close(b@, k as int) == fence_close(b@, i + 1),
            fence_body_end(b@, k as int) == fence_body_end(b@, i + 1),
            first <==> k == i + 1,
            out@ == joined_lines(b@, i + 1, k as int, LinePart::Raw),
            stop == n,
        decreases n - k,
    {
        let ln = lines[k];
        proof {
            assert(line_view(lines@[k as int]) == source_lines(b@)[k as int]);
        }
        let (c0, c1) = trim(b, ln.byte_start, ln.text_end);
        if is_fence(b, c0, c1) {
            proof {
                stop = k as int;
            }
            k = k + 1;
            break;
        }
        if !first {
            out.push(10u8);
        }
        first = false;
        push_range(&mut out, b, ln.byte_start, ln.text_end);
        k = k + 1;
    }
    proof {
        assert(stop == fence_body_end(b@, i + 1));
        assert(out@ == joined_lines(b@, i + 1, stop, LinePart::Raw));
    }
    let code = string_from_bytes(out.as_slice());
    let is_mermaid = match &language {
        Some(l) => is_mermaid_info_string(l.as_str()),
        None => false,
    };
    if is_mermaid {
        let t = MermaidDiagramType::from_source(code.as_str());
        (BlockKind::MermaidDiagram { diagram_type: t, source: code }, k)
    } else {
        (BlockKind::CodeBlock { language, code }, k)
    }
}

/// Table starting at line `i` (header row, separator row at `i + 1`): data
/// rows follow while lines are table rows, at most `MAX_TABLE_ROWS` of
/// them; further table rows are covered by the block but dropped.
#[verifier::loop_isolation(false)]
#[verifier::rlimit(40)]
fn collect_table(b: &[u8], lines: &Vec<Line>, i: usize, headers: Vec<String>) -> (r: (
    BlockKind,
    usize,
))
    requires
        lines_match(b@, lines@),
        i + 1 < lines@.len(),
    ensures
        i + 2 <= r.1 <= lines@.len(),
        r.1 == table_rows_end(b@, i + 2),
        r.0 matches BlockKind::Table { headers: h, rows, alignments } && h == headers && rows@.len()
            == (if r.1 - (i + 2) < MAX_TABLE_ROWS {
            r.1 - (i + 2)
        } else {
            MAX_TABLE_ROWS as int
        }) && alignments_fit(b@, line_trim(b@, i + 1).0, line_trim(b@, i + 1).1, alignments@)
            && forall|q: int|
            0 <= q < rows@.len() ==> cells_fit(
                b@,
                line_trim(b@, i + 2 + q).0,
                line_trim(b@, i + 2 + q).1,
                (#[trigger] rows@[q])@,
            ),
{
    proof {
        lemma_lines_facts(b@, lines@);
    }
    let n = lines.len();
    let sep = lines[i + 1];
    proof {
        assert(line_view(lines@[i + 1]) == source_lines(b@)[i + 1]);
    }
    let (s0, s1) = trim(b, sep.byte_start, sep.text_end);
    let alignments = parse_alignments(b, s0, s1);
    let mut k = i + 2;
    let mut rows: Vec<Vec<String>> = Vec::new();
    while k < n && rows.len() < MAX_TABLE_ROWS
        invariant
            i + 2 <= k <= n,
            rows@.len() == k - (i + 2) <= MAX_TABLE_ROWS,
            table_rows_end(b@, k as int) == table_rows_end(b@, i + 2),
            forall|q: int|
                0 <= q < rows@.len() ==> cells_fit(
                    b@,
                    line_trim(b@, i + 2 + q).0,
                    line_trim(b@, i + 2 + q).1,
                    (#[trigger] rows@[q])@,
                ),
        decreases n - k,
    {
        let ln = lines[k];
        proof {
            assert(line_view(lines@[k as int]) == source_lines(b@)[k as int]);
        }
        let (r0, r1) = trim(b, ln.byte_start, ln.text_end);
        if !is_table_row(b, r0, r1) {
            break;
        }
        rows.push(parse_table_row(b, r0, r1));
        k = k + 1;
    }
    let ghost k1 = k;
    while k < n
        invariant
            i + 2 <= k1 <= k <= n,
            table_rows_end(b@, k as int) == table_rows_end(b@, i + 2),
        decreases n - k,
    {
        let ln = lines[k];
        proof {
            assert(line_view(lines@[k as int]) == source_lines(b@)[k as int]);
        }
        let (r0, r1) = trim(b, ln.byte_start, ln.text_end);
        if !is_table_row(b, r0, r1) {
            break;
        }
        k = k + 1;
    }
    (BlockKind::Table { headers, rows, alignments }, k)
}

/// Obsidian callout header on the first quote line: `[!kind]`, an optional
/// fold marker `+`/`-`, and an optional title (trimmed, `None` when empty).
/// Unknown kinds give `None`.
pub fn parse_callout_header(b: &[u8], lo: usize, hi: usize) -> (r: Option<
    (CalloutKind, Option<String>),
>)
    requires
        lo <= hi <= b@.len(),
    ensures
        r is Some <==> callout_header(b@, lo as int, hi as int),
        r matches Some((k, t)) ==> ({
            let c = callout_name_range(b@, lo as int, hi as int);
            &&& Some(k) == crate::ast::callout_kind_of(b@.subrange(c.0, c.1))
            &&& opt_text(t) == callout_title(b@, lo as int, hi as int)
        }),
{
    let a = trim_start(b, lo, hi);
    proof {
        crate::text::lemma_trim_start_bounds(b@, lo as int, hi as int);
    }
    if !(hi - a >= 2 && b[a] == 91u8 && b[a + 1] == 33u8) {
        return None;
    }
    let close = find_byte(b, a + 2, hi, 93u8);
    if close >= hi {
        return None;
    }
    let kind = match CalloutKind::from_name_bytes(b, a + 2, close) {
        Some(k) => k,
        None => {
            return None;
        },
    };
    let mut rest = close + 1;
    if rest < hi && (b[rest] == 43u8 || b[rest] == 45u8) {
        rest = rest + 1;
    }
    let (t0, t1) = trim(b, rest, hi);
    let title = if t0 == t1 {
        None
    } else {
        Some(string_from_range(b, t0, t1))
    };
    Some((kind, title))
}

/// The content of a quote line: after `> `, or empty for a lone `>`.
fn quote_content(b: &[u8], t0: usize, t1: usize) -> (r: Option<(usize, usize)>)
    requires
        t0 <= t1 <= b@.len(),
    ensures
        r matches Some((x, y)) ==> t0 <= x <= y <= t1,
        r is Some <==> quote_line(b@, t0 as int, t1 as int),
        r matches Some((x, y)) ==> (x as int, y as int) == quote_body(b@, t0 as int, t1 as int),
{
    let lit: [u8; 2] = [62u8, 32u8];
    proof {
        assert(lit@ =~= seq![62u8, 32u8]);
    }
    if has_prefix(b, t0, t1, lit.as_slice()) {
        Some((t0 + 2, t1))
    } else if t1 - t0 == 1 && b[t0] == 62u8 {
        Some((t1, t1))
    } else {
        None
    }
}

/// Blockquote (or callout) starting at line `i`: consecutive quote lines.
#[verifier::loop_isolation(false)]
fn collect_quote(b: &[u8], lines: &Vec<Line>, i: usize) -> (r: (BlockKind, usize))
    requires
        lines_match(b@, lines@),
        i < lines@.len(),
        quote_line(b@, line_trim(b@, i as int).0, line_trim(b@, i as int).1),
    ensures
        i < r.1 <= lines@.len(),
        r.1 == quote_run_end(b@, i as int),
        ({
            let q = quote_body(b@, line_trim(b@, i as int).0, line_trim(b@, i as int).1);
            let c = callout_name_range(b@, q.0, q.1);
            if callout_header(b@, q.0, q.1) {
                &&& r.0 matches BlockKind::Callout { kind: ck, title, text }
                &&& Some(ck) == crate::ast::callout_kind_of(b@.subrange(c.0, c.1))
                &&& opt_text(title) == callout_title(b@, q.0, q.1)
                &&& text@ == utf8_text(joined_lines(b@, i + 1, r.1 as int, LinePart::Quote))
            } else {
                r.0 matches BlockKind::Blockquote { text } && text@ == utf8_text(
                    joined_lines(b@, i as int, r.1 as int, LinePart::Quote),
                )
            }
        }),
{
    proof {
        lemma_lines_facts(b@, lines@);
    }
    let n = lines.len();
    let mut all: Vec<u8> = Vec::new();
    let mut body: Vec<u8> = Vec::new();
    let mut first: Option<(usize, usize)> = None;
    let mut count: usize = 0;
    let mut k = i;
    while k < n
        invariant
            i <= k <= n,
            count == k - i,
            first matches Some((x, y)) ==> x <= y <= b@.len(),
            quote_run_end(b@, k as int) == quote_run_end(b@, i as int),
            k == i ==> first is None,
            k > i ==> (first matches Some((x, y)) && (x as int, y as int) == quote_body(
                b@,
                line_trim(b@, i as int).0,
                line_trim(b@, i as int).1,
            )),
            all@ == joined_lines(b@, i as int, k as int, LinePart::Quote),
            body@ == joined_lines(b@, i + 1, k as int, LinePart::Quote),
        decreases n - k,
    {
        let ln = lines[k];
        proof {
            assert(line_view(lines@[k as int]) == source_lines(b@)[k as int]);
        }
        let (q0, q1) = trim(b, ln.byte_start, ln.text_end);
        let (c0, c1) = match quote_content(b, q0, q1) {
            Some(c) => c,
            None => {
                break;
            },
        };
        proof {
            assert(line_part(b@, k as int, LinePart::Quote) == b@.subrange(c0 as int, c1 as int));
        }
        if count > 0 {
            all.push(10u8);
        }
        push_range(&mut all, b, c0, c1);
        if count == 0 {
            first = Some((c0, c1));
        } else {
            if count > 1 {
                body.push(10u8);
            }
            push_range(&mut body, b, c0, c1);
        }
        proof {
            if k == i {
                assert(body@ =~= joined_lines(b@, i + 1, k + 1, LinePart::Quote));
            }
        }
        count = count + 1;
        k = k + 1;
    }
    // The first line always is a quote line.
    let end = if k == i {
        i + 1
    } else {
        k
    };
    if let Some((f0, f1)) = first {
        if let Some((kind, title)) = parse_callout_header(b, f0, f1) {
            let text = string_from_bytes(body.as_slice());
            return (BlockKind::Callout { kind, title, text }, end);
        }
    }
    (BlockKind::Blockquote { text: string_from_bytes(all.as_slice()) }, end)
}


/// Same bullet character.
fn same_marker_byte(x: Option<u8>, y: Option<u8>) -> (r: bool)
    ensures
        r == (x == y),
{
    match (x, y) {
        (Some(a), Some(c)) => a == c,
        (None, None) => true,
        _ => false,
    }
}

/// Turn collected item texts into list items.
fn to_items(texts: Vec<Vec<u8>>) -> (items: Vec<ListItem>)
    ensures
        items@.len() == texts@.len(),
        forall|k: int|
            0 <= k < items@.len() ==> (#[trigger] items@[k]).text@ == utf8_text(texts@[k]@)
                && items@[k].inline_spans@.len() == 0,
{
    let mut items: Vec<ListItem> = Vec::new();
    let mut k: usize = 0;
    while k < texts.len()
        invariant
            k <= texts@.len(),
            items@.len() == k,
            forall|j: int|
                0 <= j < k ==> (#[trigger] items@[j]).text@ == utf8_text(texts@[j]@)
                    && items@[j].inline_spans@.len() == 0,
        decreases texts@.len() - k,
    {
        let text = string_from_bytes(texts[k].as_slice());
        items.push(ListItem { text, inline_spans: Vec::new() });
        k = k + 1;
    }
    items
}

/// Append `" " + b[lo..hi]` to the last collected item, if any.
fn continue_last_item(texts: &mut Vec<Vec<u8>>, b: &[u8], lo: usize, hi: usize)
    requires
        lo <= hi <= b@.len(),
    ensures
        final(texts)@.len() == old(texts)@.len(),
        forall|j: int| 0 <= j < old(texts)@.len() - 1 ==> #[trigger] final(texts)@[j] == old(texts)@[j],
        old(texts)@.len() > 0 ==> final(texts)@[old(texts)@.len() - 1]@ == old(texts)@[old(
            texts,
        )@.len() - 1]@ + seq![32u8] + b@.subrange(lo as int, hi as int),
{
    if texts.len() > 0 {
        let mut last = texts.pop().unwrap();
        last.push(32u8);
        push_range(&mut last, b, lo, hi);
        texts.push(last);
    }
}

/// Grouped bullet list starting at line `i` with marker `first`: items with
/// the same bullet character; unmarked non-blank lines continue the last
/// item; a blank line, a checkbox or another marker ends the list.
#[verifier::loop_isolation(false)]
fn collect_bullet_list(b: &[u8], lines: &Vec<Line>, i: usize, first: &ParsedListMarker) -> (r: (
    Vec<ListItem>,
    usize,
))
    requires
        lines_match(b@, lines@),
        i < lines@.len(),
        list_marker(b@, source_lines(b@)[i as int].0, source_lines(b@)[i as int].1) == Some(*first),
        first.kind is Bullet,
    ensures
        i < r.1 <= lines@.len(),
        r.1 == list_run_end(b@, i as int, false, first.unordered_marker),
        items_fit(b@, i as int, r.1 as int, r.0@),
{
    proof {
        lemma_lines_facts(b@, lines@);
    }
    let n = lines.len();
    let mut texts: Vec<Vec<u8>> = Vec::new();
    let mut k = i;
    while k < n
        invariant
            i <= k <= n,
            list_run_end(b@, k as int, false, first.unordered_marker) == list_run_end(
                b@,
                i as int,
                false,
                first.unordered_marker,
            ),
            texts@.len() == item_texts(b@, i as int, k as int).len(),
            forall|j: int|
                0 <= j < texts@.len() ==> (#[trigger] texts@[j])@ == item_texts(b@, i as int, k as int)[j],
            k > i ==> texts@.len() > 0,
        decreases n - k,
    {
        let ln = lines[k];
        proof {
            assert(line_view(lines@[k as int]) == source_lines(b@)[k as int]);
            crate::lines::lemma_blank_trimmed(b@, ln.byte_start as int, ln.text_end as int);
        }
        match parse_list_marker(b, ln.byte_start, ln.text_end) {
            None => {
                let (u0, u1) = trim(b, ln.byte_start, ln.text_end);
                if u0 == u1 {
                    break;
                }
                continue_last_item(&mut texts, b, u0, u1);
            },
            Some(m) => {
                match m.kind {
                    ParsedListKind::Bullet => {
                        if !same_marker_byte(m.unordered_marker, first.unordered_marker) {
                            break;
                        }
                        let mut t: Vec<u8> = Vec::new();
                        push_range(&mut t, b, m.content_start, ln.text_end);
                        texts.push(t);
                    },
                    _ => {
                        break;
                    },
                }
            },
        }
        k = k + 1;
    }
    let end = if k == i {
        i + 1
    } else {
        k
    };
    (to_items(texts), end)
}

/// Grouped ordered list starting at line `i` with marker `first`: items
/// with the same delimiter; unmarked non-blank lines continue the last item;
/// a blank line or another marker ends the list.
#[verifier::loop_isolation(false)]
fn collect_ordered_list(b: &[u8], lines: &Vec<Line>, i: usize, first: &ParsedListMarker) -> (r: (
    Vec<ListItem>,
    usize,
))
    requires
        lines_match(b@, lines@),
        i < lines@.len(),
        list_marker(b@, source_lines(b@)[i as int].0, source_lines(b@)[i as int].1) == Some(*first),
        first.kind is Ordered,
    ensures
        i < r.1 <= lines@.len(),
        r.1 == list_run_end(b@, i as int, true, first.ordered_delimiter),
        items_fit(b@, i as int, r.1 as int, r.0@),
{
    proof {
        lemma_lines_facts(b@, lines@);
    }
    let n = lines.len();
    let mut texts: Vec<Vec<u8>> = Vec::new();
    let mut k = i;
    while k < n
        invariant
            i <= k <= n,
            list_run_end(b@, k as int, true, first.ordered_delimiter) == list_run_end(
                b@,
                i as int,
                true,
                first.ordered_delimiter,
            ),
            texts@.len() == item_texts(b@, i as int, k as int).len(),
            forall|j: int|
                0 <= j < texts@.len() ==> (#[trigger] texts@[j])@ == item_texts(b@, i as int, k as int)[j],
            k > i ==> texts@.len() > 0,
        decreases n - k,
    {
        let ln = lines[k];
        proof {
            assert(line_view(lines@[k as int]) == source_lines(b@)[k as int]);
            crate::lines::lemma_blank_trimmed(b@, ln.byte_start as int, ln.text_end as int);
        }
        match parse_list_marker(b, ln.byte_start, ln.text_end) {
            None => {
                let (u0, u1) = trim(b, ln.byte_start, ln.text_end);
                if u0 == u1 {
                    break;
                }
                continue_last_item(&mut texts, b, u0, u1);
            },
            Some(m) => {
                match m.kind {
                    ParsedListKind::Ordered => {
                        if !same_marker_byte(m.ordered_delimiter, first.ordered_delimiter) {
                            break;
                        }
                        let mut t: Vec<u8> = Vec::new();
                        push_range(&mut t, b, m.content_start, ln.text_end);
                        texts.push(t);
                    },
                    _ => {
                        break;
                    },
                }
            },
        }
        k = k + 1;
    }
    let end = if k == i {
        i + 1
    } else {
        k
    };
    (to_items(texts), end)
}

/// Whether line `k` ends a paragraph (`nonempty`: the paragraph already has
/// lines, so a setext underline ends it too).
#[verifier::loop_isolation(false)]
fn para_break(b: &[u8], lines: &Vec<Line>, k: usize, nonempty: bool) -> (r: bool)
    requires
        lines_match(b@, lines@),
        k < lines@.len(),
    ensures
        r == para_break_at(b@, k as int, nonempty),
{
    proof {
        lemma_lines_facts(b@, lines@);
    }
    let ln = lines[k];
    proof {
        assert(line_view(lines@[k as int]) == source_lines(b@)[k as int]);
        if k + 1 < lines@.len() {
            assert(line_view(lines@[k + 1]) == source_lines(b@)[k + 1]);
        }
    }
    let (p0, p1) = trim(b, ln.byte_start, ln.text_end);
    if p0 == p1 || is_fence(b, p0, p1) || is_heading_line(b, p0, p1) {
        return true;
    }
    let lit: [u8; 2] = [62u8, 32u8];
    proof {
        assert(lit@ =~= seq![62u8, 32u8]);
    }
    if has_prefix(b, p0, p1, lit.as_slice()) || is_horizontal_rule(b, p0, p1) {
        return true;
    }
    if parse_list_marker(b, ln.byte_start, ln.text_end).is_some() || parse_footnote_def(
        b,
        p0,
        p1,
    ).is_some() {
        return true;
    }
    if is_table_row(b, p0, p1) && k < lines.len() - 1 {
        let nx = lines[k + 1];
        let (x0, x1) = trim(b, nx.byte_start, nx.text_end);
        if is_table_separator(b, x0, x1) {
            return true;
        }
    }
    nonempty && parse_setext_underline(b, ln.byte_start, ln.text_end).is_some()
}

/// Paragraph starting at line `i` (its first line is always part of it):
/// following lines join until one starts another block. A setext underline
/// right after the paragraph turns it into a heading with the trimmed text.
#[verifier::loop_isolation(false)]
fn collect_paragraph(b: &[u8], lines: &Vec<Line>, i: usize) -> (r: (BlockKind, usize))
    requires
        lines_match(b@, lines@),
        i < lines@.len(),
    ensures
        i < r.1 <= lines@.len(),
        ({
            let e = para_run_end(b@, i + 1);
            let u = if e < source_lines(b@).len() {
                setext_underline(b@, source_lines(b@)[e].0, source_lines(b@)[e].1)
            } else {
                None
            };
            let j = joined_lines(b@, i as int, e, LinePart::Raw);
            let h = trimmed(j, 0, j.len() as int);
            if u is Some {
                r.1 == e + 1 && (r.0 matches BlockKind::Heading { level, text } && Some(level) == u
                    && text@ == utf8_text(j.subrange(h.0, h.1)))
            } else {
                r.1 == e && (r.0 matches BlockKind::Paragraph { text } && text@ == utf8_text(j))
            }
        }),
{
    proof {
        lemma_lines_facts(b@, lines@);
        assert(line_view(lines@[i as int]) == source_lines(b@)[i as int]);
    }
    let n = lines.len();
    let mut out: Vec<u8> = Vec::new();
    let first = lines[i];
    push_range(&mut out, b, first.byte_start, first.text_end);
    let mut k = i + 1;
    while k < n
        invariant
            i < k <= n,
            para_run_end(b@, k as int) == para_run_end(b@, i + 1),
            out@ == joined_lines(b@, i as int, k as int, LinePart::Raw),
        decreases n - k,
    {
        if para_break(b, lines, k, true) {
            break;
        }
        let ln = lines[k];
        proof {
            assert(line_view(lines@[k as int]) == source_lines(b@)[k as int]);
        }
        out.push(10u8);
        push_range(&mut out, b, ln.byte_start, ln.text_end);
        k = k + 1;
    }
    if k < n {
        let ln = lines[k];
        proof {
            assert(line_view(lines@[k as int]) == source_lines(b@)[k as int]);
        }
        if let Some(level) = parse_setext_underline(b, ln.byte_start, ln.text_end) {
            let (h0, h1) = trim(out.as_slice(), 0, out.len());
            let text = string_from_range(out.as_slice(), h0, h1);
            return (BlockKind::Heading { level, text }, k + 1);
        }
    }
    (BlockKind::Paragraph { text: string_from_bytes(out.as_slice()) }, k)
}


// ---------------------------------------------------------------------------
// The block loop
// ---------------------------------------------------------------------------

/// Appending a block placed right where the layout ends extends it.
proof fn lemma_layout_push(s: Seq<u8>, mode: ParseMode, bs: Seq<BlockNode>, upto: int, blk: BlockNode)
    requires
        layout(s, mode, bs, upto),
        placed(s, blk),
        blk.line_start == upto,
        blk.kind is Empty ==> blk.line_end == blk.line_start + 1 && line_blank(
            s,
            source_lines(s)[blk.line_start as int],
        ),
        mode == ParseMode::Grouped && blk.kind is Empty && bs.len() > 0 ==> !(bs[bs.len()
            - 1].kind is Empty),
    ensures
        layout(s, mode, bs.push(blk), blk.line_end as int),
{
    let nb = bs.push(blk);
    if mode == ParseMode::Grouped {
        assert forall|k: int| 0 <= k < nb.len() - 1 implies !((#[trigger] nb[k]).kind is Empty
            && nb[k + 1].kind is Empty) by {
            if k < bs.len() - 1 {
                assert(nb[k] == bs[k] && nb[k + 1] == bs[k + 1]);
            } else {
                assert(nb[k] == bs[bs.len() - 1]);
            }
        }
    }
    assert forall|k: int| 0 <= k < nb.len() - 1 implies gap_ok(
        s,
        mode,
        #[trigger] nb[k],
        nb[k + 1].line_start as int,
    ) by {
        if k < bs.len() - 1 {
            assert(nb[k] == bs[k] && nb[k + 1] == bs[k + 1]);
        } else {
            assert(nb[k] == bs[bs.len() - 1]);
        }
    }
    assert forall|k: int| 0 <= k < nb.len() implies placed(s, #[trigger] nb[k]) by {
        if k < bs.len() {
            assert(nb[k] == bs[k]);
        }
    }
    assert forall|k: int| 0 <= k < nb.len() implies (#[trigger] nb[k]).kind is Empty ==> {
        &&& nb[k].line_end == nb[k].line_start + 1
        &&& line_blank(s, source_lines(s)[nb[k].line_start as int])
    } by {
        if k < bs.len() {
            assert(nb[k] == bs[k]);
        }
    }
}

/// In `Grouped` mode a blank line after an `Empty` block joins the gap.
proof fn lemma_layout_skip(s: Seq<u8>, bs: Seq<BlockNode>, upto: int)
    requires
        layout(s, ParseMode::Grouped, bs, upto),
        bs.len() > 0,
        bs[bs.len() - 1].kind is Empty,
        0 <= upto < source_lines(s).len(),
        line_blank(s, source_lines(s)[upto]),
    ensures
        layout(s, ParseMode::Grouped, bs, upto + 1),
{
    let last = bs[bs.len() - 1];
    assert(last.line_end <= upto) by {
        assert(placed(s, last));
    }
    assert forall|j: int| last.line_end <= j < upto + 1 implies line_blank(
        s,
        #[trigger] source_lines(s)[j],
    ) by {
        if j < upto {
            assert(gap_ok(s, ParseMode::Grouped, last, upto));
        }
    }
}

/// Every block of `bs` follows the rule for its first line: its end line,
/// what its kind carries, and whether it has list-marker metadata, which
/// then describes the list marker of its first line.
pub open spec fn blocks_follow_rules(
    s: Seq<u8>,
    mode: ParseMode,
    scheme: Option<Seq<u8>>,
    bs: Seq<BlockNode>,
) -> bool {
    forall|k: int|
        0 <= k < bs.len() ==> follows_rule(
            s,
            mode,
            scheme,
            (#[trigger] bs[k]).line_start as int,
            bs[k].line_end as int,
            bs[k].kind,
            bs[k].list_marker is Some,
        ) && marker_fits(s, bs[k].line_start as int, bs[k].list_marker)
}

/// Appending a block that follows its rule keeps all blocks following theirs.
proof fn lemma_rules_push(
    s: Seq<u8>,
    mode: ParseMode,
    scheme: Option<Seq<u8>>,
    bs: Seq<BlockNode>,
    blk: BlockNode,
)
    requires
        blocks_follow_rules(s, mode, scheme, bs),
        follows_rule(
            s,
            mode,
            scheme,
            blk.line_start as int,
            blk.line_end as int,
            blk.kind,
            blk.list_marker is Some,
        ),
        marker_fits(s, blk.line_start as int, blk.list_marker),
    ensures
        blocks_follow_rules(s, mode, scheme, bs.push(blk)),
{
    assert forall|k: int| 0 <= k < bs.len() + 1 implies follows_rule(
        s,
        mode,
        scheme,
        (#[trigger] bs.push(blk)[k]).line_start as int,
        bs.push(blk)[k].line_end as int,
        bs.push(blk)[k].kind,
        bs.push(blk)[k].list_marker is Some,
    ) && marker_fits(s, bs.push(blk)[k].line_start as int, bs.push(blk)[k].list_marker) by {
        if k < bs.len() {
            assert(bs.push(blk)[k] == bs[k]);
        }
    }
}

/// The image-marker scheme as a byte sequence.
pub open spec fn scheme_view(scheme: Option<&[u8]>) -> Option<Seq<u8>> {
    match scheme {
        Some(x) => Some(x@),
        None => None,
    }
}

/// Classify the non-blank line `i` (trimmed to `[t0, t1)`) and collect the
/// block it starts: its kind, list-marker metadata and end line.
#[verifier::loop_isolation(false)]
#[verifier::spinoff_prover]
#[verifier::rlimit(40)]
fn classify_block(
    b: &[u8],
    lines: &Vec<Line>,
    i: usize,
    t0: usize,
    t1: usize,
    mode: ParseMode,
    scheme: Option<&[u8]>,
    map: &Utf16Map,
) -> (r: (BlockKind, Option<ListMarkerMeta>, usize))
    requires
        lines_match(b@, lines@),
        map.wf_for(b@),
        i < lines@.len(),
        lines@[i as int].byte_start <= t0 <= t1 <= lines@[i as int].text_end,
        t0 == line_trim(b@, i as int).0,
        t1 == line_trim(b@, i as int).1,
        !line_is_blank(b@, i as int),
    ensures
        i < r.2 <= lines@.len(),
        !(r.0 is Empty),
        follows_rule(b@, mode, scheme_view(scheme), i as int, r.2 as int, r.0, r.1 is Some),
        marker_fits(b@, i as int, r.1),
{
    proof {
        reveal(kind_fits);
        lemma_lines_facts(b@, lines@);
        assert(line_view(lines@[i as int]) == source_lines(b@)[i as int]);
        if i + 1 < lines@.len() {
            assert(line_view(lines@[i + 1]) == source_lines(b@)[i + 1]);
        }
    }
    let n = lines.len();
    let ln = lines[i];
    // Image / attachment marker on a line by itself.
    if let Some(sc) = scheme {
        if let Some((u0, u1)) = parse_image_marker_line(b, t0, t1, sc) {
            return (BlockKind::ImageMarker { uuid: string_from_range(b, u0, u1) }, None, i + 1);
        }
    }
    // Indented code (before fences, so an indented fence is code); a line
    // with a list marker is a list item at any indent.
    if crate::lines::is_code_line(b, ln.byte_start, ln.text_end) {
        let (code, end) = collect_indented_code(b, lines, i);
        return (BlockKind::CodeBlock { language: None, code }, None, end);
    }
    // Fenced code.
    if is_fence(b, t0, t1) {
        let (kind, end) = collect_fenced(b, lines, i, t0, t1);
        return (kind, None, end);
    }
    // Table: a row followed by a separator row, with not too many columns.
    if is_table_row(b, t0, t1) && i < n - 1 {
        let nx = lines[i + 1];
        let (x0, x1) = trim(b, nx.byte_start, nx.text_end);
        if is_table_separator(b, x0, x1) {
            let headers = parse_table_row(b, t0, t1);
            if headers.len() <= MAX_TABLE_COLUMNS {
                let (kind, end) = collect_table(b, lines, i, headers);
                return (kind, None, end);
            }
        }
    }
    if is_horizontal_rule(b, t0, t1) {
        return (BlockKind::HorizontalRule, None, i + 1);
    }
    if let Some((level, hs)) = parse_heading(b, t0, t1) {
        return (BlockKind::Heading { level, text: string_from_range(b, hs, t1) }, None, i + 1);
    }
    if quote_content(b, t0, t1).is_some() {
        let (kind, end) = collect_quote(b, lines, i);
        return (kind, None, end);
    }
    if let Some(m) = parse_list_marker(b, ln.byte_start, ln.text_end) {
        let meta = marker_to_meta(&m, ln.byte_start, b, map);
        match m.kind {
            ParsedListKind::Checkbox(checked) => {
                let text = string_from_range(b, m.content_start, ln.text_end);
                return (BlockKind::Checkbox { checked, text }, Some(meta), i + 1);
            },
            ParsedListKind::Bullet => {
                match mode {
                    ParseMode::Grouped => {
                        let (items, end) = collect_bullet_list(b, lines, i, &m);
                        return (BlockKind::BulletList { items }, Some(meta), end);
                    },
                    ParseMode::Editable => {
                        let text = string_from_range(b, m.content_start, ln.text_end);
                        return (BlockKind::BulletItem { text }, Some(meta), i + 1);
                    },
                }
            },
            ParsedListKind::Ordered => {
                match mode {
                    ParseMode::Grouped => {
                        let (items, end) = collect_ordered_list(b, lines, i, &m);
                        return (
                            BlockKind::OrderedList { start: m.ordered_number, items },
                            Some(meta),
                            end,
                        );
                    },
                    ParseMode::Editable => {
                        let text = string_from_range(b, m.content_start, ln.text_end);
                        return (
                            BlockKind::NumberedItem { number: m.ordered_number, text },
                            Some(meta),
                            i + 1,
                        );
                    },
                }
            },
        }
    }
    if let Some((l0, l1, x0, x1)) = parse_footnote_def(b, t0, t1) {
        let label = string_from_range(b, l0, l1);
        let text = string_from_range(b, x0, x1);
        return (BlockKind::FootnoteDefinition { label, text }, None, i + 1);
    }
    let (kind, end) = collect_paragraph(b, lines, i);
    (kind, None, end)
}

/// Parse the lines of `b` into blocks.
fn parse_blocks(
    b: &[u8],
    lines: &Vec<Line>,
    map: &Utf16Map,
    mode: ParseMode,
    scheme: Option<&[u8]>,
) -> (blocks: Vec<BlockNode>)
    requires
        lines_match(b@, lines@),
        map.wf_for(b@),
    ensures
        layout(b@, mode, blocks@, lines@.len() as int),
        blocks_follow_rules(b@, mode, scheme_view(scheme), blocks@),
        forall|k: int| 0 <= k < blocks@.len() ==> (#[trigger] blocks@[k]).inline_spans@.len() == 0,
{
    proof {
        lemma_lines_facts(b@, lines@);
    }
    let n = lines.len();
    let mut blocks: Vec<BlockNode> = Vec::new();
    let mut i: usize = 0;
    while i < n
        invariant
            i <= n == lines@.len(),
            lines_match(b@, lines@),
            map.wf_for(b@),
            layout(b@, mode, blocks@, i as int),
            blocks_follow_rules(b@, mode, scheme_view(scheme), blocks@),
            forall|k: int| 0 <= k < blocks@.len() ==> (#[trigger] blocks@[k]).inline_spans@.len() == 0,
            forall|k: int| 0 <= k < lines@.len() ==> line_view(#[trigger] lines@[k]) == source_lines(b@)[k],
            forall|k: int|
                0 <= k < lines@.len() ==> {
                    &&& (#[trigger] lines@[k]).byte_start <= lines@[k].text_end
                        <= lines@[k].byte_end <= b@.len()
                },
        decreases n - i,
    {
        let ln = lines[i];
        proof {
            assert(line_view(lines@[i as int]) == source_lines(b@)[i as int]);
        }
        if is_blank(b, ln.byte_start, ln.text_end) {
            let collapse = match mode {
                ParseMode::Grouped => blocks.len() > 0 && matches!(blocks[blocks.len() - 1].kind, BlockKind::Empty),
                ParseMode::Editable => false,
            };
            if collapse {
                proof {
                    lemma_layout_skip(b@, blocks@, i as int);
                }
                i = i + 1;
                continue;
            }
            let blk = make_block(BlockKind::Empty, None, lines, i, i + 1, b, map);
            proof {
                assert(kind_fits(b@, scheme_view(scheme), i as int, BlockShape::Empty, i + 1, BlockKind::Empty)) by {
                    reveal(kind_fits);
                }
                lemma_rules_push(b@, mode, scheme_view(scheme), blocks@, blk);
                if mode == ParseMode::Grouped && blocks@.len() > 0 {
                    assert(!(blocks@[blocks@.len() - 1].kind is Empty));
                }
                lemma_layout_push(b@, mode, blocks@, i as int, blk);
            }
            blocks.push(blk);
            i = i + 1;
            continue;
        }
        let (t0, t1) = trim(b, ln.byte_start, ln.text_end);
        let (kind, marker, end) = classify_block(b, lines, i, t0, t1, mode, scheme, map);
        let blk = make_block(kind, marker, lines, i, end, b, map);
        proof {
            lemma_layout_push(b@, mode, blocks@, i as int, blk);
            lemma_rules_push(b@, mode, scheme_view(scheme), blocks@, blk);
        }
        blocks.push(blk);
        i = end;
    }
    blocks
}


// ---------------------------------------------------------------------------
// Entry points
// ---------------------------------------------------------------------------

/// What a parsed document is for source bytes `s` in `mode`: one line count
/// per source line, the block layout, and inline spans that lie in their
/// block's text, sorted by start, absent from blocks that are not scanned,
/// including a span for every inline code run of the block's text, and
/// exactly the spans of that text (`blocks_spans_exact`).
pub open spec fn document_of(s: Seq<u8>, mode: ParseMode, doc: Document) -> bool {
    let bs = doc.blocks@;
    &&& doc.line_count == source_lines(s).len()
    &&& layout(s, mode, bs, source_lines(s).len() as int)
    &&& forall|k: int| 0 <= k < bs.len() ==> crate::inline::sorted_by_start((#[trigger] bs[k]).inline_spans@)
    &&& forall|k: int|
        0 <= k < bs.len() ==> crate::inline::all_in(
            s,
            (#[trigger] bs[k]).inline_spans@,
            crate::inline::text_lo(bs[k]),
            bs[k].byte_end as int,
        )
    &&& forall|k: int|
        0 <= k < bs.len() ==> crate::inline::no_inline((#[trigger] bs[k]).kind)
            ==> bs[k].inline_spans@.len() == 0
    &&& forall|k: int|
        0 <= k < bs.len() ==> crate::inline::code_complete(s, #[trigger] bs[k], bs[k].inline_spans@)
    &&& blocks_spans_exact(s, bs)
}

/// Each block's inline spans are those of its text (`inline_spans_are`),
/// and a block the inline pass leaves alone has none.
#[verifier::opaque]
pub open spec fn blocks_spans_exact(s: Seq<u8>, bs: Seq<BlockNode>) -> bool {
    forall|k: int|
        0 <= k < bs.len() ==> if crate::inline::inline_kept(s, #[trigger] bs[k]) {
            bs[k].inline_spans@.len() == 0
        } else {
            crate::inline::inline_spans_are(
                s,
                crate::inline::text_lo(bs[k]),
                crate::inline::text_hi(s, bs[k]),
                bs[k].inline_spans@,
            )
        }
}

/// Setting inline spans keeps the layout.
proof fn lemma_layout_spans(s: Seq<u8>, mode: ParseMode, a: Seq<BlockNode>, c: Seq<BlockNode>, upto: int)
    requires
        layout(s, mode, a, upto),
        a.len() == c.len(),
        forall|k: int| 0 <= k < c.len() ==> crate::inline::same_but_spans(a[k], #[trigger] c[k]),
    ensures
        layout(s, mode, c, upto),
{
    assert forall|k: int| 0 <= k < c.len() implies placed(s, #[trigger] c[k]) by {
        assert(crate::inline::same_but_spans(a[k], c[k]));
        assert(placed(s, a[k]));
    }
    assert forall|k: int| 0 <= k < c.len() - 1 implies gap_ok(
        s,
        mode,
        #[trigger] c[k],
        c[k + 1].line_start as int,
    ) by {
        assert(crate::inline::same_but_spans(a[k], c[k]));
        assert(crate::inline::same_but_spans(a[k + 1], c[k + 1]));
        assert(gap_ok(s, mode, a[k], a[k + 1].line_start as int));
    }
    if c.len() > 0 {
        assert(crate::inline::same_but_spans(a[0], c[0]));
        assert(crate::inline::same_but_spans(a[c.len() - 1], c[c.len() - 1]));
    }
    assert forall|k: int| 0 <= k < c.len() implies (#[trigger] c[k]).kind is Empty ==> {
        &&& c[k].line_end == c[k].line_start + 1
        &&& line_blank(s, source_lines(s)[c[k].line_start as int])
    } by {
        assert(crate::inline::same_but_spans(a[k], c[k]));
    }
    if mode == ParseMode::Grouped {
        assert forall|k: int| 0 <= k < c.len() - 1 implies !((#[trigger] c[k]).kind is Empty
            && c[k + 1].kind is Empty) by {
            assert(crate::inline::same_but_spans(a[k], c[k]));
            assert(crate::inline::same_but_spans(a[k + 1], c[k + 1]));
        }
    }
}

/// In `Editable` mode the blocks cover the lines one after another, from
/// the first line to the last, without gaps.
pub proof fn lemma_editable_tiles(s: Seq<u8>, doc: Document)
    requires
        document_of(s, ParseMode::Editable, doc),
    ensures
        doc.blocks@.len() == 0 <==> doc.line_count == 0,
        doc.blocks@.len() > 0 ==> doc.blocks@[0].line_start == 0,
        doc.blocks@.len() > 0 ==> doc.blocks@[doc.blocks@.len() - 1].line_end == doc.line_count,
        forall|k: int|
            0 <= k < doc.blocks@.len() - 1 ==> (#[trigger] doc.blocks@[k]).line_end
                == doc.blocks@[k + 1].line_start,
{
    let bs = doc.blocks@;
    if bs.len() > 0 {
        assert(gap_ok(s, ParseMode::Editable, bs[bs.len() - 1], source_lines(s).len() as int));
        assert(placed(s, bs[0]));
    }
    assert forall|k: int| 0 <= k < bs.len() - 1 implies (#[trigger] bs[k]).line_end
        == bs[k + 1].line_start by {
        assert(gap_ok(s, ParseMode::Editable, bs[k], bs[k + 1].line_start as int));
    }
}

/// A stretch without `\n` adds no newline to the count.
proof fn lemma_newlines_flat(s: Seq<u8>, a: int, b: int)
    requires
        0 <= a <= b <= s.len(),
        forall|j: int| a <= j < b ==> s[j] != 10u8,
    ensures
        crate::incremental::newlines_before(s, b) == crate::incremental::newlines_before(s, a),
    decreases b - a,
{
    if a < b {
        lemma_newlines_flat(s, a, b - 1);
    }
}

/// The lines from `start` on: one per `\n`, and one more for trailing
/// bytes without a newline.
proof fn lemma_lines_count(s: Seq<u8>, start: int)
    requires
        0 <= start <= s.len(),
    ensures
        crate::lines::split_lines_from(s, start).len() == crate::incremental::newlines_before(s, s.len() as int)
            - crate::incremental::newlines_before(s, start) + (if start < s.len() && s[s.len() - 1] != 10u8 {
            1int
        } else {
            0int
        }),
    decreases s.len() - start,
{
    if start < s.len() {
        let n = s.len() as int;
        crate::text::lemma_find_byte_pos(s, start, n, 10u8);
        let nl = crate::text::find_byte_pos(s, start, n, 10u8);
        lemma_newlines_flat(s, start, nl);
        let te = if nl > start && s[nl - 1] == 13u8 {
            nl - 1
        } else {
            nl
        };
        if nl < n {
            lemma_lines_count(s, nl + 1);
            assert(crate::incremental::newlines_before(s, nl + 1) == crate::incremental::newlines_before(s, nl)
                + 1);
            assert(crate::lines::split_lines_from(s, start) == seq![(start, te, nl + 1)]
                + crate::lines::split_lines_from(s, nl + 1));
        } else {
            assert(s[n - 1] != 10u8);
            assert(crate::lines::split_lines_from(s, start) == seq![(start, te, n)]
                + crate::lines::split_lines_from(s, n));
            assert(crate::lines::split_lines_from(s, n).len() == 0);
        }
    }
}

/// An editable parse tiles the source: with `n` the number of `\n` bytes,
/// there are `n` lines, one more when the source ends without a newline;
/// there are no blocks exactly when the source is empty; the first block
/// starts at byte 0 and line 0, each block ends (in bytes and lines) where
/// the next starts, the last ends at the end of the source and at the last
/// line; each block spans at least one line, and its UTF-16 offsets are the
/// UTF-16 lengths of the text before its byte offsets.
pub proof fn lemma_editable_layout(s: Seq<u8>, doc: Document)
    requires
        document_of(s, ParseMode::Editable, doc),
    ensures
        doc.line_count == crate::incremental::newlines_before(s, s.len() as int) + (if s.len() > 0
            && s[s.len() - 1] != 10u8 {
            1int
        } else {
            0int
        }),
        doc.blocks@.len() == 0 <==> s.len() == 0,
        doc.blocks@.len() > 0 ==> doc.blocks@[0].line_start == 0 && doc.blocks@[0].byte_start == 0,
        doc.blocks@.len() > 0 ==> doc.blocks@.last().line_end == doc.line_count
            && doc.blocks@.last().byte_end == s.len(),
        forall|k: int|
            0 <= k < doc.blocks@.len() - 1 ==> (#[trigger] doc.blocks@[k]).line_end
                == doc.blocks@[k + 1].line_start && doc.blocks@[k].byte_end == doc.blocks@[k + 1].byte_start,
        forall|k: int|
            0 <= k < doc.blocks@.len() ==> {
                &&& (#[trigger] doc.blocks@[k]).line_start < doc.blocks@[k].line_end
                &&& doc.blocks@[k].utf16_start == utf16_offset(s, doc.blocks@[k].byte_start as int)
                &&& doc.blocks@[k].utf16_end == utf16_offset(s, doc.blocks@[k].byte_end as int)
            },
{
    let bs = doc.blocks@;
    let ls = source_lines(s);
    lemma_editable_tiles(s, doc);
    lemma_lines_count(s, 0);
    crate::lines::lemma_lines_shape(s, 0);
    assert(crate::incremental::newlines_before(s, 0) == 0);
    if bs.len() > 0 {
        assert(placed(s, bs[0]));
        assert(placed(s, bs[bs.len() - 1]));
    }
    assert forall|k: int| 0 <= k < bs.len() - 1 implies (#[trigger] bs[k]).line_end == bs[k + 1].line_start
        && bs[k].byte_end == bs[k + 1].byte_start by {
        assert(placed(s, bs[k]));
        assert(placed(s, bs[k + 1]));
        assert(ls[bs[k].line_end - 1].2 == ls[bs[k].line_end as int].0);
    }
    assert forall|k: int| 0 <= k < bs.len() implies {
        &&& (#[trigger] bs[k]).line_start < bs[k].line_end
        &&& bs[k].utf16_start == utf16_offset(s, bs[k].byte_start as int)
        &&& bs[k].utf16_end == utf16_offset(s, bs[k].byte_end as int)
    } by {
        assert(placed(s, bs[k]));
    }
}

/// Block `k + 1` of a parse starts where the rules put the block after
/// block `k`: right after it, or, in `Grouped` mode after an `Empty` block,
/// at the first non-blank line.
proof fn lemma_next_start(s: Seq<u8>, mode: ParseMode, scheme: Option<Seq<u8>>, bs: Seq<BlockNode>, k: int)
    requires
        layout(s, mode, bs, source_lines(s).len() as int),
        blocks_follow_rules(s, mode, scheme, bs),
        0 <= k < bs.len() - 1,
    ensures
        bs[k].line_end <= bs[k + 1].line_start,
        forall|j: int| bs[k].line_end <= j < bs[k + 1].line_start ==> line_blank(s, #[trigger] source_lines(s)[j]),
        bs[k].line_end < bs[k + 1].line_start ==> !line_blank(s, source_lines(s)[bs[k + 1].line_start as int]),
        bs[k].line_end < bs[k + 1].line_start ==> mode == ParseMode::Grouped && bs[k].kind is Empty,
{
    assert(gap_ok(s, mode, bs[k], bs[k + 1].line_start as int));
    assert(placed(s, bs[k + 1]));
    if bs[k].line_end < bs[k + 1].line_start {
        let j = bs[k + 1].line_start as int;
        if line_blank(s, source_lines(s)[j]) {
            assert(follows_rule(
                s,
                mode,
                scheme,
                bs[k + 1].line_start as int,
                bs[k + 1].line_end as int,
                bs[k + 1].kind,
                bs[k + 1].list_marker is Some,
            ));
            assert(bs[k + 1].kind is Empty);
            assert(!(bs[k].kind is Empty && bs[k + 1].kind is Empty));
        }
    }
}

/// Two first non-blank lines at or after `e` are the same line.
proof fn lemma_first_nonblank_unique(s: Seq<u8>, e: int, n1: int, n2: int)
    requires
        e <= n1,
        e <= n2,
        0 <= n1 < source_lines(s).len(),
        0 <= n2 < source_lines(s).len(),
        forall|j: int| e <= j < n1 ==> line_blank(s, #[trigger] source_lines(s)[j]),
        forall|j: int| e <= j < n2 ==> line_blank(s, #[trigger] source_lines(s)[j]),
        !line_blank(s, source_lines(s)[n1]),
        !line_blank(s, source_lines(s)[n2]),
    ensures
        n1 == n2,
{
    if n1 < n2 {
        assert(line_blank(s, source_lines(s)[n1]));
    } else if n2 < n1 {
        assert(line_blank(s, source_lines(s)[n2]));
    }
}

/// The blocks of two parses agree up to block `k`.
#[verifier::rlimit(40)]
proof fn lemma_unique_upto(
    s: Seq<u8>,
    mode: ParseMode,
    scheme: Option<Seq<u8>>,
    a: Seq<BlockNode>,
    b: Seq<BlockNode>,
    k: int,
)
    requires
        layout(s, mode, a, source_lines(s).len() as int),
        blocks_follow_rules(s, mode, scheme, a),
        layout(s, mode, b, source_lines(s).len() as int),
        blocks_follow_rules(s, mode, scheme, b),
        0 <= k < a.len(),
        k < b.len(),
    ensures
        a[k].line_start == b[k].line_start,
        a[k].line_end == b[k].line_end,
    decreases k,
{
    if k == 0 {
        assert(follows_rule(s, mode, scheme, a[0].line_start as int, a[0].line_end as int, a[0].kind, a[0].list_marker is Some));
        assert(follows_rule(s, mode, scheme, b[0].line_start as int, b[0].line_end as int, b[0].kind, b[0].list_marker is Some));
    } else {
        lemma_unique_upto(s, mode, scheme, a, b, k - 1);
        lemma_next_start(s, mode, scheme, a, k - 1);
        lemma_next_start(s, mode, scheme, b, k - 1);
        assert(placed(s, a[k]));
        assert(placed(s, b[k]));
        let e = a[k - 1].line_end as int;
        if a[k - 1].line_end < a[k].line_start || b[k - 1].line_end < b[k].line_start {
            let r = block_rule(s, mode, scheme, a[k - 1].line_start as int);
            assert(follows_rule(s, mode, scheme, a[k - 1].line_start as int, a[k - 1].line_end as int, a[k - 1].kind, a[k - 1].list_marker is Some));
            assert(follows_rule(s, mode, scheme, b[k - 1].line_start as int, b[k - 1].line_end as int, b[k - 1].kind, b[k - 1].list_marker is Some));
            assert(a[k - 1].kind is Empty <==> r.0 is Empty);
            assert(b[k - 1].kind is Empty <==> r.0 is Empty);
            if a[k - 1].line_end == a[k].line_start {
                // a's next block starts on a line that would be blank in b's gap.
                assert(!line_blank(s, source_lines(s)[b[k].line_start as int]));
                if a[k].line_start < b[k].line_start {
                    assert(line_blank(s, source_lines(s)[a[k].line_start as int]));
                    assert(follows_rule(s, mode, scheme, a[k].line_start as int, a[k].line_end as int, a[k].kind, a[k].list_marker is Some));
                    assert(a[k].kind is Empty);
                    assert(!(a[k - 1].kind is Empty && a[k].kind is Empty));
                }
            } else if b[k - 1].line_end == b[k].line_start {
                assert(!line_blank(s, source_lines(s)[a[k].line_start as int]));
                if b[k].line_start < a[k].line_start {
                    assert(line_blank(s, source_lines(s)[b[k].line_start as int]));
                    assert(follows_rule(s, mode, scheme, b[k].line_start as int, b[k].line_end as int, b[k].kind, b[k].list_marker is Some));
                    assert(b[k].kind is Empty);
                    assert(!(b[k - 1].kind is Empty && b[k].kind is Empty));
                }
            } else {
                lemma_first_nonblank_unique(s, e, a[k].line_start as int, b[k].line_start as int);
            }
        }
        assert(follows_rule(s, mode, scheme, a[k].line_start as int, a[k].line_end as int, a[k].kind, a[k].list_marker is Some));
        assert(follows_rule(s, mode, scheme, b[k].line_start as int, b[k].line_end as int, b[k].kind, b[k].list_marker is Some));
    }
}

/// Parsing is deterministic at the block level: two parses of the same
/// bytes in the same mode and with the same image-marker scheme have the
/// same line count and the same blocks, block for block: the same lines,
/// byte and UTF-16 ranges, the same rule for the first line (so kinds of the
/// same shape carrying the same stated fields), and list-marker metadata on
/// the same blocks.
pub proof fn lemma_parse_unique(s: Seq<u8>, mode: ParseMode, scheme: Option<Seq<u8>>, d1: Document, d2: Document)
    requires
        document_of(s, mode, d1),
        blocks_follow_rules(s, mode, scheme, d1.blocks@),
        document_of(s, mode, d2),
        blocks_follow_rules(s, mode, scheme, d2.blocks@),
    ensures
        d1.line_count == d2.line_count,
        d1.blocks@.len() == d2.blocks@.len(),
        forall|k: int|
            0 <= k < d1.blocks@.len() ==> {
                &&& (#[trigger] d1.blocks@[k]).line_start == d2.blocks@[k].line_start
                &&& d1.blocks@[k].line_end == d2.blocks@[k].line_end
                &&& d1.blocks@[k].byte_start == d2.blocks@[k].byte_start
                &&& d1.blocks@[k].byte_end == d2.blocks@[k].byte_end
                &&& d1.blocks@[k].utf16_start == d2.blocks@[k].utf16_start
                &&& d1.blocks@[k].utf16_end == d2.blocks@[k].utf16_end
                &&& (d1.blocks@[k].list_marker is Some <==> d2.blocks@[k].list_marker is Some)
            },
{
    let a = d1.blocks@;
    let b = d2.blocks@;
    let n = source_lines(s).len() as int;
    assert forall|k: int| 0 <= k < a.len() && k < b.len() implies {
        &&& (#[trigger] a[k]).line_start == b[k].line_start
        &&& a[k].line_end == b[k].line_end
        &&& a[k].byte_start == b[k].byte_start
        &&& a[k].byte_end == b[k].byte_end
        &&& a[k].utf16_start == b[k].utf16_start
        &&& a[k].utf16_end == b[k].utf16_end
        &&& (a[k].list_marker is Some <==> b[k].list_marker is Some)
    } by {
        lemma_unique_upto(s, mode, scheme, a, b, k);
        assert(placed(s, a[k]));
        assert(placed(s, b[k]));
        assert(follows_rule(s, mode, scheme, a[k].line_start as int, a[k].line_end as int, a[k].kind, a[k].list_marker is Some));
        assert(follows_rule(s, mode, scheme, b[k].line_start as int, b[k].line_end as int, b[k].kind, b[k].list_marker is Some));
    }
    lemma_more_blocks(s, mode, scheme, a, b);
    lemma_more_blocks(s, mode, scheme, b, a);
}

/// A parse has no block past the last block of another parse.
proof fn lemma_more_blocks(s: Seq<u8>, mode: ParseMode, scheme: Option<Seq<u8>>, a: Seq<BlockNode>, b: Seq<BlockNode>)
    requires
        layout(s, mode, a, source_lines(s).len() as int),
        blocks_follow_rules(s, mode, scheme, a),
        layout(s, mode, b, source_lines(s).len() as int),
        blocks_follow_rules(s, mode, scheme, b),
    ensures
        b.len() <= a.len(),
{
    let n = source_lines(s).len() as int;
    let m = a.len() as int;
    if m < b.len() {
        assert(placed(s, b[m]));
        if m == 0 {
            assert(b[0].line_start == 0);
        } else {
            lemma_unique_upto(s, mode, scheme, a, b, m - 1);
            lemma_next_start(s, mode, scheme, b, m - 1);
            assert(gap_ok(s, mode, a[m - 1], n));
            if b[m - 1].line_end < b[m].line_start {
                assert(line_blank(s, source_lines(s)[b[m].line_start as int]));
            }
        }
    }
}

/// In `Grouped` mode blank lines collapse: no two neighbouring blocks are
/// both `Empty`, and a line not covered by any block is blank and follows an
/// `Empty` block.
pub proof fn lemma_grouped_collapses_blanks(s: Seq<u8>, doc: Document)
    requires
        document_of(s, ParseMode::Grouped, doc),
    ensures
        forall|k: int|
            0 <= k < doc.blocks@.len() - 1 ==> !((#[trigger] doc.blocks@[k]).kind is Empty
                && doc.blocks@[k + 1].kind is Empty),
        forall|k: int|
            0 <= k < doc.blocks@.len() - 1 ==> (#[trigger] doc.blocks@[k]).line_end
                < doc.blocks@[k + 1].line_start ==> doc.blocks@[k].kind is Empty,
{
    let bs = doc.blocks@;
    assert forall|k: int| 0 <= k < bs.len() - 1 implies (#[trigger] bs[k]).line_end
        < bs[k + 1].line_start ==> bs[k].kind is Empty by {
        assert(gap_ok(s, ParseMode::Grouped, bs[k], bs[k + 1].line_start as int));
    }
}

/// Parse with an optional image-marker scheme.
fn parse_bytes(b: &[u8], mode: ParseMode, scheme: Option<&[u8]>) -> (doc: Document)
    requires
        b@.len() <= MAX_SOURCE_LEN,
    ensures
        document_of(b@, mode, doc),
        blocks_follow_rules(b@, mode, scheme_view(scheme), doc.blocks@),
{
    let map = Utf16Map::build(b);
    let lines = split_lines(b);
    proof {
        lemma_lines_facts(b@, lines@);
    }
    let mut blocks = parse_blocks(b, &lines, &map, mode, scheme);
    let ghost before = blocks@;
    proof {
        assert forall|k: int| 0 <= k < blocks@.len() implies (#[trigger] blocks@[k]).byte_start
            <= blocks@[k].byte_end <= b@.len() by {
            lemma_placed_bytes(b@, blocks@[k]);
        }
    }
    crate::inline::parse_inline_spans(&mut blocks, b, &map);
    proof {
        lemma_layout_spans(b@, mode, before, blocks@, lines@.len() as int);
        assert forall|k: int| 0 <= k < blocks@.len() implies follows_rule(
            b@,
            mode,
            scheme_view(scheme),
            (#[trigger] blocks@[k]).line_start as int,
            blocks@[k].line_end as int,
            blocks@[k].kind,
            blocks@[k].list_marker is Some,
        ) by {
            assert(crate::inline::same_but_spans(before[k], blocks@[k]));
        }
        reveal(blocks_spans_exact);
        assert forall|k: int| 0 <= k < blocks@.len() && crate::inline::inline_kept(b@, #[trigger] blocks@[k])
            implies blocks@[k].inline_spans@.len() == 0 by {
            assert(crate::inline::same_but_spans(before[k], blocks@[k]));
            assert(crate::inline::text_lo(before[k]) == crate::inline::text_lo(blocks@[k]));
            assert(crate::inline::text_hi(b@, before[k]) == crate::inline::text_hi(b@, blocks@[k]));
            assert(crate::inline::inline_kept(b@, before[k]));
        }
        assert forall|k: int| 0 <= k < blocks@.len() && !crate::inline::inline_kept(b@, #[trigger] blocks@[k])
            implies crate::inline::inline_spans_are(
                b@,
                crate::inline::text_lo(blocks@[k]),
                crate::inline::text_hi(b@, blocks@[k]),
                blocks@[k].inline_spans@,
            ) by {
            assert(crate::inline::same_but_spans(before[k], blocks@[k]));
            assert(crate::inline::text_lo(before[k]) == crate::inline::text_lo(blocks@[k]));
            assert(crate::inline::text_hi(b@, before[k]) == crate::inline::text_hi(b@, blocks@[k]));
            assert(!crate::inline::inline_kept(b@, before[k]));
        }
        assert(blocks_spans_exact(b@, blocks@));
    }
    Document { blocks, line_count: lines.len() as u32 }
}

/// A placed block's byte range lies in the source.
proof fn lemma_placed_bytes(s: Seq<u8>, blk: BlockNode)
    requires
        placed(s, blk),
    ensures
        blk.byte_start <= blk.byte_end <= s.len(),
{
    lemma_lines_shape(s, 0);
    let ls = source_lines(s);
    assert(ls[blk.line_start as int].0 <= ls[blk.line_start as int].2);
    assert(ls[blk.line_end - 1].0 <= ls[blk.line_end - 1].2 <= s.len());
    if blk.line_start < blk.line_end - 1 {
        lemma_lines_ordered(s, blk.line_start as int, blk.line_end - 1);
    }
}

/// Later lines start later.
proof fn lemma_lines_ordered(s: Seq<u8>, i: int, j: int)
    requires
        0 <= i <= j < source_lines(s).len(),
    ensures
        source_lines(s)[i].0 <= source_lines(s)[j].0,
    decreases j - i,
{
    lemma_lines_shape(s, 0);
    if i < j {
        lemma_lines_ordered(s, i, j - 1);
        let ls = source_lines(s);
        assert(ls[j - 1].2 == ls[j].0);
    }
}

/// Parse source text with options (the image-marker scheme).
pub fn parse_with_options(source: &str, mode: ParseMode, options: &ParseOptions) -> (doc: Document)
    requires
        source.spec_bytes().len() <= MAX_SOURCE_LEN,
    ensures
        document_of(source.spec_bytes(), mode, doc),
        blocks_follow_rules(source.spec_bytes(), mode, options.scheme_bytes(), doc.blocks@),
{
    let b = source.as_bytes();
    match &options.image_marker_scheme {
        Some(sc) => parse_bytes(b, mode, Some(sc.as_str().as_bytes())),
        None => parse_bytes(b, mode, None),
    }
}

/// Parse source text; `![](ember:<UUID>)` lines are image markers.
pub fn parse(source: &str, mode: ParseMode) -> (doc: Document)
    requires
        source.spec_bytes().len() <= MAX_SOURCE_LEN,
    ensures
        document_of(source.spec_bytes(), mode, doc),
        blocks_follow_rules(source.spec_bytes(), mode, Some(ember_scheme()), doc.blocks@),
{
    let scheme: [u8; 6] = [101u8, 109u8, 98u8, 101u8, 114u8, 58u8];
    proof {
        assert(scheme@ =~= ember_scheme());
    }
    parse_bytes(source.as_bytes(), mode, Some(scheme.as_slice()))
}


// ---------------------------------------------------------------------------
// Checkbox toggling
// ---------------------------------------------------------------------------

/// Start of the `k`-th `\n`-separated segment of `s`; past `s.len()` when
/// there are fewer segments.
pub open spec fn segment_start(s: Seq<u8>, k: nat) -> int
    decreases k,
{
    if k == 0 {
        0
    } else {
        let prev = segment_start(s, (k - 1) as nat);
        if prev > s.len() {
            prev
        } else {
            let nl = crate::text::find_byte_pos(s, prev, s.len() as int, 10u8);
            if nl >= s.len() {
                s.len() + 1int
            } else {
                nl + 1
            }
        }
    }
}

proof fn lemma_segment_start(s: Seq<u8>, k: nat)
    ensures
        0 <= segment_start(s, k) <= s.len() + 1,
    decreases k,
{
    if k > 0 {
        lemma_segment_start(s, (k - 1) as nat);
        let prev = segment_start(s, (k - 1) as nat);
        if prev <= s.len() {
            crate::text::lemma_find_byte_pos(s, prev, s.len() as int, 10u8);
        }
    }
}

/// The checkbox state byte of the line `s[lo..hi]`: inside the checkbox of
/// a checkbox list marker, or of a `- [ ]` item at any indentation (when
/// the line has no list marker at all).
pub open spec fn checkbox_state_pos(s: Seq<u8>, lo: int, hi: int) -> Option<int> {
    match list_marker(s, lo, hi) {
        Some(m) => if m.kind is Checkbox {
            Some(crate::text::find_byte_pos(s, m.marker_start as int, m.marker_end as int, 91u8) + 1)
        } else {
            None
        },
        None => {
            let a = crate::text::trim_start_pos(s, lo, hi);
            match crate::lines::checkbox_any_indent(s, a, hi) {
                Some(_) => Some(a + 3),
                None => None,
            }
        },
    }
}

/// The source after toggling the checkbox on line `idx`: the state byte
/// flips between ` ` and `x` (an `X` unchecks too); otherwise unchanged.
pub open spec fn toggled(s: Seq<u8>, idx: nat) -> Seq<u8> {
    let lo = segment_start(s, idx);
    if lo > s.len() {
        s
    } else {
        let hi = crate::text::find_byte_pos(s, lo, s.len() as int, 10u8);
        match checkbox_state_pos(s, lo, hi) {
            Some(p) => s.update(p, if s[p] == 32u8 { 120u8 } else { 32u8 }),
            None => s,
        }
    }
}

/// Toggle the checkbox on line `line_index` (lines split at `\n`),
/// returning the new content; the content comes back unchanged when the
/// line does not exist or holds no checkbox.
pub fn toggle_checkbox(content: &str, line_index: u32) -> (r: String)
    ensures
        r@ == lossy_text(toggled(content.spec_bytes(), line_index as nat)),
        r@ == vstd::utf8::decode_utf8(toggled(content.spec_bytes(), line_index as nat)),
{
    let b = content.as_bytes();
    let ghost s = b@;
    let n = b.len();
    proof {
        vstd::utf8::encode_utf8_valid_utf8(content@);
        assert(vstd::utf8::valid_utf8(s));
        lemma_toggled_valid(s, line_index as nat);
    }
    // Find the start of the line.
    let mut start: usize = 0;
    let mut k: u32 = 0;
    proof {
        lemma_segment_start(s, 0);
    }
    while k < line_index
        invariant
            n == s.len(),
            s == b@,
            b@ == content.spec_bytes(),
            vstd::utf8::valid_utf8(s),
            k <= line_index,
            start as int == segment_start(s, k as nat),
            start <= n,
        decreases line_index - k,
    {
        let nl = find_byte(b, start, n, 10u8);
        proof {
            lemma_segment_start(s, (k + 1) as nat);
        }
        if nl >= n {
            proof {
                assert(segment_start(s, (k + 1) as nat) == s.len() + 1);
                lemma_segment_past(s, (k + 1) as nat, line_index as nat);
                assert(toggled(s, line_index as nat) == s);
            }
            return string_from_bytes(b);
        }
        start = nl + 1;
        k = k + 1;
    }
    let end = find_byte(b, start, n, 10u8);
    let pos: Option<usize> = match parse_list_marker(b, start, end) {
        Some(m) => match m.kind {
            ParsedListKind::Checkbox(_) => {
                proof {
                    crate::lines::lemma_list_marker_checkbox(s, start as int, end as int);
                }
                Some(find_byte(b, m.marker_start, m.marker_end, 91u8) + 1)
            },
            _ => None,
        },
        None => {
            let a = trim_start(b, start, end);
            proof {
                crate::text::lemma_trim_start_bounds(b@, start as int, end as int);
            }
            match crate::lines::parse_checkbox_any_indent(b, a, end) {
                Some(_) => Some(a + 3),
                None => None,
            }
        },
    };
    match pos {
        Some(p) => {
            proof {
                lemma_checkbox_pos_in_range(s, start as int, end as int);
            }
            let mut v: Vec<u8> = Vec::new();
            push_range(&mut v, b, 0, n);
            let nb = if b[p] == 32u8 {
                120u8
            } else {
                32u8
            };
            v.set(p, nb);
            proof {
                assert(b@.subrange(0, n as int) =~= s);
                assert(v@ =~= toggled(s, line_index as nat));
            }
            string_from_bytes(v.as_slice())
        },
        None => string_from_bytes(b),
    }
}

/// Once the segments run out they stay out.
proof fn lemma_segment_past(s: Seq<u8>, k: nat, m: nat)
    requires
        k <= m,
        segment_start(s, k) > s.len(),
    ensures
        segment_start(s, m) > s.len(),
    decreases m - k,
{
    if k < m {
        lemma_segment_past(s, k, (m - 1) as nat);
    }
}

/// The checkbox state byte lies inside the line.
proof fn lemma_checkbox_pos_in_range(s: Seq<u8>, lo: int, hi: int)
    requires
        0 <= lo <= hi <= s.len(),
        s.len() <= usize::MAX,
    ensures
        checkbox_state_pos(s, lo, hi) matches Some(p) ==> lo <= p < hi,
{
    match list_marker(s, lo, hi) {
        Some(m) => {
            if m.kind is Checkbox {
                crate::lines::lemma_list_marker_checkbox(s, lo, hi);
            }
        },
        None => {
            crate::text::lemma_trim_start_bounds(s, lo, hi);
        },
    }
}


/// Position of the checkbox state byte on line `idx` of `s`, if the line
/// exists and holds a checkbox.
pub open spec fn toggle_pos(s: Seq<u8>, idx: nat) -> Option<int> {
    let lo = segment_start(s, idx);
    if lo > s.len() {
        None
    } else {
        checkbox_state_pos(s, lo, crate::text::find_byte_pos(s, lo, s.len() as int, 10u8))
    }
}

/// Replacing an ASCII byte of valid UTF-8 by an ASCII byte keeps it valid.
proof fn lemma_ascii_update_valid(s: Seq<u8>, p: int, b: u8)
    requires
        vstd::utf8::valid_utf8(s),
        0 <= p < s.len(),
        s[p] < 0x80,
        b < 0x80,
    ensures
        vstd::utf8::valid_utf8(s.update(p, b)),
{
    vstd::utf8::is_char_boundary_iff_not_is_continuation_byte(s, p);
    vstd::utf8::valid_utf8_split(s, p);
    let a = s.subrange(0, p);
    let c = s.subrange(p, s.len() as int);
    assert(c[0] == s[p]);
    assert(vstd::utf8::valid_utf8(c));
    let rest = vstd::utf8::pop_first_scalar(c);
    assert(rest =~= c.subrange(1, c.len() as int));
    let d = seq![b] + rest;
    assert(vstd::utf8::pop_first_scalar(d) =~= rest);
    assert(vstd::utf8::valid_utf8(d));
    vstd::utf8::valid_utf8_concat(a, d);
    assert(a + d =~= s.update(p, b));
}

/// Toggling a checkbox keeps valid UTF-8 valid.
proof fn lemma_toggled_valid(s: Seq<u8>, idx: nat)
    requires
        vstd::utf8::valid_utf8(s),
        s.len() <= usize::MAX,
    ensures
        vstd::utf8::valid_utf8(toggled(s, idx)),
{
    let lo = segment_start(s, idx);
    lemma_segment_start(s, idx);
    if lo <= s.len() {
        let hi = crate::text::find_byte_pos(s, lo, s.len() as int, 10u8);
        crate::text::lemma_find_byte_pos(s, lo, s.len() as int, 10u8);
        lemma_checkbox_pos_in_range(s, lo, hi);
        if let Some(p) = checkbox_state_pos(s, lo, hi) {
            lemma_state_byte(s, lo, hi);
            lemma_ascii_update_valid(s, p, if s[p] == 32u8 { 120u8 } else { 32u8 });
        }
    }
}

/// Toggling the checkbox on a line of a text twice gives the text back,
/// unless the checkbox's state is an upper-case `X` (see
/// `lemma_toggle_twice`): the text of the second toggle, made from the
/// text of the first, is the original.
pub proof fn lemma_toggle_text_twice(c: Seq<char>, idx: nat)
    requires
        vstd::utf8::encode_utf8(c).len() <= usize::MAX,
        toggle_pos(vstd::utf8::encode_utf8(c), idx) matches Some(p) ==> vstd::utf8::encode_utf8(c)[p]
            != 88u8,
    ensures
        vstd::utf8::decode_utf8(
            toggled(vstd::utf8::encode_utf8(vstd::utf8::decode_utf8(toggled(vstd::utf8::encode_utf8(c), idx))), idx),
        ) == c,
{
    let s = vstd::utf8::encode_utf8(c);
    vstd::utf8::encode_utf8_valid_utf8(c);
    lemma_toggled_valid(s, idx);
    vstd::utf8::decode_utf8_encode_utf8(toggled(s, idx));
    lemma_toggle_twice(s, idx);
    vstd::utf8::encode_utf8_decode_utf8(c);
}

/// Toggling the checkbox on a line twice gives the source back, unless its
/// state byte is an upper-case `X` (the first toggle unchecks it, the second
/// checks it with a lower-case `x`).
pub proof fn lemma_toggle_twice(s: Seq<u8>, idx: nat)
    requires
        s.len() <= usize::MAX,
        toggle_pos(s, idx) matches Some(p) ==> s[p] != 88u8,
    ensures
        toggled(toggled(s, idx), idx) == s,
{
    let lo = segment_start(s, idx);
    lemma_segment_start(s, idx);
    if lo <= s.len() {
        let hi = crate::text::find_byte_pos(s, lo, s.len() as int, 10u8);
        crate::text::lemma_find_byte_pos(s, lo, s.len() as int, 10u8);
        lemma_checkbox_pos_in_range(s, lo, hi);
        if let Some(p) = checkbox_state_pos(s, lo, hi) {
            lemma_state_byte(s, lo, hi);
            let t = s.update(p, if s[p] == 32u8 { 120u8 } else { 32u8 });
            assert(toggled(s, idx) == t);
            assert forall|j: int| 0 <= j < s.len() implies (s[j] == 10u8) == (t[j] == 10u8) by {}
            lemma_segment_same(s, t, idx);
            lemma_find_same(s, t, lo, s.len() as int, 10u8);
            lemma_state_pos_same(s, t, lo, hi, p);
            assert(toggled(t, idx) =~= s);
        }
    }
}

/// The checkbox state byte is a blank, `x` or `X`.
proof fn lemma_state_byte(s: Seq<u8>, lo: int, hi: int)
    requires
        0 <= lo <= hi <= s.len(),
        s.len() <= usize::MAX,
    ensures
        checkbox_state_pos(s, lo, hi) matches Some(p) ==> (s[p] == 32u8 || s[p] == 120u8 || s[p]
            == 88u8),
{
    match list_marker(s, lo, hi) {
        Some(m) => {
            if m.kind is Checkbox {
                crate::lines::lemma_list_marker_checkbox(s, lo, hi);
                lemma_marker_checkbox_at(s, lo, hi);
            }
        },
        None => {
            crate::text::lemma_trim_start_bounds(s, lo, hi);
        },
    }
}

/// The `[` of a checkbox list marker starts its checkbox tail.
proof fn lemma_marker_checkbox_at(s: Seq<u8>, lo: int, hi: int)
    requires
        0 <= lo <= hi <= s.len(),
        s.len() <= usize::MAX,
        list_marker(s, lo, hi) matches Some(m) && m.kind is Checkbox,
    ensures
        ({
            let m = list_marker(s, lo, hi)->0;
            let ms = crate::lines::lead_end(s, lo, hi);
            let be = crate::lines::marker_space_end(s, ms + 2, hi);
            &&& m.marker_start == ms
            &&& crate::text::find_byte_pos(s, m.marker_start as int, m.marker_end as int, 91u8) == be
            &&& crate::lines::checkbox_tail(s, be, hi) is Some
            &&& ms + 2 <= be
        }),
{
    let ms = crate::lines::lead_end(s, lo, hi);
    crate::lines::lemma_lead_end(s, lo, hi);
    crate::lines::lemma_marker_space_end(s, ms + 2, hi);
    let be = crate::lines::marker_space_end(s, ms + 2, hi);
    let m = list_marker(s, lo, hi)->0;
    assert forall|j: int| ms <= j < be implies s[j] != 91u8 by {
        if j > ms + 1 {
            assert(crate::lines::marker_space(s[j]));
        }
    }
    if be + 4 <= hi {
        crate::lines::lemma_marker_space_end(s, be + 4, hi);
    }
    crate::lines::lemma_find_at(s, ms, be, m.marker_end as int, 91u8);
}

/// The same positions hold byte `c`: the same first `c`.
proof fn lemma_find_same(s: Seq<u8>, t: Seq<u8>, lo: int, hi: int, c: u8)
    requires
        0 <= lo,
        hi <= s.len(),
        s.len() == t.len(),
        forall|j: int| lo <= j < hi ==> (s[j] == c) == (t[j] == c),
    ensures
        crate::text::find_byte_pos(t, lo, hi, c) == crate::text::find_byte_pos(s, lo, hi, c),
    decreases hi - lo,
{
    if lo < hi {
        lemma_find_same(s, t, lo + 1, hi, c);
    }
}

/// The same line breaks: the same line starts.
proof fn lemma_segment_same(s: Seq<u8>, t: Seq<u8>, k: nat)
    requires
        s.len() == t.len(),
        forall|j: int| 0 <= j < s.len() ==> (s[j] == 10u8) == (t[j] == 10u8),
    ensures
        segment_start(t, k) == segment_start(s, k),
    decreases k,
{
    if k > 0 {
        lemma_segment_same(s, t, (k - 1) as nat);
        lemma_segment_start(s, (k - 1) as nat);
        let prev = segment_start(s, (k - 1) as nat);
        if prev <= s.len() {
            lemma_find_same(s, t, prev, s.len() as int, 10u8);
        }
    }
}

/// `s` and `t` have the same length and the same bytes but at `p`.
spec fn agree_but(s: Seq<u8>, t: Seq<u8>, p: int) -> bool {
    &&& s.len() == t.len()
    &&& forall|j: int| #![trigger t[j]] 0 <= j < s.len() && j != p ==> s[j] == t[j]
}

/// A run of spaces and tabs that ends before the differing byte.
proof fn lemma_lead_end_same(s: Seq<u8>, t: Seq<u8>, q: int, hi: int, p: int)
    requires
        0 <= q <= hi <= s.len(),
        agree_but(s, t, p),
        p < q || crate::lines::lead_end(s, q, hi) < p,
    ensures
        crate::lines::lead_end(t, q, hi) == crate::lines::lead_end(s, q, hi),
    decreases hi - q,
{
    crate::lines::lemma_lead_end(s, q, hi);
    if q < hi {
        assert(t[q] == s[q]);
        if s[q] == 32u8 || s[q] == 9u8 {
            lemma_lead_end_same(s, t, q + 1, hi, p);
        }
    }
}

/// The column count of bytes before the differing one.
proof fn lemma_lead_cols_same(s: Seq<u8>, t: Seq<u8>, lo: int, e: int, p: int)
    requires
        0 <= lo,
        e <= s.len(),
        agree_but(s, t, p),
        p < lo || e <= p,
    ensures
        crate::lines::lead_cols(t, lo, e) == crate::lines::lead_cols(s, lo, e),
    decreases e - lo,
{
    if e > lo {
        assert(t[e - 1] == s[e - 1]);
        lemma_lead_cols_same(s, t, lo, e - 1, p);
    }
}

/// A run of marker spaces that ends before the differing byte.
proof fn lemma_space_end_same(s: Seq<u8>, t: Seq<u8>, q: int, hi: int, p: int)
    requires
        0 <= q <= hi <= s.len(),
        agree_but(s, t, p),
        p < q || crate::lines::marker_space_end(s, q, hi) < p,
    ensures
        crate::lines::marker_space_end(t, q, hi) == crate::lines::marker_space_end(s, q, hi),
    decreases hi - q,
{
    crate::lines::lemma_marker_space_end(s, q, hi);
    if q < hi {
        assert(t[q] == s[q]);
        if crate::lines::marker_space(s[q]) {
            lemma_space_end_same(s, t, q + 1, hi, p);
        }
    }
}

/// Leading whitespace that ends well before the differing byte.
proof fn lemma_trim_start_same(s: Seq<u8>, t: Seq<u8>, lo: int, hi: int, p: int)
    requires
        0 <= lo <= hi <= s.len(),
        agree_but(s, t, p),
        p < lo || crate::text::trim_start_pos(s, lo, hi) + 3 <= p,
    ensures
        crate::text::trim_start_pos(t, lo, hi) == crate::text::trim_start_pos(s, lo, hi),
    decreases hi - lo,
{
    crate::text::lemma_trim_start_bounds(s, lo, hi);
    if lo < hi {
        assert(t[lo] == s[lo]);
        if lo + 1 < s.len() {
            assert(t[lo + 1] == s[lo + 1]);
        }
        if lo + 2 < s.len() {
            assert(t[lo + 2] == s[lo + 2]);
        }
        assert(crate::text::ws_len(t, lo) == crate::text::ws_len(s, lo));
        if crate::text::ws_len(s, lo) > 0 && lo + crate::text::ws_len(s, lo) <= hi {
            lemma_trim_start_same(s, t, lo + crate::text::ws_len(s, lo), hi, p);
        }
    }
}

/// Flipping the state byte of a checkbox keeps it a checkbox, with its
/// state byte in the same place.
proof fn lemma_state_pos_same(s: Seq<u8>, t: Seq<u8>, lo: int, hi: int, p: int)
    requires
        0 <= lo <= hi <= s.len(),
        s.len() <= usize::MAX,
        checkbox_state_pos(s, lo, hi) == Some(p),
        s[p] == 32u8 || s[p] == 120u8,
        t == s.update(p, if s[p] == 32u8 { 120u8 } else { 32u8 }),
    ensures
        checkbox_state_pos(t, lo, hi) == Some(p),
{
    lemma_checkbox_pos_in_range(s, lo, hi);
    assert(agree_but(s, t, p));
    assert forall|j: int| 0 <= j < s.len() implies (s[j] == 91u8) == (t[j] == 91u8) by {}
    let ms = crate::lines::lead_end(s, lo, hi);
    crate::lines::lemma_lead_end(s, lo, hi);
    match list_marker(s, lo, hi) {
        Some(m) => {
            lemma_marker_checkbox_at(s, lo, hi);
            let be = crate::lines::marker_space_end(s, ms + 2, hi);
            crate::lines::lemma_marker_space_end(s, ms + 2, hi);
            assert(p == be + 1);
            lemma_lead_end_same(s, t, lo, hi, p);
            lemma_lead_cols_same(s, t, lo, ms, p);
            lemma_space_end_same(s, t, ms + 2, hi, p);
            assert(t[ms] == s[ms]);
            assert(t[ms + 1] == s[ms + 1]);
            assert(t[be] == s[be]);
            assert(t[be + 2] == s[be + 2]);
            if be + 3 < hi {
                assert(t[be + 3] == s[be + 3]);
                lemma_space_end_same(s, t, be + 4, hi, p);
            }
            let mt = list_marker(t, lo, hi)->0;
            assert(list_marker(t, lo, hi) is Some);
            assert(mt.kind is Checkbox);
            assert(mt.marker_start == m.marker_start && mt.marker_end == m.marker_end);
            if be + 4 <= hi {
                crate::lines::lemma_marker_space_end(s, be + 4, hi);
            }
            assert(m.marker_end <= hi);
            lemma_find_same(s, t, m.marker_start as int, m.marker_end as int, 91u8);
        },
        None => {
            let a = crate::text::trim_start_pos(s, lo, hi);
            crate::text::lemma_trim_start_bounds(s, lo, hi);
            assert(p == a + 3);
            lemma_trim_start_same(s, t, lo, hi, p);
            assert(t[a] == s[a]);
            assert(t[a + 1] == s[a + 1]);
            assert(t[a + 2] == s[a + 2]);
            assert(t[a + 4] == s[a + 4]);
            if a + 5 < hi {
                assert(t[a + 5] == s[a + 5]);
                lemma_space_end_same(s, t, a + 6, hi, p);
            }
            assert(crate::lines::checkbox_any_indent(t, a, hi) is Some);
            // No list marker appears: the run of spaces from `lo` is the same.
            crate::lines::lemma_lead_before_trim(s, lo, hi);
            lemma_lead_end_same(s, t, lo, hi, p);
            lemma_lead_cols_same(s, t, lo, ms, p);
            if ms < hi {
                assert(t[ms] == s[ms]);
                if ms + 1 < hi {
                    assert(t[ms + 1] == s[ms + 1]);
                }
                assert(ms <= a) by {
                    if ms > a {
                        assert(s[a] == 32u8);
                    }
                }
            }
            assert(list_marker(t, lo, hi) is None);
        },
    }
}


// ---------------------------------------------------------------------------
// Wiki link extraction
// ---------------------------------------------------------------------------

/// `s[lo..e]` with backtick-delimited inline code removed (`in_code`: inside
/// a code span at `lo`).
pub open spec fn uncode(s: Seq<u8>, lo: int, e: int, in_code: bool) -> Seq<u8>
    decreases e - lo,
{
    if lo >= e {
        Seq::empty()
    } else if s[lo] == 96u8 {
        uncode(s, lo + 1, e, !in_code)
    } else if in_code {
        uncode(s, lo + 1, e, in_code)
    } else {
        seq![s[lo]] + uncode(s, lo + 1, e, in_code)
    }
}

/// The text from line start `p` on, without fenced code blocks and inline
/// code, each kept line followed by `\n` (lines as `str::lines` splits them).
pub open spec fn code_stripped(s: Seq<u8>, p: int, in_block: bool) -> Seq<u8>
    decreases s.len() - p,
{
    if p < 0 || p >= s.len() {
        Seq::empty()
    } else {
        let nl = crate::text::find_byte_pos(s, p, s.len() as int, 10u8);
        let te = if nl < s.len() && nl > p && s[nl - 1] == 13u8 {
            nl - 1
        } else {
            nl
        };
        let next = if nl < s.len() {
            nl + 1
        } else {
            s.len() as int
        };
        if next <= p {
            Seq::empty()
        } else if starts_with_at(s, trimmed(s, p, te).0, trimmed(s, p, te).1, seq![96u8, 96u8, 96u8]) {
            code_stripped(s, next, !in_block)
        } else if in_block {
            code_stripped(s, next, in_block)
        } else {
            uncode(s, p, te, false) + seq![10u8] + code_stripped(s, next, in_block)
        }
    }
}

/// Append `uncode(b, lo, e, false)` to `out`.
fn push_uncoded(out: &mut Vec<u8>, b: &[u8], lo: usize, e: usize)
    requires
        lo <= e <= b@.len(),
    ensures
        final(out)@ == old(out)@ + uncode(b@, lo as int, e as int, false),
{
    let ghost start = out@;
    let mut k = lo;
    let mut in_code = false;
    while k < e
        invariant
            lo <= k <= e <= b@.len(),
            start + uncode(b@, lo as int, e as int, false) == out@ + uncode(
                b@,
                k as int,
                e as int,
                in_code,
            ),
        decreases e - k,
    {
        let c = b[k];
        if c == 96u8 {
            in_code = !in_code;
        } else if !in_code {
            out.push(c);
            proof {
                assert(uncode(b@, k as int, e as int, false) == seq![c] + uncode(
                    b@,
                    k + 1,
                    e as int,
                    false,
                ));
            }
        }
        k = k + 1;
    }
    proof {
        assert(out@ + uncode(b@, e as int, e as int, in_code) =~= out@);
    }
}

/// The text without fenced code blocks and inline code spans.
pub fn strip_code_blocks(b: &[u8]) -> (out: Vec<u8>)
    ensures
        out@ == code_stripped(b@, 0, false),
{
    let n = b.len();
    let mut out: Vec<u8> = Vec::new();
    let mut p: usize = 0;
    let mut in_block = false;
    while p < n
        invariant
            p <= n == b@.len(),
            out@ + code_stripped(b@, p as int, in_block) == code_stripped(b@, 0, false),
        decreases n - p,
    {
        let nl = find_byte(b, p, n, 10u8);
        let te = if nl < n && nl > p && b[nl - 1] == 13u8 {
            nl - 1
        } else {
            nl
        };
        let next = if nl < n {
            nl + 1
        } else {
            n
        };
        let (a, z) = trim(b, p, te);
        if is_fence(b, a, z) {
            in_block = !in_block;
        } else if !in_block {
            let ghost before = out@;
            push_uncoded(&mut out, b, p, te);
            out.push(10u8);
            proof {
                assert(out@ == before + uncode(b@, p as int, te as int, false) + seq![10u8]);
            }
        }
        p = next;
    }
    proof {
        assert(out@ + code_stripped(b@, p as int, in_block) =~= out@);
    }
    out
}

/// First `i >= p` with `t[i] == t[i + 1] == c` (or `t.len()`).
pub open spec fn find_pair(t: Seq<u8>, p: int, c: u8) -> int
    decreases t.len() - p,
{
    if p < 0 || p + 1 >= t.len() {
        t.len() as int
    } else if t[p] == c && t[p + 1] == c {
        p
    } else {
        find_pair(t, p + 1, c)
    }
}

pub proof fn lemma_find_pair_pub(t: Seq<u8>, p: int, c: u8)
    requires
        0 <= p,
    ensures
        find_pair(t, p, c) == t.len() || (p <= find_pair(t, p, c) && find_pair(t, p, c) + 1
            < t.len()),
{
    lemma_find_pair(t, p, c);
}

proof fn lemma_find_pair(t: Seq<u8>, p: int, c: u8)
    requires
        0 <= p,
    ensures
        find_pair(t, p, c) == t.len() || (p <= find_pair(t, p, c) && find_pair(t, p, c) + 1
            < t.len()),
    decreases t.len() - p,
{
    if p + 1 < t.len() && !(t[p] == c && t[p + 1] == c) {
        lemma_find_pair(t, p + 1, c);
    }
}

pub fn find_pair_exec(t: &[u8], p: usize, c: u8) -> (r: usize)
    ensures
        r == find_pair(t@, p as int, c),
{
    proof {
        lemma_find_pair(t@, p as int, c);
    }
    let n = t.len();
    let mut i = p;
    while i < n && i + 1 < n
        invariant
            p <= i,
            n == t@.len(),
            find_pair(t@, p as int, c) == find_pair(t@, i as int, c),
        decreases n - i,
    {
        if t[i] == c && t[i + 1] == c {
            return i;
        }
        i = i + 1;
    }
    n
}

/// Wiki link targets of `t` from `p`: for each `[[body]]`, the body up to
/// its first `|`, trimmed, when not empty; an unclosed `[[` ends the scan.
pub open spec fn wiki_targets(t: Seq<u8>, p: int) -> Seq<(int, int)>
    decreases t.len() - p,
{
    let op = find_pair(t, p, 91u8);
    if p < 0 || op >= t.len() || op < p {
        Seq::empty()
    } else {
        let close = find_pair(t, op + 2, 93u8);
        if close + 1 >= t.len() || close < op + 2 {
            Seq::empty()
        } else {
            let bar = crate::text::find_byte_pos(t, op + 2, close, 124u8);
            let tr = trimmed(t, op + 2, bar);
            if tr.0 < tr.1 {
                seq![tr] + wiki_targets(t, close + 2)
            } else {
                wiki_targets(t, close + 2)
            }
        }
    }
}

/// Wiki link titles of `content`, skipping fenced and inline code.
pub fn extract_wiki_links(content: &str) -> (links: Vec<String>)
    ensures
        ({
            let t = code_stripped(content.spec_bytes(), 0, false);
            let w = wiki_targets(t, 0);
            &&& links@.len() == w.len()
            &&& forall|k: int|
                0 <= k < links@.len() ==> (#[trigger] links@[k])@ == lossy_text(
                    t.subrange(w[k].0, w[k].1),
                )
        }),
{
    let stripped = strip_code_blocks(content.as_bytes());
    let t = stripped.as_slice();
    let ghost ts = t@;
    let n = t.len();
    let mut links: Vec<String> = Vec::new();
    let mut p: usize = 0;
    let ghost mut acc: Seq<(int, int)> = Seq::empty();
    loop
        invariant
            p <= n == ts.len(),
            t@ == ts,
            ts == code_stripped(content.spec_bytes(), 0, false),
            acc + wiki_targets(ts, p as int) == wiki_targets(ts, 0),
            links@.len() == acc.len(),
            forall|k: int|
                0 <= k < links@.len() ==> (#[trigger] links@[k])@ == lossy_text(
                    ts.subrange(acc[k].0, acc[k].1),
                ),
        decreases n - p,
    {
        let op = find_pair_exec(t, p, 91u8);
        proof {
            lemma_find_pair(ts, p as int, 91u8);
        }
        if op >= n {
            proof {
                assert(wiki_targets(ts, p as int) == Seq::<(int, int)>::empty());
                assert(acc =~= wiki_targets(ts, 0));
            }
            return links;
        }
        let close = find_pair_exec(t, op + 2, 93u8);
        proof {
            lemma_find_pair(ts, op + 2, 93u8);
        }
        if close >= n {
            proof {
                assert(wiki_targets(ts, p as int) == Seq::<(int, int)>::empty());
                assert(acc =~= wiki_targets(ts, 0));
            }
            return links;
        }
        let bar = find_byte(t, op + 2, close, 124u8);
        let (a, z) = trim(t, op + 2, bar);
        if a < z {
            links.push(string_from_range(t, a, z));
            proof {
                acc = acc.push((a as int, z as int));
            }
        }
        p = close + 2;
    }
}

} // verus!
