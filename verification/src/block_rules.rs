//! Which block each source line starts, stated over the source bytes.
//!
//! `block_rule` gives, for the first line of a block, the shape of the block
//! and the line after it; `kind_fits` says what the block's kind carries for
//! that shape. The parser's contract states that every block it returns
//! follows these rules.
use vstd::prelude::*;
use vstd::utf8::encode_utf8;
use vstd::string::StringSliceAdditionalSpecFns;
use crate::ast::{BlockKind, ListMarkerMeta, ParseMode};
use crate::utf16::utf16_offset;
use crate::lines::{
    source_lines, trimmed, blank, indented_code_line, code_line, heading_marker, setext_underline,
    horizontal_rule, list_marker, ParsedListKind, ParsedListMarker, image_marker_line, footnote_def, table_row,
    table_separator, code_indent_end,
};
use crate::parser::{row_cells, alignment_of, MAX_TABLE_COLUMNS, MAX_TABLE_ROWS};
use crate::text::{starts_with_at, utf8_text, trim_start_pos, find_byte_pos, ws_len};
use crate::ast::{kw_is, mermaid_type_of, mermaid_keyword};

verus! {

/// The shape of the block that a line starts.
pub enum BlockShape {
    Empty,
    ImageMarker,
    IndentedCode,
    FencedCode,
    Table,
    HorizontalRule,
    AtxHeading,
    Quote,
    Checkbox,
    BulletList,
    BulletItem,
    OrderedList,
    NumberedItem,
    FootnoteDefinition,
    Paragraph,
    SetextHeading,
}

/// Line `k` of `s` trimmed of whitespace on both sides.
pub open spec fn line_trim(s: Seq<u8>, k: int) -> (int, int) {
    trimmed(s, source_lines(s)[k].0, source_lines(s)[k].1)
}

/// Line `k` of `s` holds only whitespace.
pub open spec fn line_is_blank(s: Seq<u8>, k: int) -> bool {
    blank(s, source_lines(s)[k].0, source_lines(s)[k].1)
}

/// The trimmed range starts with a code fence.
pub open spec fn fence_at(s: Seq<u8>, lo: int, hi: int) -> bool {
    starts_with_at(s, lo, hi, seq![96u8, 96u8, 96u8])
}

/// The trimmed range is a quote line: `> ` or a lone `>`.
pub open spec fn quote_line(s: Seq<u8>, lo: int, hi: int) -> bool {
    starts_with_at(s, lo, hi, seq![62u8, 32u8]) || (hi - lo == 1 && s[lo] == 62u8)
}

/// Content range of a quote line.
pub open spec fn quote_body(s: Seq<u8>, lo: int, hi: int) -> (int, int) {
    if starts_with_at(s, lo, hi, seq![62u8, 32u8]) {
        (lo + 2, hi)
    } else {
        (hi, hi)
    }
}

/// The range starts (after whitespace) with a callout header `[!kind]` of a
/// known kind.
pub open spec fn callout_header(s: Seq<u8>, lo: int, hi: int) -> bool {
    let a = trim_start_pos(s, lo, hi);
    let close = find_byte_pos(s, a + 2, hi, 93u8);
    hi - a >= 2 && s[a] == 91u8 && s[a + 1] == 33u8 && close < hi
        && crate::ast::callout_kind_of(s.subrange(a + 2, close)) is Some
}

/// First position in `[p, hi)` where a whitespace character starts, or
/// `hi` when there is none.
pub open spec fn first_ws(s: Seq<u8>, p: int, hi: int) -> int
    decreases hi - p,
{
    if p >= hi {
        hi
    } else if ws_len(s, p) > 0 {
        p
    } else {
        first_ws(s, p + 1, hi)
    }
}

/// Language of a fenced block whose trimmed first line is `[lo, hi)`: the
/// first word of the info string after the fence, none when the info string
/// is empty.
pub open spec fn fence_language(s: Seq<u8>, lo: int, hi: int) -> Option<Seq<char>> {
    let info = trimmed(s, lo + 3, hi);
    if info.0 == info.1 {
        None
    } else {
        Some(utf8_text(s.subrange(info.0, first_ws(s, info.0, info.1))))
    }
}

/// A fence language names a mermaid diagram (ASCII case ignored).
pub open spec fn names_mermaid(lang: Option<Seq<char>>) -> bool {
    lang is Some && kw_is(encode_utf8(lang->0), "mermaid".spec_bytes())
}

/// The text of an optional string.
pub open spec fn opt_text(o: Option<String>) -> Option<Seq<char>> {
    match o {
        Some(x) => Some(x@),
        None => None,
    }
}

/// How a line contributes to the text of its block.
pub enum LinePart {
    /// The whole line, without its line break.
    Raw,
    /// The line without its code indent; nothing for a line that is not
    /// indented code.
    Code,
    /// The text after the quote marker.
    Quote,
}

/// What line `k` contributes to the text of its block.
pub open spec fn line_part(s: Seq<u8>, k: int, how: LinePart) -> Seq<u8> {
    let l = source_lines(s)[k];
    match how {
        LinePart::Raw => s.subrange(l.0, l.1),
        LinePart::Code => if indented_code_line(s, l.0, l.1) {
            s.subrange(code_indent_end(s, l.0, l.1), l.1)
        } else {
            Seq::empty()
        },
        LinePart::Quote => {
            let q = quote_body(s, line_trim(s, k).0, line_trim(s, k).1);
            s.subrange(q.0, q.1)
        },
    }
}

/// The parts of lines `a..b` joined with `\n`.
pub open spec fn joined_lines(s: Seq<u8>, a: int, b: int, how: LinePart) -> Seq<u8>
    decreases b - a,
{
    if b <= a {
        Seq::empty()
    } else if b == a + 1 {
        line_part(s, a, how)
    } else {
        joined_lines(s, a, b - 1, how) + seq![10u8] + line_part(s, b - 1, how)
    }
}

/// The line of the closing fence at or after line `k` (the line count when
/// there is none): the code of a fenced block ends there.
pub open spec fn fence_body_end(s: Seq<u8>, k: int) -> int
    decreases source_lines(s).len() - k,
{
    if k >= source_lines(s).len() {
        source_lines(s).len() as int
    } else if fence_at(s, line_trim(s, k).0, line_trim(s, k).1) {
        k
    } else {
        fence_body_end(s, k + 1)
    }
}

/// Start of the callout name and the position of the `]` closing it, for a
/// quote body `[lo, hi)`.
pub open spec fn callout_name_range(s: Seq<u8>, lo: int, hi: int) -> (int, int) {
    let a = trim_start_pos(s, lo, hi);
    (a + 2, find_byte_pos(s, a + 2, hi, 93u8))
}

/// Title of a callout header in `[lo, hi)`: the rest of the line after the
/// `]` and an optional fold marker `+`/`-`, trimmed; none when empty.
pub open spec fn callout_title(s: Seq<u8>, lo: int, hi: int) -> Option<Seq<char>> {
    let close = callout_name_range(s, lo, hi).1;
    let rest = if close + 1 < hi && (s[close + 1] == 43u8 || s[close + 1] == 45u8) {
        close + 2
    } else {
        close + 1
    };
    let t = trimmed(s, rest, hi);
    if t.0 == t.1 {
        None
    } else {
        Some(utf8_text(s.subrange(t.0, t.1)))
    }
}

/// The cell texts of the table row `[lo, hi)`.
pub open spec fn cells_fit(s: Seq<u8>, lo: int, hi: int, cells: Seq<String>) -> bool {
    let c = row_cells(s, lo, hi);
    &&& cells.len() == c.len()
    &&& forall|j: int|
        0 <= j < c.len() ==> (#[trigger] cells[j])@ == utf8_text(s.subrange(c[j].0, c[j].1))
}

/// The column alignments of the separator row `[lo, hi)`.
pub open spec fn alignments_fit(s: Seq<u8>, lo: int, hi: int, al: Seq<crate::ast::ColumnAlignment>) -> bool {
    let c = row_cells(s, lo, hi);
    &&& al.len() == c.len()
    &&& forall|j: int| 0 <= j < c.len() ==> #[trigger] al[j] == alignment_of(s, c[j].0, c[j].1)
}

/// Item texts of the grouped list on lines `i..k`: a marker line starts an
/// item with the text after its marker; an unmarked line continues the last
/// item after a space, trimmed.
pub open spec fn item_texts(s: Seq<u8>, i: int, k: int) -> Seq<Seq<u8>>
    decreases k - i,
{
    if k <= i {
        Seq::empty()
    } else {
        let prev = item_texts(s, i, k - 1);
        let l = source_lines(s)[k - 1];
        match list_marker(s, l.0, l.1) {
            Some(m) => prev.push(s.subrange(m.content_start as int, l.1)),
            None => if prev.len() == 0 {
                prev
            } else {
                let t = line_trim(s, k - 1);
                prev.update(prev.len() - 1, prev.last() + seq![32u8] + s.subrange(t.0, t.1))
            },
        }
    }
}

/// The list items carry the item texts of lines `i..end`.
pub open spec fn items_fit(s: Seq<u8>, i: int, end: int, items: Seq<crate::ast::ListItem>) -> bool {
    let t = item_texts(s, i, end);
    &&& items.len() == t.len()
    &&& forall|j: int| 0 <= j < t.len() ==> (#[trigger] items[j]).text@ == utf8_text(t[j])
}

/// End of an indented code block whose lines so far end at `end`: the run
/// of indented-code lines (`code_line`) and blank lines from `k`, without
/// trailing blank lines.
pub open spec fn code_run_end(s: Seq<u8>, k: int, end: int) -> int
    decreases source_lines(s).len() - k,
{
    if k >= source_lines(s).len() {
        end
    } else if code_line(s, source_lines(s)[k].0, source_lines(s)[k].1) {
        code_run_end(s, k + 1, k + 1)
    } else if line_is_blank(s, k) {
        code_run_end(s, k + 1, end)
    } else {
        end
    }
}

/// The line after the closing fence at or after line `k` (the line count
/// when there is none).
pub open spec fn fence_close(s: Seq<u8>, k: int) -> int
    decreases source_lines(s).len() - k,
{
    if k >= source_lines(s).len() {
        source_lines(s).len() as int
    } else if fence_at(s, line_trim(s, k).0, line_trim(s, k).1) {
        k + 1
    } else {
        fence_close(s, k + 1)
    }
}

/// End of the run of table-row lines from line `k`.
pub open spec fn table_rows_end(s: Seq<u8>, k: int) -> int
    decreases source_lines(s).len() - k,
{
    if k >= source_lines(s).len() {
        source_lines(s).len() as int
    } else if table_row(s, line_trim(s, k).0, line_trim(s, k).1) {
        table_rows_end(s, k + 1)
    } else {
        k
    }
}

/// End of the run of quote lines from line `k`.
pub open spec fn quote_run_end(s: Seq<u8>, k: int) -> int
    decreases source_lines(s).len() - k,
{
    if k >= source_lines(s).len() {
        source_lines(s).len() as int
    } else if quote_line(s, line_trim(s, k).0, line_trim(s, k).1) {
        quote_run_end(s, k + 1)
    } else {
        k
    }
}

/// Line `k` carries an item of a grouped list: a bullet with byte `mark`,
/// or (`ordered`) a numbered marker with delimiter `mark`.
pub open spec fn list_item_line(s: Seq<u8>, k: int, ordered: bool, mark: Option<u8>) -> bool {
    match list_marker(s, source_lines(s)[k].0, source_lines(s)[k].1) {
        Some(m) => if ordered {
            m.kind is Ordered && m.ordered_delimiter == mark
        } else {
            m.kind is Bullet && m.unordered_marker == mark
        },
        None => false,
    }
}

/// End of a grouped list from line `k`: item lines of the same kind and
/// mark, and unmarked non-blank lines that continue the last item.
pub open spec fn list_run_end(s: Seq<u8>, k: int, ordered: bool, mark: Option<u8>) -> int
    decreases source_lines(s).len() - k,
{
    if k >= source_lines(s).len() {
        source_lines(s).len() as int
    } else if list_item_line(s, k, ordered, mark) {
        list_run_end(s, k + 1, ordered, mark)
    } else if list_marker(s, source_lines(s)[k].0, source_lines(s)[k].1) is None && !line_is_blank(
        s,
        k,
    ) {
        list_run_end(s, k + 1, ordered, mark)
    } else {
        k
    }
}

/// Line `k` starts a table: a table row, a separator row on the next line,
/// and at most `MAX_TABLE_COLUMNS` header cells.
pub open spec fn table_start(s: Seq<u8>, k: int) -> bool {
    let t = line_trim(s, k);
    &&& table_row(s, t.0, t.1)
    &&& k < source_lines(s).len() - 1
    &&& table_separator(s, line_trim(s, k + 1).0, line_trim(s, k + 1).1)
    &&& row_cells(s, t.0, t.1).len() <= MAX_TABLE_COLUMNS
}

/// Line `k` ends a paragraph (`nonempty`: the paragraph already has lines,
/// so a setext underline ends it too).
pub open spec fn para_break_at(s: Seq<u8>, k: int, nonempty: bool) -> bool {
    let l = source_lines(s)[k];
    let t = line_trim(s, k);
    ||| t.0 == t.1
    ||| fence_at(s, t.0, t.1)
    ||| heading_marker(s, t.0, t.1) is Some
    ||| starts_with_at(s, t.0, t.1, seq![62u8, 32u8])
    ||| horizontal_rule(s, t.0, t.1)
    ||| list_marker(s, l.0, l.1) is Some
    ||| footnote_def(s, t.0, t.1) is Some
    ||| (table_row(s, t.0, t.1) && k < source_lines(s).len() - 1 && table_separator(
        s,
        line_trim(s, k + 1).0,
        line_trim(s, k + 1).1,
    ))
    ||| (nonempty && setext_underline(s, l.0, l.1) is Some)
}

/// End of the paragraph lines from line `k`.
pub open spec fn para_run_end(s: Seq<u8>, k: int) -> int
    decreases source_lines(s).len() - k,
{
    if k >= source_lines(s).len() {
        source_lines(s).len() as int
    } else if para_break_at(s, k, true) {
        k
    } else {
        para_run_end(s, k + 1)
    }
}

/// The shape of the block that starts at line `i`, and the line after it.
/// Lines are tried in a fixed order: blank, image marker, indented code
/// (without a list marker),
/// fenced code, table, thematic break, ATX heading, quote, list item,
/// footnote definition, paragraph (a heading when a setext underline
/// follows it).
pub open spec fn block_rule(s: Seq<u8>, mode: ParseMode, scheme: Option<Seq<u8>>, i: int) -> (
    BlockShape,
    int,
) {
    let l = source_lines(s)[i];
    let t = line_trim(s, i);
    if blank(s, l.0, l.1) {
        (BlockShape::Empty, i + 1)
    } else if scheme is Some && image_marker_line(s, t.0, t.1, scheme->0) is Some {
        (BlockShape::ImageMarker, i + 1)
    } else if code_line(s, l.0, l.1) {
        (BlockShape::IndentedCode, code_run_end(s, i + 1, i + 1))
    } else if fence_at(s, t.0, t.1) {
        (BlockShape::FencedCode, fence_close(s, i + 1))
    } else if table_start(s, i) {
        (BlockShape::Table, table_rows_end(s, i + 2))
    } else if horizontal_rule(s, t.0, t.1) {
        (BlockShape::HorizontalRule, i + 1)
    } else if heading_marker(s, t.0, t.1) is Some {
        (BlockShape::AtxHeading, i + 1)
    } else if quote_line(s, t.0, t.1) {
        (BlockShape::Quote, quote_run_end(s, i))
    } else if list_marker(s, l.0, l.1) is Some {
        let m = list_marker(s, l.0, l.1)->0;
        match m.kind {
            ParsedListKind::Checkbox(_) => (BlockShape::Checkbox, i + 1),
            ParsedListKind::Bullet => if mode == ParseMode::Grouped {
                (BlockShape::BulletList, list_run_end(s, i, false, m.unordered_marker))
            } else {
                (BlockShape::BulletItem, i + 1)
            },
            ParsedListKind::Ordered => if mode == ParseMode::Grouped {
                (BlockShape::OrderedList, list_run_end(s, i, true, m.ordered_delimiter))
            } else {
                (BlockShape::NumberedItem, i + 1)
            },
        }
    } else if footnote_def(s, t.0, t.1) is Some {
        (BlockShape::FootnoteDefinition, i + 1)
    } else {
        let e = para_run_end(s, i + 1);
        if e < source_lines(s).len() && setext_underline(
            s,
            source_lines(s)[e].0,
            source_lines(s)[e].1,
        ) is Some {
            (BlockShape::SetextHeading, e + 1)
        } else {
            (BlockShape::Paragraph, e)
        }
    }
}

/// The shapes whose blocks carry list-marker metadata.
pub open spec fn has_marker(shape: BlockShape) -> bool {
    shape is Checkbox || shape is BulletList || shape is BulletItem || shape is OrderedList
        || shape is NumberedItem
}

/// What the kind of a block of shape `shape` starting at line `i` (ending
/// before line `end`) carries.
#[verifier::opaque]
pub open spec fn kind_fits(
    s: Seq<u8>,
    scheme: Option<Seq<u8>>,
    i: int,
    shape: BlockShape,
    end: int,
    kind: BlockKind,
) -> bool {
    let l = source_lines(s)[i];
    let t = line_trim(s, i);
    let m = list_marker(s, l.0, l.1)->0;
    match shape {
        BlockShape::Empty => kind is Empty,
        BlockShape::ImageMarker => {
            let u = image_marker_line(s, t.0, t.1, scheme->0)->0;
            kind matches BlockKind::ImageMarker { uuid } && uuid@ == utf8_text(s.subrange(u.0, u.1))
        },
        BlockShape::IndentedCode => kind matches BlockKind::CodeBlock { language, code }
            && language is None && code@ == utf8_text(joined_lines(s, i, end, LinePart::Code)),
        BlockShape::FencedCode => {
            let lang = fence_language(s, t.0, t.1);
            let body = utf8_text(joined_lines(s, i + 1, fence_body_end(s, i + 1), LinePart::Raw));
            if names_mermaid(lang) {
                kind matches BlockKind::MermaidDiagram { diagram_type, source } && source@ == body
                    && diagram_type == mermaid_type_of(mermaid_keyword(encode_utf8(body)))
            } else {
                kind matches BlockKind::CodeBlock { language, code } && opt_text(language) == lang
                    && code@ == body
            }
        },
        BlockShape::Table => {
            let data = end - (i + 2);
            let sep = line_trim(s, i + 1);
            &&& kind matches BlockKind::Table { headers, rows, alignments }
            &&& cells_fit(s, t.0, t.1, headers@)
            &&& alignments_fit(s, sep.0, sep.1, alignments@)
            &&& rows@.len() == (if data < MAX_TABLE_ROWS {
                data
            } else {
                MAX_TABLE_ROWS as int
            })
            &&& forall|r: int|
                0 <= r < rows@.len() ==> cells_fit(
                    s,
                    line_trim(s, i + 2 + r).0,
                    line_trim(s, i + 2 + r).1,
                    (#[trigger] rows@[r])@,
                )
        },
        BlockShape::HorizontalRule => kind is HorizontalRule,
        BlockShape::AtxHeading => {
            let h = heading_marker(s, t.0, t.1)->0;
            kind matches BlockKind::Heading { level, text } && level == h.0 && text@ == utf8_text(
                s.subrange(h.1, t.1),
            )
        },
        BlockShape::Quote => {
            let q = quote_body(s, t.0, t.1);
            let c = callout_name_range(s, q.0, q.1);
            if callout_header(s, q.0, q.1) {
                &&& kind matches BlockKind::Callout { kind: ck, title, text }
                &&& Some(ck) == crate::ast::callout_kind_of(s.subrange(c.0, c.1))
                &&& opt_text(title) == callout_title(s, q.0, q.1)
                &&& text@ == utf8_text(joined_lines(s, i + 1, end, LinePart::Quote))
            } else {
                kind matches BlockKind::Blockquote { text } && text@ == utf8_text(
                    joined_lines(s, i, end, LinePart::Quote),
                )
            }
        },
        BlockShape::Checkbox => kind matches BlockKind::Checkbox { checked, text } && m.kind
            == ParsedListKind::Checkbox(checked) && text@ == utf8_text(
            s.subrange(m.content_start as int, l.1),
        ),
        BlockShape::BulletList => kind matches BlockKind::BulletList { items } && items_fit(
            s,
            i,
            end,
            items@,
        ),
        BlockShape::BulletItem => kind matches BlockKind::BulletItem { text } && text@
            == utf8_text(s.subrange(m.content_start as int, l.1)),
        BlockShape::OrderedList => kind matches BlockKind::OrderedList { start, items } && start
            == m.ordered_number && items_fit(s, i, end, items@),
        BlockShape::NumberedItem => kind matches BlockKind::NumberedItem { number, text } && number
            == m.ordered_number && text@ == utf8_text(s.subrange(m.content_start as int, l.1)),
        BlockShape::FootnoteDefinition => {
            let f = footnote_def(s, t.0, t.1)->0;
            kind matches BlockKind::FootnoteDefinition { label, text } && label@ == utf8_text(
                s.subrange(f.0, f.1),
            ) && text@ == utf8_text(s.subrange(f.2, f.3))
        },
        BlockShape::Paragraph => kind matches BlockKind::Paragraph { text } && text@ == utf8_text(
            joined_lines(s, i, end, LinePart::Raw),
        ),
        BlockShape::SetextHeading => {
            let j = joined_lines(s, i, end - 1, LinePart::Raw);
            let h = trimmed(j, 0, j.len() as int);
            &&& kind matches BlockKind::Heading { level, text }
            &&& Some(level) == setext_underline(s, source_lines(s)[end - 1].0, source_lines(s)[end - 1].1)
            &&& text@ == utf8_text(j.subrange(h.0, h.1))
        },
    }
}

/// The text of an optional marker byte (empty when there is none).
pub open spec fn byte_text(c: Option<u8>) -> Seq<char> {
    match c {
        Some(x) => utf8_text(seq![x]),
        None => Seq::empty(),
    }
}

/// The metadata describes the list marker `m` found in `s`.
pub open spec fn meta_fits(s: Seq<u8>, m: ParsedListMarker, meta: ListMarkerMeta) -> bool {
    &&& meta.indent == m.indent
    &&& meta.marker_byte_start == m.marker_start
    &&& meta.marker_byte_end == m.marker_end
    &&& meta.content_byte_start == m.content_start
    &&& meta.marker_utf16_start == utf16_offset(s, m.marker_start as int)
    &&& meta.marker_utf16_end == utf16_offset(s, m.marker_end as int)
    &&& meta.marker_source@ == utf8_text(s.subrange(m.marker_start as int, m.marker_end as int))
    &&& meta.unordered_marker@ == byte_text(m.unordered_marker)
    &&& meta.ordered_delimiter@ == byte_text(m.ordered_delimiter)
    &&& meta.ordered_raw_number@ == utf8_text(s.subrange(m.number_start as int, m.number_end as int))
}

/// List-marker metadata of a block starting at line `i` describes the list
/// marker of that line.
pub open spec fn marker_fits(s: Seq<u8>, i: int, marker: Option<ListMarkerMeta>) -> bool {
    match marker {
        Some(meta) => {
            let l = source_lines(s)[i];
            list_marker(s, l.0, l.1) is Some && meta_fits(s, list_marker(s, l.0, l.1)->0, meta)
        },
        None => true,
    }
}

/// Block `b` follows the rules for its first line.
pub open spec fn follows_rule(
    s: Seq<u8>,
    mode: ParseMode,
    scheme: Option<Seq<u8>>,
    line_start: int,
    line_end: int,
    kind: BlockKind,
    has_list_marker: bool,
) -> bool {
    let r = block_rule(s, mode, scheme, line_start);
    &&& line_end == r.1
    &&& (kind is Empty <==> r.0 is Empty)
    &&& kind_fits(s, scheme, line_start, r.0, r.1, kind)
    &&& has_list_marker == has_marker(r.0)
}

} // verus!
