//! Flat result types for host applications, document statistics, wiki-link
//! and heading extraction, and the `CindermarkParser` object that keeps the
//! snapshot for incremental updates.
use vstd::prelude::*;
use vstd::string::StringSliceAdditionalSpecFns;
use unicode_segmentation::UnicodeSegmentation;
use crate::ast::{
    BlockKind, BlockNode, CalloutKind, ColumnAlignment, Document, InlineKind, InlineSpan, ListItem,
    MermaidDiagramType, ParseMode,
};
use crate::incremental::{IncrementalResult, ParseSnapshot, incremental_update};
use crate::parser::{ParseOptions, document_of, parse_with_options, blocks_follow_rules};
use crate::text::{ascii_ws, find_byte, lossy_text, utf8_text, push_all, push_range, string_from_bytes, string_from_range};
use crate::lines::trim;
use crate::utf16::{Utf16Map, MAX_SOURCE_LEN, utf16_total, byte_offset_of_utf16};

verus! {

// ---------------------------------------------------------------------------
// Result types
// ---------------------------------------------------------------------------

/// Block type of a flat block.
#[derive(Debug, Clone, PartialEq)]
pub enum FfiBlockType {
    Heading,
    Paragraph,
    CodeBlock,
    Blockquote,
    BulletList,
    OrderedList,
    Checkbox,
    Table,
    HorizontalRule,
    Empty,
    FootnoteDefinition,
    ImageMarker,
    BulletItem,
    NumberedItem,
    Callout { kind: u8 },
    /// `diagram_type` is `MermaidDiagramType::as_u8`.
    MermaidDiagram { diagram_type: u8 },
}

/// Inline type of a flat span.
#[derive(Debug, Clone, PartialEq)]
pub enum FfiInlineType {
    Bold,
    Italic,
    BoldItalic,
    Strikethrough,
    UnderlineTilde,
    UnderlineHtml,
    InlineCode,
    Highlight,
    HighlightColor { color_index: u8 },
    HighlightHex { hex: String },
    Link { url: String },
    AutoLink { url: String },
    WikiLink,
    FootnoteRef,
    Comment,
    HexColor { hex: String },
}

/// A flat inline span.
#[derive(Debug, Clone, PartialEq)]
pub struct FfiInlineSpan {
    pub inline_type: FfiInlineType,
    pub utf16_start: u32,
    pub utf16_end: u32,
    pub content_utf16_start: u32,
    pub content_utf16_end: u32,
}

/// A flat list item.
#[derive(Debug, Clone, PartialEq)]
pub struct FfiListItem {
    pub text: String,
    pub inline_spans: Vec<FfiInlineSpan>,
}

/// A flat block.
#[derive(Debug, Clone, PartialEq)]
pub struct FfiBlock {
    pub block_type: FfiBlockType,
    pub line_start: u32,
    pub line_end: u32,
    pub utf16_start: u32,
    pub utf16_end: u32,
    pub list_indent: u32,
    pub marker_utf16_start: u32,
    pub marker_utf16_end: u32,
    pub marker_source: String,
    pub unordered_marker: String,
    pub ordered_delimiter: String,
    pub ordered_raw_number: String,
    pub heading_level: u8,
    pub number: u32,
    pub is_checked: bool,
    pub language: Option<String>,
    pub text: String,
    pub inline_spans: Vec<FfiInlineSpan>,
    pub list_items: Vec<FfiListItem>,
    pub table_headers: Vec<String>,
    pub table_rows: Vec<Vec<String>>,
    pub table_alignments: Vec<u8>,
}

/// Document statistics.
#[derive(Debug, Clone, PartialEq)]
pub struct FfiDocumentStats {
    pub word_count: u32,
    pub character_count: u32,
    pub character_count_no_spaces: u32,
    pub paragraph_count: u32,
    pub sentence_count: u32,
    pub checkbox_total: u32,
    pub checkbox_completed: u32,
    pub reading_time_seconds: u32,
    pub heading_count: u32,
    pub link_count: u32,
    pub code_block_count: u32,
    pub mermaid_diagram_count: u32,
}

/// A heading (level and text).
#[derive(Debug, Clone, PartialEq)]
pub struct FfiHeading {
    pub level: u8,
    pub text: String,
}

/// Result of a full parse.
#[derive(Debug, Clone, PartialEq)]
pub struct FfiParseResult {
    pub blocks: Vec<FfiBlock>,
    pub line_count: u32,
    pub stats: FfiDocumentStats,
    /// Wiki link titles (deduplicated, code excluded).
    pub wiki_links: Vec<String>,
    /// Headings in document order.
    pub headings: Vec<FfiHeading>,
}

/// A span of a rendered preview, in UTF-16 units of the preview text.
#[derive(Debug, Clone, PartialEq)]
pub struct FfiPreviewSpan {
    pub span_type: FfiInlineType,
    pub start: u32,
    pub end: u32,
}

/// Preview text with markdown syntax removed, and its formatting spans.
#[derive(Debug, Clone, PartialEq)]
pub struct FfiRenderedPreview {
    pub plain_text: String,
    pub spans: Vec<FfiPreviewSpan>,
}

/// Everything a note save needs, from one parse.
#[derive(Debug, Clone, PartialEq)]
pub struct FfiSaveParseResult {
    pub blocks: Vec<FfiBlock>,
    pub line_count: u32,
    pub stats: FfiDocumentStats,
    pub wiki_links: Vec<String>,
    pub headings: Vec<FfiHeading>,
    pub short_preview: FfiRenderedPreview,
    pub long_preview: FfiRenderedPreview,
}

/// Result of an incremental parse.
#[derive(Debug, Clone, PartialEq)]
pub struct FfiIncrementalResult {
    pub blocks: Vec<FfiBlock>,
    pub line_count: u32,
    pub dirty_start: u32,
    pub dirty_end: u32,
    pub stats: FfiDocumentStats,
}

/// Result of a styling-only incremental parse (no statistics).
#[derive(Debug, Clone, PartialEq)]
pub struct FfiIncrementalStyleResult {
    pub blocks: Vec<FfiBlock>,
    pub line_count: u32,
    pub dirty_start: u32,
    pub dirty_end: u32,
}

// ---------------------------------------------------------------------------
// Conversion
// ---------------------------------------------------------------------------

/// Flat inline type of an inline kind (without payload strings).
pub open spec fn inline_type_tag(k: InlineKind) -> int {
    match k {
        InlineKind::Bold => 0,
        InlineKind::Italic => 1,
        InlineKind::BoldItalic => 2,
        InlineKind::Strikethrough => 3,
        InlineKind::UnderlineTilde => 4,
        InlineKind::UnderlineHtml => 5,
        InlineKind::InlineCode => 6,
        InlineKind::Highlight => 7,
        InlineKind::HighlightColor(_) => 8,
        InlineKind::HighlightHex { .. } => 9,
        InlineKind::Link { .. } => 10,
        InlineKind::AutoLink { .. } => 11,
        InlineKind::WikiLink => 12,
        InlineKind::FootnoteRef => 13,
        InlineKind::Comment => 14,
        InlineKind::HexColor { .. } => 15,
    }
}

pub open spec fn ffi_inline_tag(t: FfiInlineType) -> int {
    match t {
        FfiInlineType::Bold => 0,
        FfiInlineType::Italic => 1,
        FfiInlineType::BoldItalic => 2,
        FfiInlineType::Strikethrough => 3,
        FfiInlineType::UnderlineTilde => 4,
        FfiInlineType::UnderlineHtml => 5,
        FfiInlineType::InlineCode => 6,
        FfiInlineType::Highlight => 7,
        FfiInlineType::HighlightColor { .. } => 8,
        FfiInlineType::HighlightHex { .. } => 9,
        FfiInlineType::Link { .. } => 10,
        FfiInlineType::AutoLink { .. } => 11,
        FfiInlineType::WikiLink => 12,
        FfiInlineType::FootnoteRef => 13,
        FfiInlineType::Comment => 14,
        FfiInlineType::HexColor { .. } => 15,
    }
}

/// The flat type of an inline kind: same variant, same payload.
pub open spec fn converts_kind(k: InlineKind, t: FfiInlineType) -> bool {
    &&& inline_type_tag(k) == ffi_inline_tag(t)
    &&& k matches InlineKind::HighlightColor(i) ==> t == (FfiInlineType::HighlightColor {
        color_index: i,
    })
    &&& k matches InlineKind::HighlightHex { hex } ==> t == (FfiInlineType::HighlightHex { hex })
    &&& k matches InlineKind::Link { url } ==> t == (FfiInlineType::Link { url })
    &&& k matches InlineKind::AutoLink { url } ==> t == (FfiInlineType::AutoLink { url })
    &&& k matches InlineKind::HexColor { hex } ==> t == (FfiInlineType::HexColor { hex })
}

/// Convert an inline kind to its flat type.
pub fn convert_inline_kind(kind: &InlineKind) -> (t: FfiInlineType)
    ensures
        converts_kind(*kind, t),
{
    match kind {
        InlineKind::Bold => FfiInlineType::Bold,
        InlineKind::Italic => FfiInlineType::Italic,
        InlineKind::BoldItalic => FfiInlineType::BoldItalic,
        InlineKind::Strikethrough => FfiInlineType::Strikethrough,
        InlineKind::UnderlineTilde => FfiInlineType::UnderlineTilde,
        InlineKind::UnderlineHtml => FfiInlineType::UnderlineHtml,
        InlineKind::InlineCode => FfiInlineType::InlineCode,
        InlineKind::Highlight => FfiInlineType::Highlight,
        InlineKind::HighlightColor(idx) => FfiInlineType::HighlightColor { color_index: *idx },
        InlineKind::HighlightHex { hex } => FfiInlineType::HighlightHex { hex: hex.clone() },
        InlineKind::Link { url } => FfiInlineType::Link { url: url.clone() },
        InlineKind::AutoLink { url } => FfiInlineType::AutoLink { url: url.clone() },
        InlineKind::WikiLink => FfiInlineType::WikiLink,
        InlineKind::FootnoteRef => FfiInlineType::FootnoteRef,
        InlineKind::Comment => FfiInlineType::Comment,
        InlineKind::HexColor { hex } => FfiInlineType::HexColor { hex: hex.clone() },
    }
}

/// The flat span keeps the offsets and converts the kind.
pub open spec fn converts_span(s: InlineSpan, f: FfiInlineSpan) -> bool {
    &&& converts_kind(s.kind, f.inline_type)
    &&& f.utf16_start == s.utf16_start
    &&& f.utf16_end == s.utf16_end
    &&& f.content_utf16_start == s.content_utf16_start
    &&& f.content_utf16_end == s.content_utf16_end
}

/// Convert an inline span.
pub fn convert_inline_span(span: &InlineSpan) -> (f: FfiInlineSpan)
    ensures
        converts_span(*span, f),
{
    FfiInlineSpan {
        inline_type: convert_inline_kind(&span.kind),
        utf16_start: span.utf16_start,
        utf16_end: span.utf16_end,
        content_utf16_start: span.content_utf16_start,
        content_utf16_end: span.content_utf16_end,
    }
}

fn convert_spans(spans: &Vec<InlineSpan>) -> (out: Vec<FfiInlineSpan>)
    ensures
        out@.len() == spans@.len(),
        forall|k: int| 0 <= k < out@.len() ==> converts_span(spans@[k], #[trigger] out@[k]),
{
    let mut out: Vec<FfiInlineSpan> = Vec::new();
    let mut k: usize = 0;
    while k < spans.len()
        invariant
            k <= spans@.len(),
            out@.len() == k,
            forall|j: int| 0 <= j < k ==> converts_span(spans@[j], #[trigger] out@[j]),
        decreases spans@.len() - k,
    {
        out.push(convert_inline_span(&spans[k]));
        k = k + 1;
    }
    out
}

fn convert_items(items: &Vec<ListItem>) -> (out: Vec<FfiListItem>)
    ensures
        converts_items(items@, out@),
{
    let mut out: Vec<FfiListItem> = Vec::new();
    let mut k: usize = 0;
    while k < items.len()
        invariant
            k <= items@.len(),
            out@.len() == k,
            forall|j: int| 0 <= j < k ==> converts_item(items@[j], #[trigger] out@[j]),
        decreases items@.len() - k,
    {
        let it = &items[k];
        out.push(FfiListItem { text: it.text.clone(), inline_spans: convert_spans(&it.inline_spans) });
        k = k + 1;
    }
    out
}

/// The flat item keeps the text and the spans of `i`.
pub open spec fn converts_item(i: ListItem, f: FfiListItem) -> bool {
    &&& f.text == i.text
    &&& f.inline_spans@.len() == i.inline_spans@.len()
    &&& forall|k: int|
        0 <= k < f.inline_spans@.len() ==> converts_span(i.inline_spans@[k], #[trigger] f.inline_spans@[k])
}

/// Item-wise conversion of list items.
pub open spec fn converts_items(items: Seq<ListItem>, out: Seq<FfiListItem>) -> bool {
    &&& out.len() == items.len()
    &&& forall|k: int| 0 <= k < out.len() ==> converts_item(items[k], #[trigger] out[k])
}

/// The text a flat block carries for a block kind: the block's text, code
/// or diagram source, image UUID, `label: text` for footnote definitions,
/// and nothing for lists, tables, rules and blank lines.
pub open spec fn text_of(k: BlockKind) -> Seq<char> {
    match k {
        BlockKind::Heading { text, .. } => text@,
        BlockKind::Paragraph { text } => text@,
        BlockKind::CodeBlock { code, .. } => code@,
        BlockKind::MermaidDiagram { source, .. } => source@,
        BlockKind::Blockquote { text } => text@,
        BlockKind::Checkbox { text, .. } => text@,
        BlockKind::FootnoteDefinition { label, text } => label@ + seq![':', ' '] + text@,
        BlockKind::ImageMarker { uuid } => uuid@,
        BlockKind::BulletItem { text } => text@,
        BlockKind::NumberedItem { text, .. } => text@,
        BlockKind::Callout { text, .. } => text@,
        _ => Seq::empty(),
    }
}

/// Wire value of a column alignment.
pub open spec fn alignment_wire(a: ColumnAlignment) -> u8 {
    match a {
        ColumnAlignment::Default => 0,
        ColumnAlignment::Left => 1,
        ColumnAlignment::Center => 2,
        ColumnAlignment::Right => 3,
    }
}

fn convert_alignments(al: &Vec<ColumnAlignment>) -> (out: Vec<u8>)
    ensures
        out@.len() == al@.len(),
        forall|k: int| 0 <= k < out@.len() ==> #[trigger] out@[k] == alignment_wire(al@[k]),
{
    let mut out: Vec<u8> = Vec::new();
    let mut k: usize = 0;
    while k < al.len()
        invariant
            k <= al@.len(),
            out@.len() == k,
            forall|j: int| 0 <= j < k ==> #[trigger] out@[j] == alignment_wire(al@[j]),
        decreases al@.len() - k,
    {
        let w: u8 = match al[k] {
            ColumnAlignment::Default => 0,
            ColumnAlignment::Left => 1,
            ColumnAlignment::Center => 2,
            ColumnAlignment::Right => 3,
        };
        out.push(w);
        k = k + 1;
    }
    out
}

/// Flat block type of a block kind.
pub open spec fn block_type_of(k: BlockKind) -> FfiBlockType {
    match k {
        BlockKind::Heading { .. } => FfiBlockType::Heading,
        BlockKind::Paragraph { .. } => FfiBlockType::Paragraph,
        BlockKind::CodeBlock { .. } => FfiBlockType::CodeBlock,
        BlockKind::MermaidDiagram { diagram_type, .. } => FfiBlockType::MermaidDiagram {
            diagram_type: diagram_type.wire(),
        },
        BlockKind::Blockquote { .. } => FfiBlockType::Blockquote,
        BlockKind::BulletList { .. } => FfiBlockType::BulletList,
        BlockKind::OrderedList { .. } => FfiBlockType::OrderedList,
        BlockKind::Checkbox { .. } => FfiBlockType::Checkbox,
        BlockKind::Table { .. } => FfiBlockType::Table,
        BlockKind::HorizontalRule => FfiBlockType::HorizontalRule,
        BlockKind::Empty => FfiBlockType::Empty,
        BlockKind::FootnoteDefinition { .. } => FfiBlockType::FootnoteDefinition,
        BlockKind::ImageMarker { .. } => FfiBlockType::ImageMarker,
        BlockKind::Callout { kind, .. } => FfiBlockType::Callout { kind: kind.wire() },
        BlockKind::BulletItem { .. } => FfiBlockType::BulletItem,
        BlockKind::NumberedItem { .. } => FfiBlockType::NumberedItem,
    }
}

proof fn lemma_encode_utf8_add(a: Seq<char>, b: Seq<char>)
    ensures
        vstd::utf8::encode_utf8(a + b) == vstd::utf8::encode_utf8(a) + vstd::utf8::encode_utf8(b),
    decreases a.len(),
{
    if a.len() == 0 {
        assert(a + b =~= b);
        assert(vstd::utf8::encode_utf8(a) + vstd::utf8::encode_utf8(b) =~= vstd::utf8::encode_utf8(b));
    } else {
        lemma_encode_utf8_add(a.drop_first(), b);
        assert((a + b).drop_first() =~= a.drop_first() + b);
        assert((a + b)[0] == a[0]);
        let e0 = vstd::utf8::encode_scalar(a[0] as u32);
        assert(e0 + vstd::utf8::encode_utf8(a.drop_first() + b) =~= e0 + vstd::utf8::encode_utf8(a.drop_first())
            + vstd::utf8::encode_utf8(b));
    }
}

/// `a + ": " + b` as a string.
fn join_label(a: &String, b: &String) -> (s: String)
    ensures
        s@ == a@ + seq![':', ' '] + b@,
{
    let mut v: Vec<u8> = Vec::new();
    push_all(&mut v, a.as_str().as_bytes());
    let sep: [u8; 2] = [58u8, 32u8];
    push_all(&mut v, sep.as_slice());
    push_all(&mut v, b.as_str().as_bytes());
    proof {
        broadcast use vstd::utf8::group_utf8_lib;
        assert(sep@ =~= seq![58u8, 32u8]);
        let cs: Seq<char> = seq![':', ' '];
        assert(vstd::utf8::encode_utf8(cs) =~= seq![58u8, 32u8]) by {
            reveal_with_fuel(vstd::utf8::encode_utf8, 3);
            assert(cs.drop_first() =~= seq![' ']);
            assert(cs.drop_first().drop_first() =~= Seq::<char>::empty());
            assert((58u32 & 0x7Fu32) as u8 == 58u8) by (bit_vector);
            assert((32u32 & 0x7Fu32) as u8 == 32u8) by (bit_vector);
        }
        lemma_encode_utf8_add(a@, cs);
        lemma_encode_utf8_add(a@ + cs, b@);
        assert(v@ =~= vstd::utf8::encode_utf8(a@ + cs + b@));
    }
    string_from_bytes(v.as_slice())
}

/// The flat block keeps the position fields, the block type, the spans and
/// the marker metadata of `b`.
pub open spec fn converts_block(b: BlockNode, f: FfiBlock) -> bool {
    &&& f.block_type == block_type_of(b.kind)
    &&& f.line_start == b.line_start
    &&& f.line_end == b.line_end
    &&& f.utf16_start == b.utf16_start
    &&& f.utf16_end == b.utf16_end
    &&& f.inline_spans@.len() == b.inline_spans@.len()
    &&& forall|k: int|
        0 <= k < f.inline_spans@.len() ==> converts_span(b.inline_spans@[k], #[trigger] f.inline_spans@[k])
    &&& match b.list_marker {
        Some(m) => f.list_indent == m.indent && f.marker_utf16_start == m.marker_utf16_start
            && f.marker_utf16_end == m.marker_utf16_end && f.marker_source == m.marker_source,
        None => f.list_indent == 0 && f.marker_utf16_start == 0 && f.marker_utf16_end == 0
            && f.marker_source@.len() == 0,
    }
    &&& b.kind matches BlockKind::Heading { level, text } ==> f.heading_level == level && f.text
        == text
    &&& b.kind matches BlockKind::Paragraph { text } ==> f.text == text
    &&& b.kind matches BlockKind::Checkbox { checked, text } ==> f.is_checked == checked && f.text
        == text
    &&& b.kind matches BlockKind::NumberedItem { number, text } ==> f.number == number && f.text
        == text
    &&& b.kind matches BlockKind::OrderedList { start, .. } ==> f.number == start
    &&& f.text@ == text_of(b.kind)
    &&& match b.kind {
        BlockKind::CodeBlock { language, .. } => f.language == language,
        BlockKind::Callout { title, .. } => f.language == title,
        BlockKind::MermaidDiagram { .. } => f.language is Some && f.language->0@ == seq![
            'm',
            'e',
            'r',
            'm',
            'a',
            'i',
            'd',
        ],
        _ => f.language is None,
    }
    &&& match b.kind {
        BlockKind::BulletList { items } => converts_items(items@, f.list_items@),
        BlockKind::OrderedList { items, .. } => converts_items(items@, f.list_items@),
        _ => f.list_items@.len() == 0,
    }
    &&& match b.kind {
        BlockKind::Table { headers, rows, alignments } => {
            &&& f.table_headers@ == headers@
            &&& f.table_rows@.len() == rows@.len()
            &&& forall|k: int| 0 <= k < rows@.len() ==> (#[trigger] f.table_rows@[k])@ == rows@[k]@
            &&& f.table_alignments@.len() == alignments@.len()
            &&& forall|k: int|
                0 <= k < alignments@.len() ==> #[trigger] f.table_alignments@[k] == alignment_wire(
                    alignments@[k],
                )
        },
        _ => f.table_headers@.len() == 0 && f.table_rows@.len() == 0 && f.table_alignments@.len()
            == 0,
    }
    &&& match b.list_marker {
        Some(m) => f.unordered_marker == m.unordered_marker && f.ordered_delimiter
            == m.ordered_delimiter && f.ordered_raw_number == m.ordered_raw_number,
        None => f.unordered_marker@.len() == 0 && f.ordered_delimiter@.len() == 0
            && f.ordered_raw_number@.len() == 0,
    }
}

/// Convert a block to its flat form.
pub fn convert_block(block: &BlockNode) -> (f: FfiBlock)
    ensures
        converts_block(*block, f),
{
    let empty_items: Vec<FfiListItem> = Vec::new();
    let (block_type, heading_level, number, is_checked, language, text, list_items, headers, rows, al):
        (
        FfiBlockType,
        u8,
        u32,
        bool,
        Option<String>,
        String,
        Vec<FfiListItem>,
        Vec<String>,
        Vec<Vec<String>>,
        Vec<u8>,
    ) = match &block.kind {
        BlockKind::Heading { level, text } => (
            FfiBlockType::Heading,
            *level,
            0,
            false,
            None,
            text.clone(),
            empty_items,
            Vec::new(),
            Vec::new(),
            Vec::new(),
        ),
        BlockKind::Paragraph { text } => (
            FfiBlockType::Paragraph,
            0,
            0,
            false,
            None,
            text.clone(),
            empty_items,
            Vec::new(),
            Vec::new(),
            Vec::new(),
        ),
        BlockKind::CodeBlock { language, code } => (
            FfiBlockType::CodeBlock,
            0,
            0,
            false,
            language.clone(),
            code.clone(),
            empty_items,
            Vec::new(),
            Vec::new(),
            Vec::new(),
        ),
        BlockKind::Blockquote { text } => (
            FfiBlockType::Blockquote,
            0,
            0,
            false,
            None,
            text.clone(),
            empty_items,
            Vec::new(),
            Vec::new(),
            Vec::new(),
        ),
        BlockKind::BulletList { items } => (
            FfiBlockType::BulletList,
            0,
            0,
            false,
            None,
            String::new(),
            convert_items(items),
            Vec::new(),
            Vec::new(),
            Vec::new(),
        ),
        BlockKind::OrderedList { start, items } => (
            FfiBlockType::OrderedList,
            0,
            *start,
            false,
            None,
            String::new(),
            convert_items(items),
            Vec::new(),
            Vec::new(),
            Vec::new(),
        ),
        BlockKind::Checkbox { checked, text } => (
            FfiBlockType::Checkbox,
            0,
            0,
            *checked,
            None,
            text.clone(),
            empty_items,
            Vec::new(),
            Vec::new(),
            Vec::new(),
        ),
        BlockKind::Table { headers, rows, alignments } => (
            FfiBlockType::Table,
            0,
            0,
            false,
            None,
            String::new(),
            empty_items,
            headers.clone(),
            rows.clone(),
            convert_alignments(alignments),
        ),
        BlockKind::HorizontalRule => (
            FfiBlockType::HorizontalRule,
            0,
            0,
            false,
            None,
            String::new(),
            empty_items,
            Vec::new(),
            Vec::new(),
            Vec::new(),
        ),
        BlockKind::Empty => (
            FfiBlockType::Empty,
            0,
            0,
            false,
            None,
            String::new(),
            empty_items,
            Vec::new(),
            Vec::new(),
            Vec::new(),
        ),
        BlockKind::FootnoteDefinition { label, text } => (
            FfiBlockType::FootnoteDefinition,
            0,
            0,
            false,
            None,
            join_label(label, text),
            empty_items,
            Vec::new(),
            Vec::new(),
            Vec::new(),
        ),
        BlockKind::ImageMarker { uuid } => (
            FfiBlockType::ImageMarker,
            0,
            0,
            false,
            None,
            uuid.clone(),
            empty_items,
            Vec::new(),
            Vec::new(),
            Vec::new(),
        ),
        BlockKind::BulletItem { text } => (
            FfiBlockType::BulletItem,
            0,
            0,
            false,
            None,
            text.clone(),
            empty_items,
            Vec::new(),
            Vec::new(),
            Vec::new(),
        ),
        BlockKind::NumberedItem { number, text } => (
            FfiBlockType::NumberedItem,
            0,
            *number,
            false,
            None,
            text.clone(),
            empty_items,
            Vec::new(),
            Vec::new(),
            Vec::new(),
        ),
        BlockKind::Callout { kind, title, text } => (
            FfiBlockType::Callout { kind: kind.as_u8() },
            0,
            0,
            false,
            // The title travels in the `language` field.
            title.clone(),
            text.clone(),
            empty_items,
            Vec::new(),
            Vec::new(),
            Vec::new(),
        ),
        BlockKind::MermaidDiagram { diagram_type, source } => {
            let lang = "mermaid".to_owned();
            proof {
                reveal_strlit("mermaid");
                assert(lang@ =~= seq!['m', 'e', 'r', 'm', 'a', 'i', 'd']);
            }
            (
                FfiBlockType::MermaidDiagram { diagram_type: diagram_type.as_u8() },
                0,
                0,
                false,
                Some(lang),
                source.clone(),
                empty_items,
                Vec::new(),
                Vec::new(),
                Vec::new(),
            )
        },
    };
    let (list_indent, mus, mue, ms, um, od, orn) = match &block.list_marker {
        Some(m) => (
            m.indent,
            m.marker_utf16_start,
            m.marker_utf16_end,
            m.marker_source.clone(),
            m.unordered_marker.clone(),
            m.ordered_delimiter.clone(),
            m.ordered_raw_number.clone(),
        ),
        None => (0, 0, 0, String::new(), String::new(), String::new(), String::new()),
    };
    FfiBlock {
        block_type,
        line_start: block.line_start,
        line_end: block.line_end,
        utf16_start: block.utf16_start,
        utf16_end: block.utf16_end,
        list_indent,
        marker_utf16_start: mus,
        marker_utf16_end: mue,
        marker_source: ms,
        unordered_marker: um,
        ordered_delimiter: od,
        ordered_raw_number: orn,
        heading_level,
        number,
        is_checked,
        language,
        text,
        inline_spans: convert_spans(&block.inline_spans),
        list_items,
        table_headers: headers,
        table_rows: rows,
        table_alignments: al,
    }
}

/// Convert all blocks.
pub fn convert_blocks(blocks: &Vec<BlockNode>) -> (out: Vec<FfiBlock>)
    ensures
        out@.len() == blocks@.len(),
        forall|k: int| 0 <= k < out@.len() ==> converts_block(blocks@[k], #[trigger] out@[k]),
{
    let mut out: Vec<FfiBlock> = Vec::new();
    let mut k: usize = 0;
    while k < blocks.len()
        invariant
            k <= blocks@.len(),
            out@.len() == k,
            forall|j: int| 0 <= j < k ==> converts_block(blocks@[j], #[trigger] out@[j]),
        decreases blocks@.len() - k,
    {
        out.push(convert_block(&blocks[k]));
        k = k + 1;
    }
    out
}


// ---------------------------------------------------------------------------
// Statistics
// ---------------------------------------------------------------------------

/// Byte lengths of the extended grapheme clusters of a text, in order.
pub uninterp spec fn grapheme_lengths(s: Seq<char>) -> Seq<usize>;

/// Sum of a sequence of lengths.
pub open spec fn sum_lengths(v: Seq<usize>) -> int
    decreases v.len(),
{
    if v.len() == 0 {
        0
    } else {
        sum_lengths(v.drop_last()) + v.last()
    }
}

/// `UnicodeSegmentation::graphemes(s, true)`, each cluster given by its byte
/// length. The clusters split the text: each is non-empty and together
/// they cover its bytes; where the boundaries fall is the crate's (UAX #29).
#[verifier::external_body]
fn grapheme_byte_lengths(s: &str) -> (r: Vec<usize>)
    ensures
        r@ == grapheme_lengths(s@),
        forall|k: int| 0 <= k < r@.len() ==> #[trigger] r@[k] > 0,
        sum_lengths(r@) == s.spec_bytes().len(),
{
    s.graphemes(true).map(|g| g.len()).collect()
}

/// Byte separating words: space, tab, LF, CR.
pub open spec fn word_sep(c: u8) -> bool {
    c == 32u8 || c == 9u8 || c == 10u8 || c == 13u8
}

/// Sentence terminator: `.`, `!`, `?`.
pub open spec fn terminator(c: u8) -> bool {
    c == 46u8 || c == 33u8 || c == 63u8
}

/// Number of maximal runs of bytes not separating words in `s[0..n]`.
pub open spec fn word_runs(s: Seq<u8>, n: int) -> int
    decreases n,
{
    if n <= 0 {
        0
    } else {
        word_runs(s, n - 1) + (if !word_sep(s[n - 1]) && (n == 1 || word_sep(s[n - 2])) {
            1int
        } else {
            0int
        })
    }
}

/// A byte that separates words: ASCII whitespace other than form feed.
pub open spec fn separates_words(c: u8) -> bool {
    crate::text::is_ascii_ws(c) && c != 0x0Cu8
}

proof fn lemma_word_runs_prefix(u: Seq<u8>, v: Seq<u8>, n: int)
    requires
        0 <= n <= u.len(),
        n <= v.len(),
        u.subrange(0, n) == v.subrange(0, n),
    ensures
        word_runs(u, n) == word_runs(v, n),
    decreases n,
{
    if n > 0 {
        assert(u[n - 1] == u.subrange(0, n)[n - 1]);
        assert(v[n - 1] == v.subrange(0, n)[n - 1]);
        if n >= 2 {
            assert(u[n - 2] == u.subrange(0, n)[n - 2]);
            assert(v[n - 2] == v.subrange(0, n)[n - 2]);
        }
        assert(u.subrange(0, n - 1) =~= u.subrange(0, n).subrange(0, n - 1));
        assert(v.subrange(0, n - 1) =~= v.subrange(0, n).subrange(0, n - 1));
        lemma_word_runs_prefix(u, v, n - 1);
    }
}

proof fn lemma_word_runs_split(a: Seq<u8>, c: u8, t: Seq<u8>, k: int)
    requires
        separates_words(c),
        0 <= k <= t.len(),
    ensures
        word_runs(a + seq![c] + t, a.len() + 1 + k) == word_runs(a, a.len() as int) + word_runs(t, k),
    decreases k,
{
    let u = a + seq![c] + t;
    if k == 0 {
        assert(u.subrange(0, a.len() as int) =~= a.subrange(0, a.len() as int));
        lemma_word_runs_prefix(u, a, a.len() as int);
        assert(u[a.len() as int] == c);
    } else {
        lemma_word_runs_split(a, c, t, k - 1);
        assert(u[a.len() + 1 + k - 1] == t[k - 1]);
        if k >= 2 {
            assert(u[a.len() + 1 + k - 2] == t[k - 2]);
        } else {
            assert(u[a.len() as int] == c);
        }
    }
}

/// Words are the maximal runs of bytes that do not separate words (space,
/// tab, line feed, carriage return): a separating byte between two texts
/// makes their word counts add up, one byte that separates nothing is one
/// word, and the empty text has none.
pub proof fn lemma_word_runs_law(a: Seq<u8>, c: u8, t: Seq<u8>)
    ensures
        separates_words(c) ==> word_runs(a + seq![c] + t, (a.len() + 1 + t.len()) as int) == word_runs(
            a,
            a.len() as int,
        ) + word_runs(t, t.len() as int),
        !separates_words(c) ==> word_runs(seq![c], 1) == 1,
        word_runs(Seq::<u8>::empty(), 0) == 0,
{
    if separates_words(c) {
        lemma_word_runs_split(a, c, t, t.len() as int);
    } else {
        assert(seq![c][0] == c);
        assert(word_runs(seq![c], 0) == 0);
    }
}

/// Number of maximal runs of terminators in `s[0..n]`.
pub open spec fn terminator_runs(s: Seq<u8>, n: int) -> int
    decreases n,
{
    if n <= 0 {
        0
    } else {
        terminator_runs(s, n - 1) + (if terminator(s[n - 1]) && (n == 1 || !terminator(s[n - 2])) {
            1int
        } else {
            0int
        })
    }
}

proof fn lemma_runs_bound(s: Seq<u8>, n: int)
    requires
        0 <= n,
    ensures
        0 <= word_runs(s, n) <= n,
        0 <= terminator_runs(s, n) <= n,
    decreases n,
{
    if n > 0 {
        lemma_runs_bound(s, n - 1);
    }
}

/// Count the blocks satisfying `f`.
pub open spec fn count_blocks(bs: Seq<BlockNode>, f: spec_fn(BlockNode) -> bool) -> int
    decreases bs.len(),
{
    if bs.len() == 0 {
        0
    } else {
        count_blocks(bs.drop_last(), f) + (if f(bs.last()) {
            1int
        } else {
            0int
        })
    }
}

proof fn lemma_count_blocks_bound(bs: Seq<BlockNode>, f: spec_fn(BlockNode) -> bool)
    ensures
        0 <= count_blocks(bs, f) <= bs.len(),
    decreases bs.len(),
{
    if bs.len() > 0 {
        lemma_count_blocks_bound(bs.drop_last(), f);
    }
}

/// A span that counts as a link.
pub open spec fn is_link(sp: InlineSpan) -> bool {
    sp.kind is Link || sp.kind is AutoLink || sp.kind is WikiLink
}

/// Reading time in seconds at 200 words per minute, rounded up.
pub open spec fn reading_seconds(words: int) -> int {
    (words * 60 + 199) / 200
}

/// The statistics computed from the text bytes and the blocks.
pub open spec fn stats_of(s: Seq<u8>, bs: Seq<BlockNode>, st: FfiDocumentStats) -> bool {
    &&& st.word_count == word_runs(s, s.len() as int)
    &&& st.sentence_count == terminator_runs(s, s.len() as int)
    &&& st.reading_time_seconds == reading_seconds(st.word_count as int)
    &&& st.paragraph_count == count_blocks(bs, |b: BlockNode| b.kind is Paragraph || b.kind is Blockquote)
    &&& st.heading_count == count_blocks(bs, |b: BlockNode| b.kind is Heading)
    &&& st.checkbox_total == count_blocks(bs, |b: BlockNode| b.kind is Checkbox)
    &&& st.checkbox_completed == count_blocks(
        bs,
        |b: BlockNode| b.kind matches BlockKind::Checkbox { checked, .. } && checked,
    )
    &&& st.code_block_count == count_blocks(bs, |b: BlockNode| b.kind is CodeBlock)
    &&& st.mermaid_diagram_count == count_blocks(bs, |b: BlockNode| b.kind is MermaidDiagram)
}

/// Grapheme clusters (given by their byte lengths `lens`, laid out from the
/// start of `s`) that are not a single ASCII whitespace byte.
pub open spec fn non_space_clusters(s: Seq<u8>, lens: Seq<usize>) -> int
    decreases lens.len(),
{
    if lens.len() == 0 {
        0
    } else {
        non_space_clusters(s, lens.drop_last()) + (if lens.last() == 1
            && crate::text::is_ascii_ws(s[sum_lengths(lens.drop_last()) as int]) {
            0int
        } else {
            1int
        })
    }
}

/// Link, autolink and wiki-link spans among `sps`.
pub open spec fn link_spans(sps: Seq<InlineSpan>) -> int
    decreases sps.len(),
{
    if sps.len() == 0 {
        0
    } else {
        link_spans(sps.drop_last()) + (if sps.last().kind is Link || sps.last().kind is AutoLink
            || sps.last().kind is WikiLink {
            1int
        } else {
            0int
        })
    }
}

/// Link spans of all blocks.
pub open spec fn block_links(bs: Seq<BlockNode>) -> int
    decreases bs.len(),
{
    if bs.len() == 0 {
        0
    } else {
        block_links(bs.drop_last()) + link_spans(bs.last().inline_spans@)
    }
}

/// `x` capped at `u32::MAX`.
pub open spec fn cap_u32(x: int) -> int {
    if x > u32::MAX {
        u32::MAX as int
    } else {
        x
    }
}

/// Word, sentence and byte-level counts of `b`.
fn text_counts(b: &[u8]) -> (r: (u32, u32))
    requires
        b@.len() <= MAX_SOURCE_LEN,
    ensures
        r.0 == word_runs(b@, b@.len() as int),
        r.1 == terminator_runs(b@, b@.len() as int),
{
    let n = b.len();
    let mut words: u32 = 0;
    let mut sentences: u32 = 0;
    let mut in_word = false;
    let mut prev_term = false;
    let mut k: usize = 0;
    while k < n
        invariant
            k <= n == b@.len() <= MAX_SOURCE_LEN,
            words + (if in_word { 1int } else { 0int }) == word_runs(b@, k as int),
            in_word == (k > 0 && !word_sep(b@[k - 1])),
            sentences + (if prev_term { 1int } else { 0int }) == terminator_runs(b@, k as int),
            prev_term == (k > 0 && terminator(b@[k - 1])),
            words <= k,
            sentences <= k,
        decreases n - k,
    {
        let c = b[k];
        let ws = c == 32u8 || c == 9u8 || c == 10u8 || c == 13u8;
        if ws {
            if in_word {
                words = words + 1;
                in_word = false;
            }
        } else {
            in_word = true;
        }
        let term = c == 46u8 || c == 33u8 || c == 63u8;
        if term {
            prev_term = true;
        } else if prev_term {
            sentences = sentences + 1;
            prev_term = false;
        }
        k = k + 1;
    }
    if in_word {
        words = words + 1;
    }
    if prev_term {
        sentences = sentences + 1;
    }
    (words, sentences)
}

/// Document statistics: grapheme counts (all clusters, and those that are
/// not one ASCII whitespace byte), words and sentences from a byte scan,
/// block counts, links among the inline spans, and the reading time at
/// 200 words per minute.
pub fn compute_stats(source: &str, blocks: &Vec<BlockNode>) -> (st: FfiDocumentStats)
    requires
        source.spec_bytes().len() <= MAX_SOURCE_LEN,
        blocks@.len() <= MAX_SOURCE_LEN,
    ensures
        full_stats(source@, blocks@, st),
{
    let lens = grapheme_byte_lengths(source);
    stats_from_clusters(source, blocks, &lens)
}

/// Document statistics for the grapheme clusters of byte lengths `lens`
/// (non-empty, together the whole text): the cluster count, the clusters
/// that are not one ASCII whitespace byte, and the counts of `stats_of`.
pub fn stats_from_clusters(source: &str, blocks: &Vec<BlockNode>, lens: &Vec<usize>) -> (st: FfiDocumentStats)
    requires
        source.spec_bytes().len() <= MAX_SOURCE_LEN,
        blocks@.len() <= MAX_SOURCE_LEN,
        forall|k: int| 0 <= k < lens@.len() ==> #[trigger] lens@[k] > 0,
        sum_lengths(lens@) == source.spec_bytes().len(),
    ensures
        stats_of(source.spec_bytes(), blocks@, st),
        st.character_count == lens@.len(),
        st.character_count_no_spaces == non_space_clusters(source.spec_bytes(), lens@),
        st.link_count == cap_u32(block_links(blocks@)),
{
    let b = source.as_bytes();
    let mut chars: u32 = 0;
    let mut chars_no_space: u32 = 0;
    let mut pos: usize = 0;
    let mut k: usize = 0;
    proof {
        lemma_sum_prefix(lens@, 0);
    }
    while k < lens.len()
        invariant
            k <= lens@.len(),
            chars == k,
            chars_no_space <= k,
            k <= pos,
            b@ == source.spec_bytes(),
            b@.len() <= MAX_SOURCE_LEN,
            pos == sum_lengths(lens@.subrange(0, k as int)),
            chars_no_space == non_space_clusters(b@, lens@.subrange(0, k as int)),
            sum_lengths(lens@) == b@.len(),
            forall|j: int| 0 <= j < lens@.len() ==> #[trigger] lens@[j] > 0,
        decreases lens@.len() - k,
    {
        proof {
            lemma_sum_prefix(lens@, k as int + 1);
            lemma_sum_le(lens@, k as int + 1);
            assert(lens@.subrange(0, k + 1).drop_last() =~= lens@.subrange(0, k as int));
        }
        let g = lens[k];
        assert(pos + g <= b@.len());
        let is_ws = g == 1 && ascii_ws(b[pos]);
        if !is_ws {
            chars_no_space = chars_no_space + 1;
        }
        chars = chars + 1;
        pos = pos + g;
        k = k + 1;
    }
    proof {
        assert(lens@.subrange(0, lens@.len() as int) =~= lens@);
    }
    let (words, sentences) = text_counts(b);
    let mut paragraphs: u32 = 0;
    let mut checkboxes: u32 = 0;
    let mut completed: u32 = 0;
    let mut headings: u32 = 0;
    let mut links: u32 = 0;
    let mut code_blocks: u32 = 0;
    let mut mermaid: u32 = 0;
    let mut i: usize = 0;
    while i < blocks.len()
        invariant
            i <= blocks@.len() <= MAX_SOURCE_LEN,
            paragraphs == count_blocks(blocks@.subrange(0, i as int), |b: BlockNode| b.kind is Paragraph || b.kind is Blockquote),
            headings == count_blocks(blocks@.subrange(0, i as int), |b: BlockNode| b.kind is Heading),
            checkboxes == count_blocks(blocks@.subrange(0, i as int), |b: BlockNode| b.kind is Checkbox),
            completed == count_blocks(
                blocks@.subrange(0, i as int),
                |b: BlockNode| b.kind matches BlockKind::Checkbox { checked, .. } && checked,
            ),
            code_blocks == count_blocks(blocks@.subrange(0, i as int), |b: BlockNode| b.kind is CodeBlock),
            mermaid == count_blocks(blocks@.subrange(0, i as int), |b: BlockNode| b.kind is MermaidDiagram),
            paragraphs <= i && headings <= i && checkboxes <= i && completed <= i && code_blocks <= i && mermaid <= i,
            links == cap_u32(block_links(blocks@.subrange(0, i as int))),
        decreases blocks@.len() - i,
    {
        proof {
            assert(blocks@.subrange(0, i + 1).drop_last() =~= blocks@.subrange(0, i as int));
        }
        let blk = &blocks[i];
        match &blk.kind {
            BlockKind::Paragraph { .. } => {
                paragraphs = paragraphs + 1;
            },
            BlockKind::Blockquote { .. } => {
                paragraphs = paragraphs + 1;
            },
            BlockKind::Heading { .. } => {
                headings = headings + 1;
            },
            BlockKind::Checkbox { checked, .. } => {
                checkboxes = checkboxes + 1;
                if *checked {
                    completed = completed + 1;
                }
            },
            BlockKind::CodeBlock { .. } => {
                code_blocks = code_blocks + 1;
            },
            BlockKind::MermaidDiagram { .. } => {
                mermaid = mermaid + 1;
            },
            _ => {},
        }
        let mut j: usize = 0;
        let ghost before = block_links(blocks@.subrange(0, i as int));
        while j < blk.inline_spans.len()
            invariant
                j <= blk.inline_spans@.len(),
                links == cap_u32(before + link_spans(blk.inline_spans@.subrange(0, j as int))),
                link_spans(blk.inline_spans@.subrange(0, j as int)) >= 0,
                before >= 0,
            decreases blk.inline_spans@.len() - j,
        {
            proof {
                assert(blk.inline_spans@.subrange(0, j + 1).drop_last() =~= blk.inline_spans@.subrange(
                    0,
                    j as int,
                ));
            }
            let is_link = match &blk.inline_spans[j].kind {
                InlineKind::Link { .. } => true,
                InlineKind::AutoLink { .. } => true,
                InlineKind::WikiLink => true,
                _ => false,
            };
            if is_link {
                links = links.saturating_add(1);
            }
            j = j + 1;
        }
        proof {
            assert(blk.inline_spans@.subrange(0, blk.inline_spans@.len() as int) =~= blk.inline_spans@);
            assert(blocks@.subrange(0, i + 1).last() == blocks@[i as int]);
        }
        i = i + 1;
    }
    proof {
        assert(blocks@.subrange(0, blocks@.len() as int) =~= blocks@);
        lemma_runs_bound(b@, b@.len() as int);
    }
    let reading: u32 = if words > 0 {
        ((words as u64 * 60 + 199) / 200) as u32
    } else {
        0
    };
    FfiDocumentStats {
        word_count: words,
        character_count: chars,
        character_count_no_spaces: chars_no_space,
        paragraph_count: paragraphs,
        sentence_count: sentences,
        checkbox_total: checkboxes,
        checkbox_completed: completed,
        reading_time_seconds: reading,
        heading_count: headings,
        link_count: links,
        code_block_count: code_blocks,
        mermaid_diagram_count: mermaid,
    }
}

proof fn lemma_sum_prefix(v: Seq<usize>, k: int)
    requires
        0 <= k <= v.len(),
    ensures
        k > 0 ==> sum_lengths(v.subrange(0, k)) == sum_lengths(v.subrange(0, k - 1)) + v[k - 1],
        k == 0 ==> sum_lengths(v.subrange(0, k)) == 0,
{
    if k > 0 {
        assert(v.subrange(0, k).drop_last() =~= v.subrange(0, k - 1));
    }
}

/// A prefix sum never exceeds the total (lengths are non-negative).
proof fn lemma_sum_le(v: Seq<usize>, k: int)
    requires
        0 <= k <= v.len(),
    ensures
        sum_lengths(v.subrange(0, k)) <= sum_lengths(v),
    decreases v.len() - k,
{
    if k < v.len() {
        lemma_sum_le(v, k + 1);
        lemma_sum_prefix(v, k + 1);
    } else {
        assert(v.subrange(0, k) =~= v);
    }
}


// ---------------------------------------------------------------------------
// Wiki links and headings of a parsed document
// ---------------------------------------------------------------------------

/// Whether `list` already holds a string equal to `t`.
fn contains_string(list: &Vec<String>, t: &String) -> (r: bool)
    ensures
        r == exists|k: int| 0 <= k < list@.len() && (#[trigger] list@[k])@ == t@,
{
    let mut k: usize = 0;
    while k < list.len()
        invariant
            k <= list@.len(),
            forall|j: int| 0 <= j < k ==> (#[trigger] list@[j])@ != t@,
        decreases list@.len() - k,
    {
        if list[k] == *t {
            return true;
        }
        k = k + 1;
    }
    false
}

/// Strings in `list` are pairwise different.
pub open spec fn distinct_strings(list: Seq<String>) -> bool {
    forall|i: int, j: int| 0 <= i < j < list.len() ==> (#[trigger] list[i])@ != (#[trigger] list[j])@
}

/// The texts of a list of strings.
pub open spec fn views(list: Seq<String>) -> Seq<Seq<char>> {
    list.map_values(|x: String| x@)
}

/// `r` with `t` added at the end unless it is already there.
pub open spec fn add_view(r: Seq<Seq<char>>, t: Seq<char>) -> Seq<Seq<char>> {
    if r.contains(t) {
        r
    } else {
        r.push(t)
    }
}

/// The target of the wiki body `b[lo..hi]`: the part before the first `|`,
/// trimmed, as text; `None` when that is empty.
pub open spec fn body_target(b: Seq<u8>, lo: int, hi: int) -> Option<Seq<char>> {
    let bar = crate::text::find_byte_pos(b, lo, hi, 124u8);
    let t = crate::lines::trimmed(b, lo, bar);
    if t.0 < t.1 {
        Some(utf8_text(b.subrange(t.0, t.1)))
    } else {
        None
    }
}

/// `r` with the target `o` added, if any.
pub open spec fn add_target_view(r: Seq<Seq<char>>, o: Option<Seq<char>>) -> Seq<Seq<char>> {
    match o {
        Some(t) => add_view(r, t),
        None => r,
    }
}

/// Wiki targets written in the text `b` from `i` on: each `[[body]]`
/// adds the target of its body.
pub open spec fn text_targets(r: Seq<Seq<char>>, b: Seq<u8>, i: int) -> Seq<Seq<char>>
    decreases b.len() - i,
{
    if i < 0 || i + 1 >= b.len() {
        r
    } else if b[i] == 91u8 && b[i + 1] == 91u8 && crate::parser::find_pair(b, i + 2, 93u8) + 1
        < b.len() && crate::parser::find_pair(b, i + 2, 93u8) >= i + 2 {
        let close = crate::parser::find_pair(b, i + 2, 93u8);
        text_targets(add_target_view(r, body_target(b, i + 2, close)), b, close + 2)
    } else {
        text_targets(r, b, i + 1)
    }
}

/// Wiki targets of table cells `cells[h..]`.
pub open spec fn cells_targets(r: Seq<Seq<char>>, cells: Seq<String>, h: int) -> Seq<Seq<char>>
    decreases cells.len() - h,
{
    if h < 0 || h >= cells.len() {
        r
    } else {
        cells_targets(text_targets(r, vstd::utf8::encode_utf8(cells[h]@), 0), cells, h + 1)
    }
}

/// Wiki targets of table rows `rows[i..]`.
pub open spec fn rows_targets(r: Seq<Seq<char>>, rows: Seq<Vec<String>>, i: int) -> Seq<Seq<char>>
    decreases rows.len() - i,
{
    if i < 0 || i >= rows.len() {
        r
    } else {
        rows_targets(cells_targets(r, rows[i]@, 0), rows, i + 1)
    }
}

/// The byte range of the body of a wiki-link span of `s`.
pub open spec fn wiki_body(s: Seq<u8>, sp: InlineSpan) -> Option<(int, int)> {
    let bstart = sp.utf16_start + 2;
    let bend = if sp.utf16_end >= 2 {
        sp.utf16_end - 2
    } else {
        0
    };
    if !(sp.kind is WikiLink) || sp.utf16_start > 0xFFFF_FFFDu32 || !(bend <= utf16_total(s)
        && bstart <= bend) {
        None
    } else {
        let be0 = byte_offset_of_utf16(s, bend) as u32 as int;
        let be = if be0 < s.len() {
            be0
        } else {
            s.len() as int
        };
        let bs0 = byte_offset_of_utf16(s, bstart) as u32 as int;
        let bs = if bs0 < be {
            bs0
        } else {
            be
        };
        Some((bs, be))
    }
}

/// Wiki targets of the wiki-link spans `sps[j..]` of `s`.
pub open spec fn spans_targets(r: Seq<Seq<char>>, s: Seq<u8>, sps: Seq<InlineSpan>, j: int) -> Seq<
    Seq<char>,
>
    decreases sps.len() - j,
{
    if j < 0 || j >= sps.len() {
        r
    } else {
        let r1 = match wiki_body(s, sps[j]) {
            Some((a, z)) => add_target_view(r, body_target(s, a, z)),
            None => r,
        };
        spans_targets(r1, s, sps, j + 1)
    }
}

/// Wiki targets of the blocks `bs[k..]` of a document of `s`: from the
/// wiki-link spans of each block and the cells of tables; code blocks and
/// diagrams are skipped.
pub open spec fn doc_targets(r: Seq<Seq<char>>, s: Seq<u8>, bs: Seq<BlockNode>, k: int) -> Seq<
    Seq<char>,
>
    decreases bs.len() - k,
{
    if k < 0 || k >= bs.len() {
        r
    } else {
        let b = bs[k];
        let r1 = if b.kind is CodeBlock || b.kind is MermaidDiagram {
            r
        } else {
            let r2 = spans_targets(r, s, b.inline_spans@, 0);
            match b.kind {
                BlockKind::Table { headers, rows, .. } => rows_targets(
                    cells_targets(r2, headers@, 0),
                    rows@,
                    0,
                ),
                _ => r2,
            }
        };
        doc_targets(r1, s, bs, k + 1)
    }
}

proof fn lemma_add_target_keeps(r: Seq<Seq<char>>, o: Option<Seq<char>>, x: Seq<char>)
    requires
        r.contains(x),
    ensures
        add_target_view(r, o).contains(x),
{
    match o {
        Some(t) => {
            if !r.contains(t) {
                assert(r.push(t)[r.index_of(x)] == x);
            }
        },
        None => {},
    }
}

proof fn lemma_text_targets_keep(r: Seq<Seq<char>>, b: Seq<u8>, i: int, x: Seq<char>)
    requires
        r.contains(x),
    ensures
        text_targets(r, b, i).contains(x),
    decreases b.len() - i,
{
    if !(i < 0 || i + 1 >= b.len()) {
        if b[i] == 91u8 && b[i + 1] == 91u8 && crate::parser::find_pair(b, i + 2, 93u8) + 1 < b.len()
            && crate::parser::find_pair(b, i + 2, 93u8) >= i + 2 {
            let close = crate::parser::find_pair(b, i + 2, 93u8);
            lemma_add_target_keeps(r, body_target(b, i + 2, close), x);
            lemma_text_targets_keep(add_target_view(r, body_target(b, i + 2, close)), b, close + 2, x);
        } else {
            lemma_text_targets_keep(r, b, i + 1, x);
        }
    }
}

proof fn lemma_cells_targets_keep(r: Seq<Seq<char>>, cells: Seq<String>, h: int, x: Seq<char>)
    requires
        r.contains(x),
    ensures
        cells_targets(r, cells, h).contains(x),
    decreases cells.len() - h,
{
    if !(h < 0 || h >= cells.len()) {
        lemma_text_targets_keep(r, vstd::utf8::encode_utf8(cells[h]@), 0, x);
        lemma_cells_targets_keep(text_targets(r, vstd::utf8::encode_utf8(cells[h]@), 0), cells, h + 1, x);
    }
}

proof fn lemma_rows_targets_keep(r: Seq<Seq<char>>, rows: Seq<Vec<String>>, i: int, x: Seq<char>)
    requires
        r.contains(x),
    ensures
        rows_targets(r, rows, i).contains(x),
    decreases rows.len() - i,
{
    if !(i < 0 || i >= rows.len()) {
        lemma_cells_targets_keep(r, rows[i]@, 0, x);
        lemma_rows_targets_keep(cells_targets(r, rows[i]@, 0), rows, i + 1, x);
    }
}

proof fn lemma_spans_targets_keep(r: Seq<Seq<char>>, s: Seq<u8>, sps: Seq<InlineSpan>, j: int, x: Seq<char>)
    requires
        r.contains(x),
    ensures
        spans_targets(r, s, sps, j).contains(x),
    decreases sps.len() - j,
{
    if !(j < 0 || j >= sps.len()) {
        let r1 = match wiki_body(s, sps[j]) {
            Some((a, z)) => add_target_view(r, body_target(s, a, z)),
            None => r,
        };
        match wiki_body(s, sps[j]) {
            Some((a, z)) => lemma_add_target_keeps(r, body_target(s, a, z), x),
            None => {},
        }
        lemma_spans_targets_keep(r1, s, sps, j + 1, x);
    }
}

/// The target of wiki-link span `q` (at or after `j`) is among the targets.
proof fn lemma_spans_targets_has(r: Seq<Seq<char>>, s: Seq<u8>, sps: Seq<InlineSpan>, j: int, q: int, a: int, z: int, t: Seq<char>)
    requires
        0 <= j <= q < sps.len(),
        wiki_body(s, sps[q]) == Some((a, z)),
        body_target(s, a, z) == Some(t),
    ensures
        spans_targets(r, s, sps, j).contains(t),
    decreases q - j,
{
    let r1 = match wiki_body(s, sps[j]) {
        Some((a1, z1)) => add_target_view(r, body_target(s, a1, z1)),
        None => r,
    };
    if j == q {
        if !r.contains(t) {
            assert(r.push(t)[r.len() as int] == t);
        }
        assert(r1.contains(t));
        lemma_spans_targets_keep(r1, s, sps, j + 1, t);
    } else {
        lemma_spans_targets_has(r1, s, sps, j + 1, q, a, z, t);
    }
}

proof fn lemma_doc_targets_keep(r: Seq<Seq<char>>, s: Seq<u8>, bs: Seq<BlockNode>, k: int, x: Seq<char>)
    requires
        r.contains(x),
    ensures
        doc_targets(r, s, bs, k).contains(x),
    decreases bs.len() - k,
{
    if !(k < 0 || k >= bs.len()) {
        let b = bs[k];
        if !(b.kind is CodeBlock || b.kind is MermaidDiagram) {
            let r2 = spans_targets(r, s, b.inline_spans@, 0);
            lemma_spans_targets_keep(r, s, b.inline_spans@, 0, x);
            match b.kind {
                BlockKind::Table { headers, rows, .. } => {
                    lemma_cells_targets_keep(r2, headers@, 0, x);
                    lemma_rows_targets_keep(cells_targets(r2, headers@, 0), rows@, 0, x);
                },
                _ => {},
            }
        }
        let r1 = if b.kind is CodeBlock || b.kind is MermaidDiagram {
            r
        } else {
            let r2 = spans_targets(r, s, b.inline_spans@, 0);
            match b.kind {
                BlockKind::Table { headers, rows, .. } => rows_targets(cells_targets(r2, headers@, 0), rows@, 0),
                _ => r2,
            }
        };
        lemma_doc_targets_keep(r1, s, bs, k + 1, x);
    }
}

/// Every wiki-link span of a block that is neither a code block nor a
/// Mermaid diagram, whatever else the block is (paragraph, heading, list
/// item, checkbox, quote, table, ...), gives its trimmed target (the part
/// of the body before any `|`) to the document's wiki links.
pub proof fn lemma_wiki_link_collected(s: Seq<u8>, bs: Seq<BlockNode>, k: int, q: int, t: Seq<char>)
    requires
        0 <= k < bs.len(),
        !(bs[k].kind is CodeBlock),
        !(bs[k].kind is MermaidDiagram),
        0 <= q < bs[k].inline_spans@.len(),
        bs[k].inline_spans@[q].kind is WikiLink,
        wiki_body(s, bs[k].inline_spans@[q]) matches Some((a, z)) && body_target(s, a, z) == Some(t),
    ensures
        doc_targets(Seq::empty(), s, bs, 0).contains(t),
{
    lemma_doc_targets_has(Seq::empty(), s, bs, 0, k, q, t);
}

/// The same for a parse result: such a target is one of its `wiki_links`.
pub proof fn lemma_result_wiki_link(text: Seq<char>, doc: Document, r: FfiParseResult, k: int, q: int, t: Seq<char>)
    requires
        result_of(text, doc, r),
        0 <= k < doc.blocks@.len(),
        !(doc.blocks@[k].kind is CodeBlock),
        !(doc.blocks@[k].kind is MermaidDiagram),
        0 <= q < doc.blocks@[k].inline_spans@.len(),
        doc.blocks@[k].inline_spans@[q].kind is WikiLink,
        wiki_body(vstd::utf8::encode_utf8(text), doc.blocks@[k].inline_spans@[q]) matches Some((a, z))
            && body_target(vstd::utf8::encode_utf8(text), a, z) == Some(t),
    ensures
        exists|i: int| 0 <= i < r.wiki_links@.len() && (#[trigger] r.wiki_links@[i])@ == t,
{
    let s = vstd::utf8::encode_utf8(text);
    lemma_wiki_link_collected(s, doc.blocks@, k, q, t);
    let v = views(r.wiki_links@);
    let i = v.index_of(t);
    assert(v[i] == r.wiki_links@[i]@);
}

proof fn lemma_doc_targets_has(r: Seq<Seq<char>>, s: Seq<u8>, bs: Seq<BlockNode>, j: int, k: int, q: int, t: Seq<char>)
    requires
        0 <= j <= k < bs.len(),
        !(bs[k].kind is CodeBlock),
        !(bs[k].kind is MermaidDiagram),
        0 <= q < bs[k].inline_spans@.len(),
        wiki_body(s, bs[k].inline_spans@[q]) matches Some((a, z)) && body_target(s, a, z) == Some(t),
    ensures
        doc_targets(r, s, bs, j).contains(t),
    decreases k - j,
{
    let b = bs[j];
    let r1 = if b.kind is CodeBlock || b.kind is MermaidDiagram {
        r
    } else {
        let r2 = spans_targets(r, s, b.inline_spans@, 0);
        match b.kind {
            BlockKind::Table { headers, rows, .. } => rows_targets(cells_targets(r2, headers@, 0), rows@, 0),
            _ => r2,
        }
    };
    if j == k {
        let (a, z) = wiki_body(s, bs[k].inline_spans@[q])->0;
        let r2 = spans_targets(r, s, b.inline_spans@, 0);
        lemma_spans_targets_has(r, s, b.inline_spans@, 0, q, a, z, t);
        match b.kind {
            BlockKind::Table { headers, rows, .. } => {
                lemma_cells_targets_keep(r2, headers@, 0, t);
                lemma_rows_targets_keep(cells_targets(r2, headers@, 0), rows@, 0, t);
            },
            _ => {},
        }
        lemma_doc_targets_keep(r1, s, bs, j + 1, t);
    } else {
        lemma_doc_targets_has(r1, s, bs, j + 1, k, q, t);
    }
}

/// Adding to a list of distinct texts keeps it distinct.
proof fn lemma_add_view(list: Seq<String>, t: String)
    requires
        distinct_strings(list),
        !views(list).contains(t@),
    ensures
        distinct_strings(list.push(t)),
        views(list.push(t)) == views(list).push(t@),
{
    let l2 = list.push(t);
    assert(views(l2) =~= views(list).push(t@));
    assert forall|i: int, j: int| 0 <= i < j < l2.len() implies (#[trigger] l2[i])@ != (
    #[trigger] l2[j])@ by {
        if j == list.len() {
            assert(views(list)[i] == list[i]@);
        } else {
            assert(l2[i] == list[i] && l2[j] == list[j]);
        }
    }
}

/// Add the trimmed target (the part before the first `|`) of the wiki body
/// `b[lo..hi]`, unless it is empty or already present.
fn add_target(result: &mut Vec<String>, b: &[u8], lo: usize, hi: usize)
    requires
        lo <= hi <= b@.len(),
        distinct_strings(old(result)@),
    ensures
        distinct_strings(final(result)@),
        views(final(result)@) == add_target_view(views(old(result)@), body_target(b@, lo as int, hi as int)),
{
    let bar = find_byte(b, lo, hi, 124u8);
    let (a, z) = trim(b, lo, bar);
    if a < z {
        let t = string_from_range(b, a, z);
        let present = contains_string(result, &t);
        proof {
            if views(result@).contains(t@) {
                let k = choose|k: int| 0 <= k < views(result@).len() && views(result@)[k] == t@;
                assert(result@[k]@ == t@);
            }
            if present {
                let k = choose|k: int| 0 <= k < result@.len() && (#[trigger] result@[k])@ == t@;
                assert(views(result@)[k] == t@);
            }
        }
        if !present {
            proof {
                lemma_add_view(result@, t);
            }
            result.push(t);
        }
    }
}

/// Wiki links written in the raw text of a table cell.
fn add_targets_from_text(result: &mut Vec<String>, text: &String)
    requires
        distinct_strings(old(result)@),
    ensures
        distinct_strings(final(result)@),
        views(final(result)@) == text_targets(views(old(result)@), vstd::utf8::encode_utf8(text@), 0),
{
    let b = text.as_str().as_bytes();
    let n = b.len();
    let mut i: usize = 0;
    while i < n && i + 1 < n
        invariant
            n == b@.len(),
            b@ == vstd::utf8::encode_utf8(text@),
            distinct_strings(result@),
            text_targets(views(result@), b@, i as int) == text_targets(
                views(old(result)@),
                b@,
                0,
            ),
        decreases n - i,
    {
        if b[i] == 91u8 && b[i + 1] == 91u8 {
            let start = i + 2;
            let close = crate::parser::find_pair_exec(b, start, 93u8);
            proof {
                crate::parser::lemma_find_pair_pub(b@, start as int, 93u8);
            }
            if close < n {
                add_target(result, b, start, close);
                i = close + 2;
                continue;
            }
        }
        i = i + 1;
    }
}

/// Wiki links of the table cells `cells`.
fn add_targets_from_cells(result: &mut Vec<String>, cells: &Vec<String>)
    requires
        distinct_strings(old(result)@),
    ensures
        distinct_strings(final(result)@),
        views(final(result)@) == cells_targets(views(old(result)@), cells@, 0),
{
    let mut h: usize = 0;
    while h < cells.len()
        invariant
            h <= cells@.len(),
            distinct_strings(result@),
            cells_targets(views(result@), cells@, h as int) == cells_targets(
                views(old(result)@),
                cells@,
                0,
            ),
        decreases cells@.len() - h,
    {
        add_targets_from_text(result, &cells[h]);
        h = h + 1;
    }
}

/// Wiki link targets of a parsed document, deduplicated in order of first
/// appearance: from wiki-link spans (the part of `[[target|alias]]` before
/// `|`, trimmed) and from the raw text of table cells; code blocks and
/// diagrams are skipped.
pub fn extract_wiki_links_from_doc(doc: &Document, source: &str) -> (links: Vec<String>)
    requires
        source.spec_bytes().len() <= MAX_SOURCE_LEN,
    ensures
        distinct_strings(links@),
        views(links@) == doc_targets(Seq::empty(), source.spec_bytes(), doc.blocks@, 0),
{
    let b = source.as_bytes();
    let map = Utf16Map::build(b);
    let total = map.total_utf16_len;
    let n = b.len();
    let mut result: Vec<String> = Vec::new();
    let mut k: usize = 0;
    proof {
        assert(views(result@) =~= Seq::<Seq<char>>::empty());
    }
    while k < doc.blocks.len()
        invariant
            k <= doc.blocks@.len(),
            distinct_strings(result@),
            map.wf_for(b@),
            n == b@.len(),
            b@ == source.spec_bytes(),
            total == map.total_utf16_len,
            doc_targets(views(result@), b@, doc.blocks@, k as int) == doc_targets(
                Seq::empty(),
                b@,
                doc.blocks@,
                0,
            ),
        decreases doc.blocks@.len() - k,
    {
        let blk = &doc.blocks[k];
        let ghost r0 = views(result@);
        k = k + 1;
        let skip = match &blk.kind {
            BlockKind::CodeBlock { .. } => true,
            BlockKind::MermaidDiagram { .. } => true,
            _ => false,
        };
        if skip {
            continue;
        }
        let mut j: usize = 0;
        while j < blk.inline_spans.len()
            invariant
                j <= blk.inline_spans@.len(),
                distinct_strings(result@),
                map.wf_for(b@),
                n == b@.len(),
                total == map.total_utf16_len,
                total == utf16_total(b@),
                spans_targets(views(result@), b@, blk.inline_spans@, j as int) == spans_targets(
                    r0,
                    b@,
                    blk.inline_spans@,
                    0,
                ),
            decreases blk.inline_spans@.len() - j,
        {
            let sp = &blk.inline_spans[j];
            j = j + 1;
            if !matches!(sp.kind, InlineKind::WikiLink) {
                continue;
            }
            if sp.utf16_start > 0xFFFF_FFFDu32 {
                continue;
            }
            let body_start = sp.utf16_start + 2;
            let body_end = sp.utf16_end.saturating_sub(2);
            if body_end <= total && body_start <= body_end {
                let bs0 = map.utf16_to_byte(body_start, b) as usize;
                let be0 = map.utf16_to_byte(body_end, b) as usize;
                let be = if be0 < n {
                    be0
                } else {
                    n
                };
                let bs = if bs0 < be {
                    bs0
                } else {
                    be
                };
                add_target(&mut result, b, bs, be);
            }
        }
        match &blk.kind {
            BlockKind::Table { headers, rows, .. } => {
                add_targets_from_cells(&mut result, headers);
                let ghost r3 = views(result@);
                let mut r: usize = 0;
                while r < rows.len()
                    invariant
                        r <= rows@.len(),
                        distinct_strings(result@),
                        rows_targets(views(result@), rows@, r as int) == rows_targets(
                            r3,
                            rows@,
                            0,
                        ),
                    decreases rows@.len() - r,
                {
                    add_targets_from_cells(&mut result, &rows[r]);
                    r = r + 1;
                }
            },
            _ => {},
        }
    }
    result
}

/// The headings among `bs`, in order, with their levels and texts.
pub open spec fn heading_list(bs: Seq<BlockNode>) -> Seq<FfiHeading>
    decreases bs.len(),
{
    if bs.len() == 0 {
        Seq::empty()
    } else {
        heading_list(bs.drop_last()) + match bs.last().kind {
            BlockKind::Heading { level, text } => seq![FfiHeading { level, text }],
            _ => Seq::empty(),
        }
    }
}

/// As many headings as heading blocks.
proof fn lemma_heading_count(bs: Seq<BlockNode>)
    ensures
        heading_list(bs).len() == count_blocks(bs, |b: BlockNode| b.kind is Heading),
    decreases bs.len(),
{
    if bs.len() > 0 {
        lemma_heading_count(bs.drop_last());
    }
}

/// Headings of a document in order.
pub fn extract_headings_from_doc(doc: &Document) -> (hs: Vec<FfiHeading>)
    ensures
        hs@ == heading_list(doc.blocks@),
        hs@.len() == count_blocks(doc.blocks@, |b: BlockNode| b.kind is Heading),
{
    let mut hs: Vec<FfiHeading> = Vec::new();
    let mut k: usize = 0;
    while k < doc.blocks.len()
        invariant
            k <= doc.blocks@.len(),
            hs@ == heading_list(doc.blocks@.subrange(0, k as int)),
        decreases doc.blocks@.len() - k,
    {
        proof {
            assert(doc.blocks@.subrange(0, k + 1).drop_last() =~= doc.blocks@.subrange(0, k as int));
        }
        let ghost before = hs@;
        match &doc.blocks[k].kind {
            BlockKind::Heading { level, text } => {
                hs.push(FfiHeading { level: *level, text: text.clone() });
            },
            _ => {},
        }
        proof {
            assert(hs@ =~= heading_list(doc.blocks@.subrange(0, k + 1)));
        }
        k = k + 1;
    }
    proof {
        assert(doc.blocks@.subrange(0, doc.blocks@.len() as int) =~= doc.blocks@);
        lemma_heading_count(doc.blocks@);
    }
    hs
}

/// All statistics of the text `t` with blocks `bs`: those of `stats_of`,
/// the grapheme clusters, those that are not a single whitespace byte, and
/// the link spans (capped at `u32::MAX`).
pub open spec fn full_stats(t: Seq<char>, bs: Seq<BlockNode>, st: FfiDocumentStats) -> bool {
    let s = vstd::utf8::encode_utf8(t);
    &&& stats_of(s, bs, st)
    &&& st.character_count == grapheme_lengths(t).len()
    &&& st.character_count_no_spaces == non_space_clusters(s, grapheme_lengths(t))
    &&& st.link_count == cap_u32(block_links(bs))
}

/// What a flat parse result holds for a document of the text `t`.
pub open spec fn result_of(t: Seq<char>, doc: Document, r: FfiParseResult) -> bool {
    let s = vstd::utf8::encode_utf8(t);
    &&& r.line_count == doc.line_count
    &&& r.blocks@.len() == doc.blocks@.len()
    &&& forall|k: int| 0 <= k < r.blocks@.len() ==> converts_block(doc.blocks@[k], #[trigger] r.blocks@[k])
    &&& full_stats(t, doc.blocks@, r.stats)
    &&& distinct_strings(r.wiki_links@)
    &&& views(r.wiki_links@) == doc_targets(Seq::empty(), s, doc.blocks@, 0)
    &&& r.headings@ == heading_list(doc.blocks@)
}

/// Flatten a parsed document with its statistics, wiki links and headings.
pub fn convert_document(doc: &Document, source: &str) -> (r: FfiParseResult)
    requires
        source.spec_bytes().len() <= MAX_SOURCE_LEN,
        doc.blocks@.len() <= MAX_SOURCE_LEN,
    ensures
        result_of(source@, *doc, r),
{
    let stats = compute_stats(source, &doc.blocks);
    let wiki_links = extract_wiki_links_from_doc(doc, source);
    let headings = extract_headings_from_doc(doc);
    FfiParseResult {
        blocks: convert_blocks(&doc.blocks),
        line_count: doc.line_count,
        stats,
        wiki_links,
        headings,
    }
}


// ---------------------------------------------------------------------------
// The parser object
// ---------------------------------------------------------------------------

/// An image-marker scheme that can serve as a literal `![](<scheme>` prefix:
/// non-empty ASCII without parentheses or ASCII whitespace.
pub open spec fn scheme_usable(b: Seq<u8>) -> bool {
    b.len() > 0 && forall|k: int|
        0 <= k < b.len() ==> #[trigger] b[k] < 0x80 && b[k] != 40u8 && b[k] != 41u8
            && !crate::text::is_ascii_ws(b[k])
}

/// Keep a usable scheme, turn anything else into `None`.
#[verifier::loop_isolation(false)]
pub fn sanitize_scheme(scheme: Option<String>) -> (r: Option<String>)
    ensures
        r matches Some(x) ==> scheme == Some(x) && scheme_usable(vstd::utf8::encode_utf8(x@)),
        scheme matches Some(x) && scheme_usable(vstd::utf8::encode_utf8(x@)) ==> r == scheme,
        scheme is None ==> r is None,
{
    let s = match scheme {
        Some(s) => s,
        None => {
            return None;
        },
    };
    let b = s.as_str().as_bytes();
    if b.len() == 0 {
        return None;
    }
    let mut k: usize = 0;
    while k < b.len()
        invariant
            k <= b@.len(),
            b@ == vstd::utf8::encode_utf8(s@),
            forall|j: int|
                0 <= j < k ==> #[trigger] b@[j] < 0x80 && b@[j] != 40u8 && b@[j] != 41u8
                    && !crate::text::is_ascii_ws(b@[j]),
        decreases b@.len() - k,
    {
        let c = b[k];
        if c >= 0x80 || c == 40u8 || c == 41u8 || ascii_ws(c) {
            proof {
                assert(!(b@[k as int] < 0x80 && b@[k as int] != 40u8 && b@[k as int] != 41u8
                    && !crate::text::is_ascii_ws(b@[k as int])));
                assert(!scheme_usable(vstd::utf8::encode_utf8(s@)));
            }
            return None;
        }
        k = k + 1;
    }
    Some(s)
}

/// The parser object: parse options and the snapshot of the last editable
/// parse, for incremental updates.
pub struct CindermarkParser {
    state: Option<ParseSnapshot>,
    options: ParseOptions,
}

/// `res` is what an incremental update of `p`'s snapshot after an edit of
/// `old_len` UTF-16 units at `es`, replaced by `new_len` units, gives for
/// the new source `s`: a full parse when there is no snapshot, else the
/// outcome `update_outcome` describes.
pub open spec fn incremental_outcome(
    p: CindermarkParser,
    s: Seq<u8>,
    es: u32,
    old_len: u32,
    new_len: u32,
    res: IncrementalResult,
) -> bool {
    &&& res.dirty_start <= res.dirty_end <= res.blocks@.len() <= MAX_SOURCE_LEN
    &&& match p.snapshot() {
        None => crate::incremental::full_result(s, p.parse_options().scheme_bytes(), res),
        Some(prev) => crate::incremental::update_outcome(
            prev,
            s,
            es,
            old_len,
            new_len,
            p.parse_options().scheme_bytes(),
            res,
        ),
    }
}

/// Without a snapshot (a new parser, or one after `reset_state`), an
/// incremental update gives the full editable parse of the new text, with
/// every block dirty, whatever the edit.
pub proof fn lemma_no_snapshot_full_parse(
    p: CindermarkParser,
    s: Seq<u8>,
    es: u32,
    old_len: u32,
    new_len: u32,
    res: IncrementalResult,
)
    requires
        p.snapshot() is None,
        incremental_outcome(p, s, es, old_len, new_len, res),
    ensures
        document_of(s, ParseMode::Editable, Document { blocks: res.blocks, line_count: res.line_count }),
        blocks_follow_rules(s, ParseMode::Editable, p.parse_options().scheme_bytes(), res.blocks@),
        res.dirty_start == 0,
        res.dirty_end == res.blocks@.len(),
{
}

/// Two full parses of the same bytes, in the same mode and with the same
/// image-marker scheme, flatten to blocks at the same places: as many
/// blocks, each on the same lines and UTF-16 range, and the same line
/// count (so `parse_for_save` and `parse` agree there).
pub proof fn lemma_flat_parses_agree(
    s: Seq<u8>,
    mode: ParseMode,
    scheme: Option<Seq<u8>>,
    d1: Document,
    d2: Document,
    f1: Seq<FfiBlock>,
    f2: Seq<FfiBlock>,
)
    requires
        document_of(s, mode, d1),
        blocks_follow_rules(s, mode, scheme, d1.blocks@),
        document_of(s, mode, d2),
        blocks_follow_rules(s, mode, scheme, d2.blocks@),
        converts_blocks(d1.blocks@, f1),
        converts_blocks(d2.blocks@, f2),
    ensures
        d1.line_count == d2.line_count,
        f1.len() == f2.len(),
        forall|k: int|
            0 <= k < f1.len() ==> (#[trigger] f1[k]).line_start == f2[k].line_start && f1[k].line_end
                == f2[k].line_end && f1[k].utf16_start == f2[k].utf16_start && f1[k].utf16_end == f2[k].utf16_end,
{
    crate::parser::lemma_parse_unique(s, mode, scheme, d1, d2);
    assert forall|k: int| 0 <= k < f1.len() implies (#[trigger] f1[k]).line_start == f2[k].line_start
        && f1[k].line_end == f2[k].line_end && f1[k].utf16_start == f2[k].utf16_start && f1[k].utf16_end
        == f2[k].utf16_end by {
        assert(converts_block(d1.blocks@[k], f1[k]));
        assert(converts_block(d2.blocks@[k], f2[k]));
        assert(d1.blocks@[k].line_start == d2.blocks@[k].line_start);
    }
}

/// The flat blocks `fs` convert the blocks `bs`.
pub open spec fn converts_blocks(bs: Seq<BlockNode>, fs: Seq<FfiBlock>) -> bool {
    &&& fs.len() == bs.len()
    &&& forall|k: int| 0 <= k < fs.len() ==> converts_block(bs[k], #[trigger] fs[k])
}

impl CindermarkParser {
    #[verifier::type_invariant]
    spec fn snapshot_in_range(self) -> bool {
        self.state matches Some(s) ==> s.blocks@.len() <= MAX_SOURCE_LEN && s.source_byte_len
            <= MAX_SOURCE_LEN
    }

    /// The snapshot kept for incremental updates.
    pub closed spec fn snapshot(self) -> Option<ParseSnapshot> {
        self.state
    }

    /// The parse options.
    pub closed spec fn parse_options(self) -> ParseOptions {
        self.options
    }

    /// Create a parser. `image_marker_scheme` turns on image-marker lines
    /// `![](<scheme><UUID>)`; an unusable scheme turns them off.
    pub fn new(image_marker_scheme: Option<String>) -> (p: Self)
        ensures
            p.snapshot() is None,
            p.parse_options().image_marker_scheme == sanitize_scheme_spec(image_marker_scheme),
    {
        CindermarkParser {
            state: None,
            options: ParseOptions { image_marker_scheme: sanitize_scheme(image_marker_scheme) },
        }
    }

    /// Full parse in grouped mode; the snapshot is left alone.
    pub fn parse(&self, text: String) -> (r: FfiParseResult)
        requires
            vstd::utf8::encode_utf8(text@).len() <= MAX_SOURCE_LEN,
        ensures
            exists|doc: Document|
                #![trigger document_of(vstd::utf8::encode_utf8(text@), ParseMode::Grouped, doc)]
                document_of(vstd::utf8::encode_utf8(text@), ParseMode::Grouped, doc)
                    && blocks_follow_rules(
                    vstd::utf8::encode_utf8(text@),
                    ParseMode::Grouped,
                    self.parse_options().scheme_bytes(),
                    doc.blocks@,
                ) && result_of(text@, doc, r),
    {
        let doc = parse_with_options(text.as_str(), ParseMode::Grouped, &self.options);
        proof {
            lemma_doc_fits(vstd::utf8::encode_utf8(text@), ParseMode::Grouped, doc);
        }
        convert_document(&doc, text.as_str())
    }

    /// Full parse in editable mode; the blocks become the snapshot.
    pub fn parse_editable(&mut self, text: String) -> (r: FfiParseResult)
        requires
            vstd::utf8::encode_utf8(text@).len() <= MAX_SOURCE_LEN,
        ensures
            exists|doc: Document|
                #![trigger document_of(vstd::utf8::encode_utf8(text@), ParseMode::Editable, doc)]
                document_of(vstd::utf8::encode_utf8(text@), ParseMode::Editable, doc)
                    && blocks_follow_rules(
                    vstd::utf8::encode_utf8(text@),
                    ParseMode::Editable,
                    old(self).parse_options().scheme_bytes(),
                    doc.blocks@,
                ) && result_of(text@, doc, r) && final(self).snapshot() == Some(
                    ParseSnapshot {
                        blocks: doc.blocks,
                        line_count: doc.line_count,
                        source_byte_len: vstd::utf8::encode_utf8(text@).len() as usize,
                        source_utf16_len: utf16_total(vstd::utf8::encode_utf8(text@)) as u32,
                    },
                ),
            final(self).parse_options() == old(self).parse_options(),
    {
        let doc = parse_with_options(text.as_str(), ParseMode::Editable, &self.options);
        let map = Utf16Map::build(text.as_str().as_bytes());
        proof {
            lemma_doc_fits(vstd::utf8::encode_utf8(text@), ParseMode::Editable, doc);
        }
        let result = convert_document(&doc, text.as_str());
        let ghost gdoc = doc;
        let n = text.as_str().as_bytes().len();
        self.state = Some(ParseSnapshot::new(doc.blocks, doc.line_count, n, map.total_utf16_len));
        proof {
            assert(document_of(vstd::utf8::encode_utf8(text@), ParseMode::Editable, gdoc));
        }
        result
    }

    /// Update after an edit, from the snapshot (a full editable parse when
    /// there is none); the new blocks become the snapshot.
    pub fn parse_editable_incremental(
        &mut self,
        text: String,
        edit_utf16_start: u32,
        edit_old_utf16_len: u32,
        edit_new_utf16_len: u32,
    ) -> (r: FfiIncrementalResult)
        requires
            vstd::utf8::encode_utf8(text@).len() <= MAX_SOURCE_LEN,
        ensures
            exists|res: IncrementalResult|
                #[trigger] incremental_outcome(
                    *old(self),
                    vstd::utf8::encode_utf8(text@),
                    edit_utf16_start,
                    edit_old_utf16_len,
                    edit_new_utf16_len,
                    res,
                )
                    && final(self).snapshot() == Some(
                    ParseSnapshot {
                        blocks: res.blocks,
                        line_count: res.line_count,
                        source_byte_len: vstd::utf8::encode_utf8(text@).len() as usize,
                        source_utf16_len: res.total_utf16_len,
                    },
                ) && converts_blocks(res.blocks@, r.blocks@) && r.line_count == res.line_count
                    && r.dirty_start == res.dirty_start && r.dirty_end == res.dirty_end && full_stats(
                    text@,
                    res.blocks@,
                    r.stats,
                ),
            final(self).parse_options() == old(self).parse_options(),
    {
        let result = self.incremental(text.as_str(), edit_utf16_start, edit_old_utf16_len, edit_new_utf16_len);
        let ghost res = result;
        let ghost before = *self;
        let stats = compute_stats(text.as_str(), &result.blocks);
        let blocks = convert_blocks(&result.blocks);
        let line_count = result.line_count;
        let ds = result.dirty_start;
        let de = result.dirty_end;
        let n = text.as_str().as_bytes().len();
        self.state = Some(ParseSnapshot::new(result.blocks, result.line_count, n, result.total_utf16_len));
        proof {
            assert(incremental_outcome(
                before,
                vstd::utf8::encode_utf8(text@),
                edit_utf16_start,
                edit_old_utf16_len,
                edit_new_utf16_len,
                res,
            ));
        }
        FfiIncrementalResult { blocks, line_count, dirty_start: ds, dirty_end: de, stats }
    }

    /// The incremental update against the snapshot, or a full parse.
    fn incremental(
        &self,
        text: &str,
        edit_utf16_start: u32,
        edit_old_utf16_len: u32,
        edit_new_utf16_len: u32,
    ) -> (r: IncrementalResult)
        requires
            text.spec_bytes().len() <= MAX_SOURCE_LEN,
        ensures
            r.dirty_start <= r.dirty_end <= r.blocks@.len() <= MAX_SOURCE_LEN,
            self.snapshot() is None ==> crate::incremental::full_result(
                text.spec_bytes(),
                self.parse_options().scheme_bytes(),
                r,
            ),
            self.snapshot() matches Some(p) ==> crate::incremental::update_outcome(
                p,
                text.spec_bytes(),
                edit_utf16_start,
                edit_old_utf16_len,
                edit_new_utf16_len,
                self.parse_options().scheme_bytes(),
                r,
            ),
    {
        proof {
            use_type_invariant(self);
        }
        match &self.state {
            Some(prev) => incremental_update(
                prev,
                text,
                edit_utf16_start,
                edit_old_utf16_len,
                edit_new_utf16_len,
                &self.options,
            ),
            None => crate::incremental::full_parse_result(text, &self.options),
        }
    }

    /// Like `parse_editable_incremental`, without statistics.
    pub fn parse_editable_incremental_style_only(
        &mut self,
        text: String,
        edit_utf16_start: u32,
        edit_old_utf16_len: u32,
        edit_new_utf16_len: u32,
    ) -> (r: FfiIncrementalStyleResult)
        requires
            vstd::utf8::encode_utf8(text@).len() <= MAX_SOURCE_LEN,
        ensures
            exists|res: IncrementalResult|
                #[trigger] incremental_outcome(
                    *old(self),
                    vstd::utf8::encode_utf8(text@),
                    edit_utf16_start,
                    edit_old_utf16_len,
                    edit_new_utf16_len,
                    res,
                )
                    && final(self).snapshot() == Some(
                    ParseSnapshot {
                        blocks: res.blocks,
                        line_count: res.line_count,
                        source_byte_len: vstd::utf8::encode_utf8(text@).len() as usize,
                        source_utf16_len: res.total_utf16_len,
                    },
                ) && converts_blocks(res.blocks@, r.blocks@) && r.line_count == res.line_count
                    && r.dirty_start == res.dirty_start && r.dirty_end == res.dirty_end,
            final(self).parse_options() == old(self).parse_options(),
    {
        let result = self.incremental(text.as_str(), edit_utf16_start, edit_old_utf16_len, edit_new_utf16_len);
        let ghost res = result;
        let ghost before = *self;
        let blocks = convert_blocks(&result.blocks);
        let line_count = result.line_count;
        let ds = result.dirty_start;
        let de = result.dirty_end;
        let n = text.as_str().as_bytes().len();
        self.state = Some(ParseSnapshot::new(result.blocks, result.line_count, n, result.total_utf16_len));
        proof {
            assert(incremental_outcome(
                before,
                vstd::utf8::encode_utf8(text@),
                edit_utf16_start,
                edit_old_utf16_len,
                edit_new_utf16_len,
                res,
            ));
        }
        FfiIncrementalStyleResult { blocks, line_count, dirty_start: ds, dirty_end: de }
    }

    /// Forget the snapshot.
    pub fn reset_state(&mut self)
        ensures
            final(self).snapshot() is None,
            final(self).parse_options() == old(self).parse_options(),
    {
        self.state = None;
    }

    /// Wiki link titles of the text (see `parser::extract_wiki_links`).
    pub fn extract_wiki_links(&self, text: String) -> (links: Vec<String>)
        ensures
            ({
                let t = crate::parser::code_stripped(vstd::utf8::encode_utf8(text@), 0, false);
                let w = crate::parser::wiki_targets(t, 0);
                &&& links@.len() == w.len()
                &&& forall|k: int|
                    0 <= k < links@.len() ==> (#[trigger] links@[k])@ == lossy_text(
                        t.subrange(w[k].0, w[k].1),
                    )
            }),
    {
        crate::parser::extract_wiki_links(text.as_str())
    }

    /// Toggle the checkbox on a line (see `parser::toggle_checkbox`).
    pub fn toggle_checkbox(&self, text: String, line_index: u32) -> (r: String)
        ensures
            r@ == lossy_text(crate::parser::toggled(vstd::utf8::encode_utf8(text@), line_index as nat)),
            r@ == vstd::utf8::decode_utf8(crate::parser::toggled(vstd::utf8::encode_utf8(text@), line_index as nat)),
    {
        crate::parser::toggle_checkbox(text.as_str(), line_index)
    }

    /// A preview of at most `max_chars` UTF-16 units.
    pub fn render_preview(&self, text: String, max_chars: u32) -> (r: FfiRenderedPreview)
        requires
            vstd::utf8::encode_utf8(text@).len() <= MAX_SOURCE_LEN,
        ensures
            text@.len() == 0 ==> crate::preview::blank_preview(r),
            text@.len() > 0 ==> exists|doc: Document|
                #[trigger] crate::preview::preview_parse(
                    vstd::utf8::encode_utf8(text@),
                    self.parse_options(),
                    doc,
                ) && crate::preview::previews_of(doc, max_chars as int, seq![max_chars], seq![r]),
    {
        crate::preview::render_preview_impl(text.as_str(), max_chars, &self.options)
    }

    /// A short and a long preview from one parse.
    pub fn render_previews(&self, text: String, short_max: u32, long_max: u32) -> (r: Vec<
        FfiRenderedPreview,
    >)
        requires
            vstd::utf8::encode_utf8(text@).len() <= MAX_SOURCE_LEN,
        ensures
            r@.len() == 2,
            text@.len() == 0 ==> crate::preview::blank_preview(r@[0]) && crate::preview::blank_preview(
                r@[1],
            ),
            text@.len() > 0 ==> exists|doc: Document|
                #[trigger] crate::preview::preview_parse(
                    vstd::utf8::encode_utf8(text@),
                    self.parse_options(),
                    doc,
                ) && crate::preview::previews_of(
                    doc,
                    (if short_max > long_max {
                        short_max
                    } else {
                        long_max
                    }) as int,
                    seq![short_max, long_max],
                    r@,
                ),
    {
        crate::preview::render_previews_impl(text.as_str(), short_max, long_max, &self.options)
    }

    /// Everything a save needs from one grouped parse: blocks, statistics,
    /// wiki links, headings, and a short and a long preview.
    pub fn parse_for_save(&self, text: String, short_preview_max: u32, long_preview_max: u32) -> (r:
        FfiSaveParseResult)
        requires
            vstd::utf8::encode_utf8(text@).len() <= MAX_SOURCE_LEN,
        ensures
            exists|doc: Document|
                #![trigger document_of(vstd::utf8::encode_utf8(text@), ParseMode::Grouped, doc)]
                document_of(vstd::utf8::encode_utf8(text@), ParseMode::Grouped, doc)
                    && blocks_follow_rules(
                    vstd::utf8::encode_utf8(text@),
                    ParseMode::Grouped,
                    self.parse_options().scheme_bytes(),
                    doc.blocks@,
                ) && r.line_count == doc.line_count && r.blocks@.len() == doc.blocks@.len()
                    && (forall|k: int|
                    0 <= k < r.blocks@.len() ==> converts_block(
                        doc.blocks@[k],
                        #[trigger] r.blocks@[k],
                    )) && full_stats(text@, doc.blocks@, r.stats)
                    && distinct_strings(r.wiki_links@) && views(r.wiki_links@) == doc_targets(
                    Seq::empty(),
                    vstd::utf8::encode_utf8(text@),
                    doc.blocks@,
                    0,
                ) && r.headings@ == heading_list(doc.blocks@) && crate::preview::previews_of(
                    doc,
                    (if short_preview_max > long_preview_max {
                        short_preview_max
                    } else {
                        long_preview_max
                    }) as int,
                    seq![short_preview_max, long_preview_max],
                    seq![r.short_preview, r.long_preview],
                ),
    {
        let doc = parse_with_options(text.as_str(), ParseMode::Grouped, &self.options);
        proof {
            lemma_doc_fits(vstd::utf8::encode_utf8(text@), ParseMode::Grouped, doc);
        }
        let stats = compute_stats(text.as_str(), &doc.blocks);
        let wiki_links = extract_wiki_links_from_doc(&doc, text.as_str());
        let headings = extract_headings_from_doc(&doc);
        let blocks = convert_blocks(&doc.blocks);
        let limit = if short_preview_max > long_preview_max {
            short_preview_max
        } else {
            long_preview_max
        };
        let (short_preview, long_preview) = match crate::preview::build_clean_preview_from_doc(
            &doc,
            limit as usize,
        ) {
            Some(p) => {
                let a = crate::preview::truncate_preview(&p, short_preview_max);
                let b = crate::preview::truncate_preview(&p, long_preview_max);
                proof {
                    crate::preview::lemma_previews_pair(
                        doc,
                        limit as int,
                        p,
                        short_preview_max,
                        long_preview_max,
                        a,
                        b,
                    );
                }
                (a, b)
            },
            None => {
                let a = crate::preview::empty_preview();
                let b = crate::preview::empty_preview();
                proof {
                    crate::preview::lemma_previews_blank(
                        doc,
                        limit as int,
                        short_preview_max,
                        long_preview_max,
                        a,
                        b,
                    );
                }
                (a, b)
            },
        };
        FfiSaveParseResult {
            blocks,
            line_count: doc.line_count,
            stats,
            wiki_links,
            headings,
            short_preview,
            long_preview,
        }
    }
}

/// What `sanitize_scheme` keeps.
pub open spec fn sanitize_scheme_spec(scheme: Option<String>) -> Option<String> {
    match scheme {
        Some(x) => if scheme_usable(vstd::utf8::encode_utf8(x@)) {
            Some(x)
        } else {
            None
        },
        None => None,
    }
}

impl Default for CindermarkParser {
    fn default() -> (p: Self)
        ensures
            p.snapshot() is None,
            p.parse_options().image_marker_scheme is None,
    {
        CindermarkParser::new(None)
    }
}

/// A parsed document has no more blocks than the source has bytes.
proof fn lemma_doc_fits(s: Seq<u8>, mode: ParseMode, doc: Document)
    requires
        s.len() <= MAX_SOURCE_LEN,
        document_of(s, mode, doc),
    ensures
        doc.blocks@.len() <= MAX_SOURCE_LEN,
{
    crate::lines::lemma_lines_shape(s, 0);
    lemma_doc_count(s, mode, doc.blocks@, doc.blocks@.len() as int);
}

proof fn lemma_doc_count(s: Seq<u8>, mode: ParseMode, bs: Seq<BlockNode>, k: int)
    requires
        0 <= k <= bs.len(),
        crate::parser::layout(s, mode, bs, crate::lines::source_lines(s).len() as int),
    ensures
        k > 0 ==> bs[k - 1].line_end >= k,
        k <= crate::lines::source_lines(s).len(),
    decreases k,
{
    if k > 0 {
        lemma_doc_count(s, mode, bs, k - 1);
        assert(crate::parser::placed(s, bs[k - 1]));
        if k > 1 {
            assert(crate::parser::gap_ok(s, mode, bs[k - 2], bs[k - 1].line_start as int));
        }
    }
}

} // verus!
