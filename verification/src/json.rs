//! Compact JSON summaries of parse results, for browser demos: blocks with
//! their spans, statistics, and incremental-update summaries. Strings are
//! escaped as JSON requires; numbers are written in decimal.
use vstd::prelude::*;
use vstd::string::StringSliceAdditionalSpecFns;
use vstd::utf8::encode_utf8;
use crate::ast::{Document, ParseMode};
use crate::ffi::{
    CindermarkParser, FfiBlock, FfiBlockType, FfiInlineSpan, FfiInlineType, FfiParseResult,
    result_of, incremental_outcome, converts_blocks,
};
use crate::incremental::{IncrementalResult, ParseSnapshot};
use crate::parser::{document_of, blocks_follow_rules};
use crate::utf16::utf16_total;
use crate::text::{push_all, string_from_bytes, lossy_text};
use crate::utf16::MAX_SOURCE_LEN;

verus! {

/// Decimal digits of `v`.
pub open spec fn decimal(v: nat) -> Seq<u8>
    decreases v,
{
    if v < 10 {
        seq![(48 + v) as u8]
    } else {
        decimal(v / 10) + seq![(48 + v % 10) as u8]
    }
}

/// Append the decimal digits of `value`.
fn push_u32(out: &mut Vec<u8>, value: u32)
    ensures
        final(out)@ == old(out)@ + decimal(value as nat),
    decreases value,
{
    let ghost o = out@;
    if value >= 10 {
        push_u32(out, value / 10);
    }
    let ghost mid = out@;
    out.push(48u8 + (value % 10) as u8);
    proof {
        if value >= 10 {
            assert(mid == o + decimal((value / 10) as nat));
            assert(decimal(value as nat) == decimal((value / 10) as nat) + seq![(48 + value % 10) as u8]);
            assert(out@ =~= o + decimal(value as nat));
        } else {
            assert(out@ =~= o + decimal(value as nat));
        }
    }
}

/// Lowercase hex digit of `d < 16`.
pub open spec fn hex_digit(d: int) -> u8 {
    if d < 10 {
        (48 + d) as u8
    } else {
        (87 + d) as u8
    }
}

/// JSON escape of one byte.
pub open spec fn escape_byte(c: u8) -> Seq<u8> {
    if c == 34u8 {
        seq![92u8, 34u8]
    } else if c == 92u8 {
        seq![92u8, 92u8]
    } else if c == 10u8 {
        seq![92u8, 110u8]
    } else if c == 13u8 {
        seq![92u8, 114u8]
    } else if c == 9u8 {
        seq![92u8, 116u8]
    } else if c < 0x20 {
        seq![92u8, 117u8, 48u8, 48u8, hex_digit((c / 16) as int), hex_digit((c % 16) as int)]
    } else {
        seq![c]
    }
}

/// JSON escape of the bytes `s[0..n]`.
pub open spec fn escaped(s: Seq<u8>, n: int) -> Seq<u8>
    decreases n,
{
    if n <= 0 {
        Seq::empty()
    } else {
        escaped(s, n - 1) + escape_byte(s[n - 1])
    }
}

/// Append `value` as a JSON string literal.
fn push_json_string(out: &mut Vec<u8>, value: &str)
    ensures
        final(out)@ == old(out)@ + seq![34u8] + escaped(value.spec_bytes(), value.spec_bytes().len() as int)
            + seq![34u8],
{
    let b = value.as_bytes();
    out.push(34u8);
    let ghost start = out@;
    let mut k: usize = 0;
    while k < b.len()
        invariant
            k <= b@.len(),
            b@ == value.spec_bytes(),
            out@ == start + escaped(b@, k as int),
        decreases b@.len() - k,
    {
        let c = b[k];
        let ghost before = out@;
        if c == 34u8 {
            out.push(92u8);
            out.push(34u8);
        } else if c == 92u8 {
            out.push(92u8);
            out.push(92u8);
        } else if c == 10u8 {
            out.push(92u8);
            out.push(110u8);
        } else if c == 13u8 {
            out.push(92u8);
            out.push(114u8);
        } else if c == 9u8 {
            out.push(92u8);
            out.push(116u8);
        } else if c < 0x20 {
            out.push(92u8);
            out.push(117u8);
            out.push(48u8);
            out.push(48u8);
            let hi = c / 16;
            let lo = c % 16;
            out.push(if hi < 10 {
                48u8 + hi
            } else {
                87u8 + hi
            });
            out.push(if lo < 10 {
                48u8 + lo
            } else {
                87u8 + lo
            });
        } else {
            out.push(c);
        }
        proof {
            assert(out@ =~= before + escape_byte(c));
            assert(escaped(b@, k + 1) == escaped(b@, k as int) + escape_byte(b@[k as int]));
        }
        k = k + 1;
    }
    out.push(34u8);
    proof {
        assert(out@ =~= old(out)@ + seq![34u8] + escaped(value.spec_bytes(), value.spec_bytes().len() as int) + seq![34u8]);
    }
}

/// A JSON string literal holding the bytes `s`.
pub open spec fn json_str(s: Seq<u8>) -> Seq<u8> {
    seq![34u8] + escaped(s, s.len() as int) + seq![34u8]
}

/// Append a literal.
fn push_lit(out: &mut Vec<u8>, lit: &str)
    ensures
        final(out)@ == old(out)@ + lit.spec_bytes(),
{
    push_all(out, lit.as_bytes());
}

/// JSON name of a block type.
pub open spec fn block_type_label(t: FfiBlockType) -> Seq<char> {
    match t {
        FfiBlockType::Heading => "heading"@,
        FfiBlockType::Paragraph => "paragraph"@,
        FfiBlockType::CodeBlock => "code"@,
        FfiBlockType::Blockquote => "blockquote"@,
        FfiBlockType::BulletList => "bulletList"@,
        FfiBlockType::OrderedList => "orderedList"@,
        FfiBlockType::Checkbox => "checkbox"@,
        FfiBlockType::Table => "table"@,
        FfiBlockType::HorizontalRule => "hr"@,
        FfiBlockType::Empty => "empty"@,
        FfiBlockType::FootnoteDefinition => "footnote"@,
        FfiBlockType::ImageMarker => "imageMarker"@,
        FfiBlockType::BulletItem => "bulletItem"@,
        FfiBlockType::NumberedItem => "numberedItem"@,
        FfiBlockType::Callout { .. } => "callout"@,
        FfiBlockType::MermaidDiagram { .. } => "mermaid"@,
    }
}

/// JSON name of a block type.
fn block_type_name(t: &FfiBlockType) -> (s: &'static str)
    ensures
        s@ == block_type_label(*t),
{
    match t {
        FfiBlockType::Heading => "heading",
        FfiBlockType::Paragraph => "paragraph",
        FfiBlockType::CodeBlock => "code",
        FfiBlockType::Blockquote => "blockquote",
        FfiBlockType::BulletList => "bulletList",
        FfiBlockType::OrderedList => "orderedList",
        FfiBlockType::Checkbox => "checkbox",
        FfiBlockType::Table => "table",
        FfiBlockType::HorizontalRule => "hr",
        FfiBlockType::Empty => "empty",
        FfiBlockType::FootnoteDefinition => "footnote",
        FfiBlockType::ImageMarker => "imageMarker",
        FfiBlockType::BulletItem => "bulletItem",
        FfiBlockType::NumberedItem => "numberedItem",
        FfiBlockType::Callout { .. } => "callout",
        FfiBlockType::MermaidDiagram { .. } => "mermaid",
    }
}

/// JSON name of an inline type.
pub open spec fn inline_type_label(t: FfiInlineType) -> Seq<char> {
    match t {
        FfiInlineType::Bold => "bold"@,
        FfiInlineType::Italic => "italic"@,
        FfiInlineType::BoldItalic => "boldItalic"@,
        FfiInlineType::Strikethrough => "strike"@,
        FfiInlineType::UnderlineTilde => "underline"@,
        FfiInlineType::UnderlineHtml => "underline"@,
        FfiInlineType::InlineCode => "code"@,
        FfiInlineType::Highlight => "highlight"@,
        FfiInlineType::HighlightColor { .. } => "highlight"@,
        FfiInlineType::HighlightHex { .. } => "highlight"@,
        FfiInlineType::Link { .. } => "link"@,
        FfiInlineType::AutoLink { .. } => "autolink"@,
        FfiInlineType::WikiLink => "wikiLink"@,
        FfiInlineType::FootnoteRef => "footnoteRef"@,
        FfiInlineType::Comment => "comment"@,
        FfiInlineType::HexColor { .. } => "hexColor"@,
    }
}

/// JSON name of an inline type.
fn inline_type_name(t: &FfiInlineType) -> (s: &'static str)
    ensures
        s@ == inline_type_label(*t),
{
    match t {
        FfiInlineType::Bold => "bold",
        FfiInlineType::Italic => "italic",
        FfiInlineType::BoldItalic => "boldItalic",
        FfiInlineType::Strikethrough => "strike",
        FfiInlineType::UnderlineTilde => "underline",
        FfiInlineType::UnderlineHtml => "underline",
        FfiInlineType::InlineCode => "code",
        FfiInlineType::Highlight => "highlight",
        FfiInlineType::HighlightColor { .. } => "highlight",
        FfiInlineType::HighlightHex { .. } => "highlight",
        FfiInlineType::Link { .. } => "link",
        FfiInlineType::AutoLink { .. } => "autolink",
        FfiInlineType::WikiLink => "wikiLink",
        FfiInlineType::FootnoteRef => "footnoteRef",
        FfiInlineType::Comment => "comment",
        FfiInlineType::HexColor { .. } => "hexColor",
    }
}

/// The fields a span's JSON object carries for its type.
pub open spec fn span_extra(t: FfiInlineType) -> Seq<u8> {
    match t {
        FfiInlineType::Link { url } => ",\"url\":".spec_bytes() + json_str(encode_utf8(url@)),
        FfiInlineType::AutoLink { url } => ",\"url\":".spec_bytes() + json_str(encode_utf8(url@)),
        FfiInlineType::HighlightHex { hex } => ",\"hex\":".spec_bytes() + json_str(encode_utf8(hex@)),
        FfiInlineType::HexColor { hex } => ",\"hex\":".spec_bytes() + json_str(encode_utf8(hex@)),
        FfiInlineType::HighlightColor { color_index } => ",\"colorIndex\":".spec_bytes() + decimal(
            color_index as nat,
        ),
        _ => Seq::empty(),
    }
}

/// The JSON object of one span.
pub open spec fn span_bytes(sp: FfiInlineSpan) -> Seq<u8> {
    "{\"type\":\"".spec_bytes() + encode_utf8(inline_type_label(sp.inline_type)) + seq![34u8]
        + span_extra(sp.inline_type) + ",\"start\":".spec_bytes() + decimal(sp.utf16_start as nat)
        + ",\"end\":".spec_bytes() + decimal(sp.utf16_end as nat) + ",\"contentStart\":".spec_bytes()
        + decimal(sp.content_utf16_start as nat) + ",\"contentEnd\":".spec_bytes() + decimal(
        sp.content_utf16_end as nat,
    ) + seq![125u8]
}

/// The parts joined with commas.
pub open spec fn joined(parts: Seq<Seq<u8>>) -> Seq<u8>
    decreases parts.len(),
{
    if parts.len() == 0 {
        Seq::empty()
    } else if parts.len() == 1 {
        parts[0]
    } else {
        joined(parts.drop_last()) + seq![44u8] + parts.last()
    }
}

/// The JSON objects of the spans, comma-separated.
pub open spec fn spans_json(sps: Seq<FfiInlineSpan>) -> Seq<u8> {
    joined(sps.map_values(|sp: FfiInlineSpan| span_bytes(sp)))
}

/// The JSON object of one span.
fn span_json(sp: &FfiInlineSpan) -> (r: Vec<u8>)
    ensures
        r@ == span_bytes(*sp),
{
    let mut out: Vec<u8> = Vec::new();
    push_lit(&mut out, "{\"type\":\"");
    push_lit(&mut out, inline_type_name(&sp.inline_type));
    out.push(34u8);
    let ghost head = out@;
    match &sp.inline_type {
        FfiInlineType::Link { url } => {
            push_lit(&mut out, ",\"url\":");
            push_json_string(&mut out, url.as_str());
        },
        FfiInlineType::AutoLink { url } => {
            push_lit(&mut out, ",\"url\":");
            push_json_string(&mut out, url.as_str());
        },
        FfiInlineType::HighlightHex { hex } => {
            push_lit(&mut out, ",\"hex\":");
            push_json_string(&mut out, hex.as_str());
        },
        FfiInlineType::HexColor { hex } => {
            push_lit(&mut out, ",\"hex\":");
            push_json_string(&mut out, hex.as_str());
        },
        FfiInlineType::HighlightColor { color_index } => {
            push_lit(&mut out, ",\"colorIndex\":");
            push_u32(&mut out, *color_index as u32);
        },
        _ => {},
    }
    proof {
        assert(out@ =~= head + span_extra(sp.inline_type));
    }
    push_lit(&mut out, ",\"start\":");
    push_u32(&mut out, sp.utf16_start);
    push_lit(&mut out, ",\"end\":");
    push_u32(&mut out, sp.utf16_end);
    push_lit(&mut out, ",\"contentStart\":");
    push_u32(&mut out, sp.content_utf16_start);
    push_lit(&mut out, ",\"contentEnd\":");
    push_u32(&mut out, sp.content_utf16_end);
    out.push(125u8);
    proof {
        assert(out@ =~= span_bytes(*sp));
    }
    out
}

/// One more part joined on.
proof fn lemma_joined_push(parts: Seq<Seq<u8>>, p: Seq<u8>)
    ensures
        joined(parts.push(p)) == if parts.len() == 0 {
            p
        } else {
            joined(parts) + seq![44u8] + p
        },
{
    assert(parts.push(p).drop_last() =~= parts);
}

/// Append the spans as JSON objects, comma-separated.
fn push_spans(out: &mut Vec<u8>, spans: &Vec<FfiInlineSpan>)
    ensures
        final(out)@ == old(out)@ + spans_json(spans@),
{
    let ghost start = out@;
    let mut i: usize = 0;
    while i < spans.len()
        invariant
            i <= spans@.len(),
            out@ == start + spans_json(spans@.subrange(0, i as int)),
        decreases spans@.len() - i,
    {
        let one = span_json(&spans[i]);
        let ghost o = out@;
        if i > 0 {
            out.push(44u8);
        }
        push_all(out, one.as_slice());
        proof {
            let f = |sp: FfiInlineSpan| span_bytes(sp);
            let before = spans@.subrange(0, i as int);
            assert(spans@.subrange(0, i + 1) =~= before.push(spans@[i as int]));
            assert(before.push(spans@[i as int]).map_values(f) =~= before.map_values(f).push(
                span_bytes(spans@[i as int]),
            ));
            lemma_joined_push(before.map_values(f), span_bytes(spans@[i as int]));
            assert(out@ =~= start + spans_json(spans@.subrange(0, i + 1)));
        }
        i = i + 1;
    }
    proof {
        assert(spans@.subrange(0, spans@.len() as int) =~= spans@);
    }
}

/// The fields a block's JSON object carries for its type.
pub open spec fn block_extra(blk: FfiBlock) -> Seq<u8> {
    match blk.block_type {
        FfiBlockType::Heading => ",\"level\":".spec_bytes() + decimal(blk.heading_level as nat),
        FfiBlockType::Checkbox => ",\"checked\":".spec_bytes() + (if blk.is_checked {
            "true".spec_bytes()
        } else {
            "false".spec_bytes()
        }),
        FfiBlockType::Callout { kind } => ",\"kind\":".spec_bytes() + decimal(kind as nat),
        FfiBlockType::MermaidDiagram { diagram_type } => ",\"diagram\":".spec_bytes() + decimal(
            diagram_type as nat,
        ),
        FfiBlockType::NumberedItem => ",\"number\":".spec_bytes() + decimal(blk.number as nat),
        _ => Seq::empty(),
    }
}

/// The language field of a block's JSON object, when it has one.
pub open spec fn language_json(language: Option<String>) -> Seq<u8> {
    match language {
        Some(l) => ",\"language\":".spec_bytes() + json_str(encode_utf8(l@)),
        None => Seq::empty(),
    }
}

/// The JSON object of one block.
pub open spec fn block_bytes(blk: FfiBlock) -> Seq<u8> {
    "{\"type\":\"".spec_bytes() + encode_utf8(block_type_label(blk.block_type)) + seq![34u8]
        + block_extra(blk) + language_json(blk.language) + ",\"lineStart\":".spec_bytes() + decimal(
        blk.line_start as nat,
    ) + ",\"lineEnd\":".spec_bytes() + decimal(blk.line_end as nat) + ",\"start\":".spec_bytes()
        + decimal(blk.utf16_start as nat) + ",\"end\":".spec_bytes() + decimal(blk.utf16_end as nat)
        + ",\"markerEnd\":".spec_bytes() + decimal(blk.marker_utf16_end as nat)
        + ",\"indent\":".spec_bytes() + decimal(blk.list_indent as nat) + ",\"spans\":[".spec_bytes()
        + spans_json(blk.inline_spans@) + "]}".spec_bytes()
}

/// The JSON objects of the blocks, comma-separated.
pub open spec fn blocks_json(bs: Seq<FfiBlock>) -> Seq<u8> {
    joined(bs.map_values(|b: FfiBlock| block_bytes(b)))
}

/// The JSON object of one block.
fn block_json(blk: &FfiBlock) -> (r: Vec<u8>)
    ensures
        r@ == block_bytes(*blk),
{
    let mut out: Vec<u8> = Vec::new();
    push_lit(&mut out, "{\"type\":\"");
    push_lit(&mut out, block_type_name(&blk.block_type));
    out.push(34u8);
    let ghost head = out@;
    match &blk.block_type {
        FfiBlockType::Heading => {
            push_lit(&mut out, ",\"level\":");
            push_u32(&mut out, blk.heading_level as u32);
        },
        FfiBlockType::Checkbox => {
            push_lit(&mut out, ",\"checked\":");
            push_lit(
                &mut out,
                if blk.is_checked {
                    "true"
                } else {
                    "false"
                },
            );
        },
        FfiBlockType::Callout { kind } => {
            push_lit(&mut out, ",\"kind\":");
            push_u32(&mut out, *kind as u32);
        },
        FfiBlockType::MermaidDiagram { diagram_type } => {
            push_lit(&mut out, ",\"diagram\":");
            push_u32(&mut out, *diagram_type as u32);
        },
        FfiBlockType::NumberedItem => {
            push_lit(&mut out, ",\"number\":");
            push_u32(&mut out, blk.number);
        },
        _ => {},
    }
    proof {
        assert(out@ =~= head + block_extra(*blk));
    }
    let ghost mid = out@;
    match &blk.language {
        Some(language) => {
            push_lit(&mut out, ",\"language\":");
            push_json_string(&mut out, language.as_str());
        },
        None => {},
    }
    proof {
        assert(out@ =~= mid + language_json(blk.language));
    }
    push_lit(&mut out, ",\"lineStart\":");
    push_u32(&mut out, blk.line_start);
    push_lit(&mut out, ",\"lineEnd\":");
    push_u32(&mut out, blk.line_end);
    push_lit(&mut out, ",\"start\":");
    push_u32(&mut out, blk.utf16_start);
    push_lit(&mut out, ",\"end\":");
    push_u32(&mut out, blk.utf16_end);
    push_lit(&mut out, ",\"markerEnd\":");
    push_u32(&mut out, blk.marker_utf16_end);
    push_lit(&mut out, ",\"indent\":");
    push_u32(&mut out, blk.list_indent);
    push_lit(&mut out, ",\"spans\":[");
    push_spans(&mut out, &blk.inline_spans);
    push_lit(&mut out, "]}");
    proof {
        assert(out@ =~= block_bytes(*blk));
    }
    out
}

/// Append the blocks as JSON objects, comma-separated.
fn push_blocks(out: &mut Vec<u8>, blocks: &Vec<FfiBlock>)
    ensures
        final(out)@ == old(out)@ + blocks_json(blocks@),
{
    let ghost start = out@;
    let mut i: usize = 0;
    while i < blocks.len()
        invariant
            i <= blocks@.len(),
            out@ == start + blocks_json(blocks@.subrange(0, i as int)),
        decreases blocks@.len() - i,
    {
        let one = block_json(&blocks[i]);
        if i > 0 {
            out.push(44u8);
        }
        push_all(out, one.as_slice());
        proof {
            let f = |b: FfiBlock| block_bytes(b);
            let before = blocks@.subrange(0, i as int);
            assert(blocks@.subrange(0, i + 1) =~= before.push(blocks@[i as int]));
            assert(before.push(blocks@[i as int]).map_values(f) =~= before.map_values(f).push(
                block_bytes(blocks@[i as int]),
            ));
            lemma_joined_push(before.map_values(f), block_bytes(blocks@[i as int]));
            assert(out@ =~= start + blocks_json(blocks@.subrange(0, i + 1)));
        }
        i = i + 1;
    }
    proof {
        assert(blocks@.subrange(0, blocks@.len() as int) =~= blocks@);
    }
}

/// The JSON answer to a full parse:
/// `{"blocks":[…],"lineCount":n,"stats":{…}}`.
pub open spec fn parse_json_bytes(r: FfiParseResult) -> Seq<u8> {
    "{\"blocks\":[".spec_bytes() + blocks_json(r.blocks@) + "],\"lineCount\":".spec_bytes() + decimal(
        r.line_count as nat,
    ) + ",\"stats\":{\"words\":".spec_bytes() + decimal(r.stats.word_count as nat)
        + ",\"readingSeconds\":".spec_bytes() + decimal(r.stats.reading_time_seconds as nat)
        + ",\"checkboxTotal\":".spec_bytes() + decimal(r.stats.checkbox_total as nat)
        + ",\"checkboxDone\":".spec_bytes() + decimal(r.stats.checkbox_completed as nat)
        + ",\"headings\":".spec_bytes() + decimal(r.stats.heading_count as nat)
        + ",\"links\":".spec_bytes() + decimal(r.stats.link_count as nat) + "}}".spec_bytes()
}

/// The JSON answer to a keystroke:
/// `{"dirtyStart":n,"dirtyEnd":n,"blockCount":n,"lineCount":n}`, the block
/// count capped at `u32::MAX`.
pub open spec fn keystroke_json_bytes(res: IncrementalResult) -> Seq<u8> {
    let count: nat = if res.blocks@.len() > 0xFFFF_FFFF {
        0xFFFF_FFFF
    } else {
        res.blocks@.len()
    };
    "{\"dirtyStart\":".spec_bytes() + decimal(res.dirty_start as nat) + ",\"dirtyEnd\":".spec_bytes()
        + decimal(res.dirty_end as nat) + ",\"blockCount\":".spec_bytes() + decimal(count)
        + ",\"lineCount\":".spec_bytes() + decimal(res.line_count as nat) + seq![125u8]
}

/// A parser for browser demos, answering in JSON.
pub struct WasmParser {
    inner: CindermarkParser,
}

impl WasmParser {
    /// The parser that does the work.
    pub closed spec fn engine(&self) -> CindermarkParser {
        self.inner
    }

    /// The incremental snapshot of the inner parser.
    pub open spec fn snapshot(&self) -> Option<ParseSnapshot> {
        self.engine().snapshot()
    }

    /// A parser with no image-marker scheme.
    pub fn new() -> (p: Self)
        ensures
            p.snapshot() is None,
            p.engine().parse_options().image_marker_scheme is None,
    {
        WasmParser { inner: CindermarkParser::new(None) }
    }

    /// Full editable parse (which primes the incremental snapshot), as
    /// `{"blocks":[…],"lineCount":n,"stats":{…}}`.
    pub fn parse_json(&mut self, text: String) -> (json: String)
        requires
            encode_utf8(text@).len() <= MAX_SOURCE_LEN,
        ensures
            exists|doc: Document, r: FfiParseResult|
                #![trigger document_of(encode_utf8(text@), ParseMode::Editable, doc), result_of(text@, doc, r)]
                document_of(encode_utf8(text@), ParseMode::Editable, doc) && blocks_follow_rules(
                    encode_utf8(text@),
                    ParseMode::Editable,
                    old(self).engine().parse_options().scheme_bytes(),
                    doc.blocks@,
                ) && result_of(text@, doc, r) && json@ == lossy_text(parse_json_bytes(r))
                    && final(self).snapshot() == Some(
                    ParseSnapshot {
                        blocks: doc.blocks,
                        line_count: doc.line_count,
                        source_byte_len: encode_utf8(text@).len() as usize,
                        source_utf16_len: utf16_total(encode_utf8(text@)) as u32,
                    },
                ),
            final(self).engine().parse_options() == old(self).engine().parse_options(),
    {
        let ghost t = text@;
        let result = self.inner.parse_editable(text);
        let mut out: Vec<u8> = Vec::new();
        push_lit(&mut out, "{\"blocks\":[");
        push_blocks(&mut out, &result.blocks);
        push_lit(&mut out, "],\"lineCount\":");
        push_u32(&mut out, result.line_count);
        push_lit(&mut out, ",\"stats\":{\"words\":");
        push_u32(&mut out, result.stats.word_count);
        push_lit(&mut out, ",\"readingSeconds\":");
        push_u32(&mut out, result.stats.reading_time_seconds);
        push_lit(&mut out, ",\"checkboxTotal\":");
        push_u32(&mut out, result.stats.checkbox_total);
        push_lit(&mut out, ",\"checkboxDone\":");
        push_u32(&mut out, result.stats.checkbox_completed);
        push_lit(&mut out, ",\"headings\":");
        push_u32(&mut out, result.stats.heading_count);
        push_lit(&mut out, ",\"links\":");
        push_u32(&mut out, result.stats.link_count);
        push_lit(&mut out, "}}");
        proof {
            assert(out@ =~= parse_json_bytes(result));
        }
        string_from_bytes(out.as_slice())
    }

    /// Incremental update after one edit, summarized as
    /// `{"dirtyStart":n,"dirtyEnd":n,"blockCount":n,"lineCount":n}`.
    pub fn keystroke(
        &mut self,
        text: String,
        edit_utf16_start: u32,
        edit_old_utf16_len: u32,
        edit_new_utf16_len: u32,
    ) -> (json: String)
        requires
            encode_utf8(text@).len() <= MAX_SOURCE_LEN,
        ensures
            exists|res: IncrementalResult|
                #[trigger] incremental_outcome(
                    old(self).engine(),
                    encode_utf8(text@),
                    edit_utf16_start,
                    edit_old_utf16_len,
                    edit_new_utf16_len,
                    res,
                )
                    && final(self).snapshot() == Some(
                    ParseSnapshot {
                        blocks: res.blocks,
                        line_count: res.line_count,
                        source_byte_len: encode_utf8(text@).len() as usize,
                        source_utf16_len: res.total_utf16_len,
                    },
                ) && json@ == lossy_text(keystroke_json_bytes(res)),
            final(self).engine().parse_options() == old(self).engine().parse_options(),
    {
        let update = self.inner.parse_editable_incremental_style_only(
            text,
            edit_utf16_start,
            edit_old_utf16_len,
            edit_new_utf16_len,
        );
        let mut out: Vec<u8> = Vec::new();
        push_lit(&mut out, "{\"dirtyStart\":");
        push_u32(&mut out, update.dirty_start);
        push_lit(&mut out, ",\"dirtyEnd\":");
        push_u32(&mut out, update.dirty_end);
        push_lit(&mut out, ",\"blockCount\":");
        let count: u32 = if update.blocks.len() > 0xFFFF_FFFF {
            0xFFFF_FFFF
        } else {
            update.blocks.len() as u32
        };
        push_u32(&mut out, count);
        push_lit(&mut out, ",\"lineCount\":");
        push_u32(&mut out, update.line_count);
        out.push(125u8);
        let ghost bytes = out@;
        let json = string_from_bytes(out.as_slice());
        proof {
            let res = choose|res: IncrementalResult|
                #[trigger] incremental_outcome(
                    old(self).engine(),
                    encode_utf8(text@),
                    edit_utf16_start,
                    edit_old_utf16_len,
                    edit_new_utf16_len,
                    res,
                )
                    && final(self).snapshot() == Some(
                    ParseSnapshot {
                        blocks: res.blocks,
                        line_count: res.line_count,
                        source_byte_len: encode_utf8(text@).len() as usize,
                        source_utf16_len: res.total_utf16_len,
                    },
                ) && converts_blocks(res.blocks@, update.blocks@) && update.line_count
                    == res.line_count && update.dirty_start == res.dirty_start && update.dirty_end
                    == res.dirty_end;
            assert(bytes =~= keystroke_json_bytes(res));
        }
        json
    }

    /// Drop the incremental snapshot.
    pub fn reset_state(&mut self)
        ensures
            final(self).snapshot() is None,
            final(self).engine().parse_options() == old(self).engine().parse_options(),
    {
        self.inner.reset_state();
    }

    /// Toggle the checkbox on a line.
    pub fn toggle_checkbox(&self, text: String, line_index: u32) -> (r: String)
        ensures
            r@ == lossy_text(crate::parser::toggled(encode_utf8(text@), line_index as nat)),
    {
        self.inner.toggle_checkbox(text, line_index)
    }
}

} // verus!
