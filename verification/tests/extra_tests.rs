use cindermark::ast::{CalloutKind, ColumnAlignment, InlineKind, MermaidDiagramType, ParseMode};
use cindermark::ast::is_mermaid_info_string;
use cindermark::ffi::sanitize_scheme;
use cindermark::html::{block_start, HtmlEnd};
use cindermark::json::WasmParser;
use cindermark::parser::{parse, parse_alignments, parse_callout_header, parse_table_row, toggle_checkbox};
use cindermark::utf16::Utf16Map;
use cindermark::CindermarkParser;

// MARK: - Checkbox toggling

#[test]
fn toggle_twice_restores_unchecked_and_checked() {
    let text = "- [ ] a\n- [x] b";
    let once = toggle_checkbox(text, 0);
    assert_eq!(once, "- [x] a\n- [x] b");
    assert_eq!(toggle_checkbox(&once, 0), text);
    let other = toggle_checkbox(text, 1);
    assert_eq!(other, "- [ ] a\n- [ ] b");
    assert_eq!(toggle_checkbox(&other, 1), text);
}

#[test]
fn toggle_twice_turns_upper_x_into_lower_x() {
    let once = toggle_checkbox("- [X] done", 0);
    assert_eq!(once, "- [ ] done");
    assert_eq!(toggle_checkbox(&once, 0), "- [x] done");
}

#[test]
fn toggle_without_checkbox_keeps_text() {
    assert_eq!(toggle_checkbox("plain line", 0), "plain line");
    assert_eq!(toggle_checkbox("- [ ] a", 3), "- [ ] a");
}

// MARK: - Editable layout

#[test]
fn editable_blocks_tile_the_lines() {
    let doc = parse("# T\n\npara\n- item\n", ParseMode::Editable);
    assert!(!doc.blocks.is_empty());
    assert_eq!(doc.blocks[0].line_start, 0);
    for k in 0..doc.blocks.len() - 1 {
        assert_eq!(doc.blocks[k].line_end, doc.blocks[k + 1].line_start);
    }
    assert_eq!(doc.blocks[doc.blocks.len() - 1].line_end, doc.line_count);
}

#[test]
fn parses_of_the_same_text_agree() {
    let text = "a\n> q\n\n```rust\nx\n```\n| h |\n|---|\n| c |\n";
    let d1 = parse(text, ParseMode::Grouped);
    let d2 = parse(text, ParseMode::Grouped);
    assert_eq!(d1.line_count, d2.line_count);
    assert_eq!(d1.blocks.len(), d2.blocks.len());
    for k in 0..d1.blocks.len() {
        assert_eq!(d1.blocks[k].line_start, d2.blocks[k].line_start);
        assert_eq!(d1.blocks[k].utf16_end, d2.blocks[k].utf16_end);
    }
}

// MARK: - Block contents

#[test]
fn fenced_language_is_first_info_word() {
    let mut parser = CindermarkParser::new(None);
    let result = parser.parse_editable("```rust extra words\nlet x = 1;\n```".to_string());
    assert_eq!(result.blocks[0].language.as_deref(), Some("rust"));
}

#[test]
fn mermaid_fence_any_case() {
    assert!(is_mermaid_info_string("MerMaid"));
    assert!(!is_mermaid_info_string("mermaid2"));
    assert_eq!(MermaidDiagramType::from_source("graph TD\nA-->B"), MermaidDiagramType::Graph);
    assert_eq!(
        MermaidDiagramType::from_source("---\ntitle: x\n---\n\nflowchart LR"),
        MermaidDiagramType::Flowchart
    );
    assert_eq!(MermaidDiagramType::from_source("nonsense"), MermaidDiagramType::Unknown);
}

#[test]
fn callout_header_kind_and_title() {
    let h = b"[!tip]+  Title here ";
    let (kind, title) = parse_callout_header(h, 0, h.len()).unwrap();
    assert_eq!(kind, CalloutKind::Tip);
    assert_eq!(title.as_deref(), Some("Title here"));
    let bare = b"[!NOTE]";
    let (kind, title) = parse_callout_header(bare, 0, bare.len()).unwrap();
    assert_eq!(kind, CalloutKind::Note);
    assert_eq!(title, None);
    let unknown = b"[!nope] x";
    assert!(parse_callout_header(unknown, 0, unknown.len()).is_none());
    assert_eq!(CalloutKind::from_name("WARNING"), Some(CalloutKind::Warning));
}

#[test]
fn table_cells_and_alignments() {
    let row = b"| a |  b c | ";
    let cells = parse_table_row(row, 0, row.len());
    assert_eq!(cells, vec!["a".to_string(), "b c".to_string()]);
    let sep = b"|:--|--:|:-:|---|";
    let al = parse_alignments(sep, 0, sep.len());
    assert_eq!(
        al,
        vec![
            ColumnAlignment::Left,
            ColumnAlignment::Right,
            ColumnAlignment::Center,
            ColumnAlignment::Default
        ]
    );
}

// MARK: - Image-marker scheme

#[test]
fn scheme_sanitizing() {
    assert_eq!(sanitize_scheme(Some("ember:".to_string())), Some("ember:".to_string()));
    assert_eq!(sanitize_scheme(Some(String::new())), None);
    assert_eq!(sanitize_scheme(Some("a b:".to_string())), None);
    assert_eq!(sanitize_scheme(Some("x(:".to_string())), None);
    assert_eq!(sanitize_scheme(Some("é:".to_string())), None);
    assert_eq!(sanitize_scheme(None), None);
}

// MARK: - UTF-16 offsets

#[test]
fn utf16_offsets_round_trip() {
    let text = "aé😀b";
    let bytes = text.as_bytes();
    let map = Utf16Map::build(bytes);
    assert_eq!(map.total_utf16_len, 5);
    assert_eq!(map.byte_to_utf16(0, bytes), 0);
    assert_eq!(map.byte_to_utf16(1, bytes), 1);
    assert_eq!(map.byte_to_utf16(3, bytes), 2);
    assert_eq!(map.byte_to_utf16(7, bytes), 4);
    assert_eq!(map.byte_to_utf16(8, bytes), 5);
    for (b, u) in [(0u32, 0u32), (1, 1), (3, 2), (7, 4), (8, 5)] {
        assert_eq!(map.utf16_to_byte(u, bytes), b);
    }
}

// MARK: - HTML block starts

#[test]
fn html_block_start_kinds() {
    let div = block_start("<div>").unwrap();
    assert!(matches!(div.end, HtmlEnd::Blank));
    assert!(div.interrupts_paragraph);
    let pre = block_start("<pre class=x>").unwrap();
    assert!(matches!(pre.end, HtmlEnd::RawText));
    let comment = block_start("<!-- c").unwrap();
    assert!(matches!(comment.end, HtmlEnd::Delimiter("-->")));
    let custom = block_start("<custom-tag>").unwrap();
    assert!(matches!(custom.end, HtmlEnd::Blank));
    assert!(!custom.interrupts_paragraph);
    assert!(block_start("<custom-tag").is_none());
    assert!(block_start("    <div>").is_none());
    assert!(block_start("plain").is_none());
}

#[test]
fn html_block_ends() {
    assert!(HtmlEnd::RawText.closes("x </PRE> y"));
    assert!(!HtmlEnd::RawText.closes("x </pr"));
    assert!(HtmlEnd::Delimiter("-->").closes("a --> b"));
    assert!(!HtmlEnd::Blank.closes(""));
}

// MARK: - JSON answers

#[test]
fn json_parse_answer_shape() {
    let mut p = WasmParser::new();
    let json = p.parse_json("# Hi".to_string());
    assert!(json.starts_with("{\"blocks\":[{\"type\":\"heading\",\"level\":1,\"lineStart\":0,\"lineEnd\":1,\"start\":0,"));
    assert!(json.contains("\"spans\":[]}],\"lineCount\":1,\"stats\":{\"words\":"));
    assert!(json.ends_with("}}"));
}

#[test]
fn json_escapes_strings() {
    let mut p = WasmParser::new();
    let json = p.parse_json("```a\"b\\c\nx\n```".to_string());
    assert!(json.contains("\"language\":\"a\\\"b\\\\c\""));
}

#[test]
fn json_keystroke_summary() {
    let mut p = WasmParser::new();
    let _ = p.parse_json("# a\n- b".to_string());
    let json = p.keystroke("# ab\n- b".to_string(), 3, 0, 1);
    assert!(json.starts_with("{\"dirtyStart\":"));
    assert!(json.contains(",\"dirtyEnd\":"));
    assert!(json.contains(",\"blockCount\":2,\"lineCount\":2}"));
    p.reset_state();
    assert_eq!(p.toggle_checkbox("- [ ] t".to_string(), 0), "- [x] t");
}

// MARK: - Resource references

#[test]
fn image_link_and_escaped_bang_ranges() {
    let source = "😀 ![photo](Attachments/a%20b.png) [file](Attachments/a.pdf) \\![label](other)";
    let options = cindermark::parser::ParseOptions { image_marker_scheme: None };
    let refs = cindermark::resources::resource_references(source, &options);
    assert_eq!(refs.len(), 3);
    assert!(refs[0].is_image);
    assert_eq!(refs[0].utf16_start, 3);
    assert_eq!(refs[0].destination, "Attachments/a%20b.png");
    let units: Vec<u16> = source.encode_utf16().collect();
    assert_eq!(
        String::from_utf16(&units[refs[0].utf16_start as usize..refs[0].utf16_end as usize]).unwrap(),
        "![photo](Attachments/a%20b.png)"
    );
    assert!(!refs[1].is_image);
    assert_eq!(refs[1].destination, "Attachments/a.pdf");
    assert!(!refs[2].is_image);
    assert_eq!(refs[2].destination, "other");
}

#[test]
fn resource_references_in_checkbox_and_not_in_code() {
    let source = "- [ ] ![task](Attachments/task.png)\n\n`![code](ignored)`\n\n```\n![fence](ignored)\n```\n";
    let options = cindermark::parser::ParseOptions { image_marker_scheme: None };
    let refs = cindermark::resources::resource_references(source, &options);
    assert_eq!(refs.len(), 1);
    assert!(refs[0].is_image);
    assert_eq!(refs[0].destination, "Attachments/task.png");
}

// MARK: - Laws on concrete values

#[test]
fn grouped_mode_collapses_blank_runs() {
    let doc = parse("a\n\n\n\nb\n\n", ParseMode::Grouped);
    for k in 0..doc.blocks.len() - 1 {
        let both_empty = matches!(doc.blocks[k].kind, cindermark::ast::BlockKind::Empty)
            && matches!(doc.blocks[k + 1].kind, cindermark::ast::BlockKind::Empty);
        assert!(!both_empty);
    }
}

#[test]
fn mermaid_wire_values_differ() {
    assert_eq!(MermaidDiagramType::Unknown.as_u8(), 0);
    assert_eq!(MermaidDiagramType::Flowchart.as_u8(), 1);
    assert_eq!(MermaidDiagramType::Graph.as_u8(), 2);
    assert_ne!(MermaidDiagramType::SequenceDiagram.as_u8(), MermaidDiagramType::Graph.as_u8());
    assert_eq!(CalloutKind::Caution.as_u8(), 4);
}

#[test]
fn edit_in_code_block_reparses_everything() {
    let mut parser = CindermarkParser::new(None);
    let first = parser.parse_editable("```\ncode\n```\nafter".to_string());
    assert!(first.blocks.len() >= 2);
    let update = parser.parse_editable_incremental("```\ncodes\n```\nafter".to_string(), 8, 0, 1);
    assert_eq!(update.dirty_start, 0);
    assert_eq!(update.dirty_end as usize, update.blocks.len());
}

#[test]
fn edit_in_paragraph_keeps_the_rest() {
    let mut parser = CindermarkParser::new(None);
    let text = "# One\n\npara\n\n# Two\n\n# Three";
    let first = parser.parse_editable(text.to_string());
    let update = parser.parse_editable_incremental("# One\n\npaXra\n\n# Two\n\n# Three".to_string(), 9, 0, 1);
    assert_eq!(update.blocks.len(), first.blocks.len());
    assert!(update.dirty_start > 0);
    assert!((update.dirty_end as usize) < update.blocks.len());
    let last = update.blocks.len() - 1;
    assert_eq!(update.blocks[last].utf16_start, first.blocks[last].utf16_start + 1);
}

// MARK: - Text conversions

#[test]
fn lossy_and_strict_text() {
    assert_eq!(cindermark::text::string_from_range(&[97, 0xff, 98], 0, 3), "a\u{FFFD}b");
    assert_eq!(cindermark::text::string_from_range(&[97, 0xff, 98], 2, 3), "b");
    assert_eq!(cindermark::text::str_from_range(&[97, 0xff], 0, 2), "");
    assert_eq!(cindermark::text::str_from_range("é!".as_bytes(), 0, 2), "é");
}

#[test]
fn emphasis_closes_after_non_ascii_letter() {
    let doc = parse("*é*x", ParseMode::Editable);
    assert!(doc.blocks[0].inline_spans.iter().any(|s| matches!(s.kind, InlineKind::Italic)));
}

// MARK: - Flat blocks and the lexer

#[test]
fn footnote_block_text_joins_label_and_text() {
    let p = CindermarkParser::new(None);
    let r = p.parse("[^note]: Some text".to_string());
    assert_eq!(r.blocks.len(), 1);
    assert_eq!(r.blocks[0].text, "note: Some text");
}

#[test]
fn mermaid_block_language_is_mermaid() {
    let p = CindermarkParser::new(None);
    let r = p.parse("```mermaid\ngraph TD\n```".to_string());
    assert_eq!(r.blocks[0].language, Some("mermaid".to_string()));
}

#[test]
fn tokenize_twice_appends_second_eof() {
    let src = b"# Hi\n";
    let mut l = cindermark::lexer::Lexer::new(src);
    l.tokenize();
    let n = l.tokens.len();
    l.tokenize();
    assert_eq!(l.tokens.len(), n + 1);
    assert_eq!(l.tokens[n].kind, cindermark::lexer::TokenKind::Eof);
    assert_eq!(l.tokens[n].byte_start, 5);
}

#[test]
fn editable_blocks_tile_the_source() {
    let mut p = CindermarkParser::new(None);
    let text = "# T\n\npara\n- a\n- b";
    let r = p.parse_editable(text.to_string());
    assert_eq!(r.line_count, 5);
    assert_eq!(r.blocks[0].line_start, 0);
    assert_eq!(r.blocks[0].utf16_start, 0);
    for w in r.blocks.windows(2) {
        assert_eq!(w[0].line_end, w[1].line_start);
        assert_eq!(w[0].utf16_end, w[1].utf16_start);
    }
    let last = r.blocks.last().unwrap();
    assert_eq!(last.line_end, 5);
    assert_eq!(last.utf16_end as usize, text.encode_utf16().count());
}

#[test]
fn reset_state_makes_next_update_full() {
    let mut p = CindermarkParser::new(None);
    let _ = p.parse_editable("a\n\nb".to_string());
    p.reset_state();
    let r = p.parse_editable_incremental("a\n\nbc".to_string(), 4, 0, 1);
    assert_eq!(r.dirty_start, 0);
    assert_eq!(r.dirty_end as usize, r.blocks.len());
    assert_eq!(r.blocks.len(), 3);
}

#[test]
fn preview_span_cut_at_the_limit() {
    let p = CindermarkParser::new(None);
    let r = p.render_preview("**a\u{1F343}**".to_string(), 2);
    assert_eq!(r.plain_text, "a");
    assert_eq!(r.spans.len(), 1);
    assert_eq!(r.spans[0].start, 0);
    assert_eq!(r.spans[0].end, 2);
    let r = p.render_preview("**bold text here**".to_string(), 4);
    assert!(r.spans.iter().all(|s| s.start < s.end && s.end <= 4));
}
