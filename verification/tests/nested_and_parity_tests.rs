use cindermark::CindermarkParser;

fn parse_ffi_editable(input: &str) -> cindermark::FfiParseResult {
    let mut parser = CindermarkParser::new(None);
    parser.parse_editable(input.to_string())
}

#[test]
fn editable_nested_list_indent_metadata() {
    let result = parse_ffi_editable("- a\n    - b\n        - [ ] c");
    assert_eq!(result.blocks.len(), 3);

    assert_eq!(
        result.blocks[0].block_type,
        cindermark::FfiBlockType::BulletItem
    );
    assert_eq!(result.blocks[0].list_indent, 0);

    assert_eq!(
        result.blocks[1].block_type,
        cindermark::FfiBlockType::BulletItem
    );
    assert_eq!(result.blocks[1].list_indent, 4);
    // Marker range excludes indentation: "    - b" → marker at [8..10)
    // in document coords (line starts at UTF-16 4).
    assert_eq!(result.blocks[1].marker_utf16_start, 8);
    assert_eq!(result.blocks[1].marker_utf16_end, 10);
    assert_eq!(result.blocks[1].marker_source, "- ");
    assert_eq!(result.blocks[1].text, "b");

    assert_eq!(
        result.blocks[2].block_type,
        cindermark::FfiBlockType::Checkbox
    );
    assert_eq!(result.blocks[2].list_indent, 8);
    assert_eq!(result.blocks[2].marker_source, "- [ ] ");
    assert_eq!(result.blocks[2].text, "c");
    assert!(!result.blocks[2].is_checked);
}

#[test]
fn nested_preview_items_on_own_lines() {
    // Grouped mode must not flatten the nested item into the previous
    // item's text — each item gets its own line in previews.
    let mut parser = CindermarkParser::new(None);
    let result = parser.render_preview("- a\n    - b\n- c".to_string(), 200);
    assert_eq!(result.plain_text, "a\nb\nc");
}

#[test]
fn nested_checkbox_preview_keeps_glyph_line() {
    let mut parser = CindermarkParser::new(None);
    let result = parser.render_preview("- a\n    - [x] done".to_string(), 200);
    assert_eq!(result.plain_text, "a\n✓ done");
}

#[test]
fn toggle_nested_checkbox_ffi() {
    let mut parser = CindermarkParser::new(None);
    let toggled = parser.toggle_checkbox("- a\n    - [ ] nested task".to_string(), 1);
    assert_eq!(toggled, "- a\n    - [x] nested task");
    let back = parser.toggle_checkbox(toggled, 1);
    assert_eq!(back, "- a\n    - [ ] nested task");
}

#[test]
fn incremental_edit_in_nested_list_matches_full_parse() {
    let mut parser = CindermarkParser::new(None);
    let old = "- a\n    - b\n        - c\n- d";
    parser.parse_editable(old.to_string());

    // Append "XY" to nested "b" ('b' is at UTF-16 10, edit after it).
    let new = "- a\n    - bXY\n        - c\n- d";
    let incremental = parser.parse_editable_incremental(new.to_string(), 11, 0, 2);

    let full = parse_ffi_editable(new);

    assert_eq!(incremental.blocks.len(), full.blocks.len());
    for (inc, ful) in incremental.blocks.iter().zip(full.blocks.iter()) {
        assert_eq!(inc.block_type, ful.block_type);
        assert_eq!(inc.utf16_start, ful.utf16_start);
        assert_eq!(inc.utf16_end, ful.utf16_end);
        assert_eq!(inc.list_indent, ful.list_indent);
        assert_eq!(inc.marker_utf16_start, ful.marker_utf16_start);
        assert_eq!(inc.marker_utf16_end, ful.marker_utf16_end);
        assert_eq!(inc.text, ful.text);
    }
}

#[test]
fn incremental_indent_reclassification_matches_full_parse() {
    let mut parser = CindermarkParser::new(None);
    let old = "- a\n- b\n- c";
    parser.parse_editable(old.to_string());

    // Indent "- b" by 4 spaces (insert at line start, UTF-16 4).
    let new = "- a\n    - b\n- c";
    let incremental = parser.parse_editable_incremental(new.to_string(), 4, 0, 4);

    let full = parse_ffi_editable(new);

    assert_eq!(incremental.blocks.len(), full.blocks.len());
    for (inc, ful) in incremental.blocks.iter().zip(full.blocks.iter()) {
        assert_eq!(inc.block_type, ful.block_type);
        assert_eq!(inc.list_indent, ful.list_indent);
        assert_eq!(inc.utf16_start, ful.utf16_start);
        assert_eq!(inc.utf16_end, ful.utf16_end);
    }
    assert_eq!(
        incremental.blocks[1].block_type,
        cindermark::FfiBlockType::BulletItem
    );
    assert_eq!(incremental.blocks[1].list_indent, 4);
}

#[test]
fn incremental_style_only_nested_parity() {
    let mut parser = CindermarkParser::new(None);
    let old = "- a\n    - [ ] task";
    parser.parse_editable(old.to_string());

    // Type "s" at the end of "task" (UTF-16 end = 18).
    let new = "- a\n    - [ ] tasks";
    let style = parser.parse_editable_incremental_style_only(new.to_string(), 18, 0, 1);

    let full = parse_ffi_editable(new);

    assert_eq!(style.blocks.len(), full.blocks.len());
    for (inc, ful) in style.blocks.iter().zip(full.blocks.iter()) {
        assert_eq!(inc.block_type, ful.block_type);
        assert_eq!(inc.list_indent, ful.list_indent);
        assert_eq!(inc.utf16_start, ful.utf16_start);
        assert_eq!(inc.utf16_end, ful.utf16_end);
    }
    assert_eq!(
        style.blocks[1].block_type,
        cindermark::FfiBlockType::Checkbox
    );
}


fn assert_same_blocks(a: &[cindermark::ffi::FfiBlock], b: &[cindermark::ffi::FfiBlock]) {
    assert_eq!(a.len(), b.len());
    for (x, y) in a.iter().zip(b.iter()) {
        assert_eq!(x.block_type, y.block_type);
        assert_eq!(x.utf16_start, y.utf16_start);
        assert_eq!(x.utf16_end, y.utf16_end);
        assert_eq!(x.line_start, y.line_start);
        assert_eq!(x.line_end, y.line_end);
        assert_eq!(x.list_indent, y.list_indent);
        assert_eq!(x.marker_utf16_start, y.marker_utf16_start);
        assert_eq!(x.marker_utf16_end, y.marker_utf16_end);
        assert_eq!(x.marker_source, y.marker_source);
        assert_eq!(x.text, y.text);
    }
}

#[test]
fn tab_indented_marker_is_nested_item() {
    let result = parse_ffi_editable("- a\n\t- b");
    assert_eq!(result.blocks.len(), 2);
    assert_eq!(result.blocks[1].block_type, cindermark::FfiBlockType::BulletItem);
    assert_eq!(result.blocks[1].list_indent, 4);
    assert_eq!(result.blocks[1].text, "b");
}

#[test]
fn marker_past_column_32_is_code() {
    let deep = format!("{}- x", " ".repeat(33));
    let result = parse_ffi_editable(&deep);
    assert_eq!(result.blocks.len(), 1);
    assert_eq!(result.blocks[0].block_type, cindermark::FfiBlockType::CodeBlock);
}

#[test]
fn indented_code_next_to_window_falls_back() {
    let mut parser = CindermarkParser::new(None);
    parser.parse_editable("    code\n\nx".to_string());
    let new = "    code\n\n    x";
    let inc = parser.parse_editable_incremental(new.to_string(), 10, 0, 4);
    let full = parse_ffi_editable(new);
    assert_eq!(full.blocks.len(), 1);
    assert_eq!(full.blocks[0].text, "code\n\nx");
    assert_same_blocks(&inc.blocks, &full.blocks);
}

#[test]
fn suffix_list_markers_move_with_edit() {
    let mut parser = CindermarkParser::new(None);
    parser.parse_editable("a\n\nb\n\n- c\n- d".to_string());
    let new = "azz\n\nb\n\n- c\n- d";
    let inc = parser.parse_editable_incremental(new.to_string(), 1, 0, 2);
    let full = parse_ffi_editable(new);
    assert_eq!(full.blocks[4].marker_utf16_start, 8);
    assert_same_blocks(&inc.blocks, &full.blocks);
}

#[test]
fn four_asterisks_paragraph_has_no_spans() {
    let mut parser = CindermarkParser::new(None);
    let r = parser.parse("****".to_string());
    assert_eq!(r.blocks.len(), 1);
    assert!(r.blocks[0].inline_spans.is_empty());
}

#[test]
fn lexer_pipe_is_table_pipe_token() {
    let src = "a|b";
    let mut lx = cindermark::lexer::Lexer::new(src.as_bytes());
    lx.tokenize();
    let kinds: Vec<cindermark::lexer::TokenKind> = lx.tokens.iter().map(|t| t.kind.clone()).collect();
    assert_eq!(
        kinds,
        vec![
            cindermark::lexer::TokenKind::Text,
            cindermark::lexer::TokenKind::TablePipe,
            cindermark::lexer::TokenKind::Text,
            cindermark::lexer::TokenKind::Eof,
        ]
    );
    assert_eq!(lx.tokens[1].byte_start, 1);
    assert_eq!(lx.tokens[1].byte_len, 1);
}

#[test]
fn stats_from_given_clusters() {
    let blocks: Vec<cindermark::ast::BlockNode> = Vec::new();
    let st = cindermark::ffi::stats_from_clusters("a b", &blocks, &vec![1, 1, 1]);
    assert_eq!(st.character_count, 3);
    assert_eq!(st.character_count_no_spaces, 2);
    assert_eq!(st.word_count, 2);
}

#[test]
fn paragraph_running_on_into_suffix_falls_back() {
    let mut parser = CindermarkParser::new(None);
    parser.parse_editable("# h\n>\nz".to_string());
    let new = "h\n>\nz";
    let inc = parser.parse_editable_incremental(new.to_string(), 0, 2, 0);
    let full = parse_ffi_editable(new);
    assert_eq!(full.blocks.len(), 1);
    assert_same_blocks(&inc.blocks, &full.blocks);
}

#[test]
fn indented_code_across_two_blank_lines_falls_back() {
    let mut parser = CindermarkParser::new(None);
    parser.parse_editable("    code\n\n\nx".to_string());
    let new = "    code\n\n\n    y";
    let inc = parser.parse_editable_incremental(new.to_string(), 11, 1, 5);
    let full = parse_ffi_editable(new);
    assert_eq!(full.blocks.len(), 1);
    assert_same_blocks(&inc.blocks, &full.blocks);
}
