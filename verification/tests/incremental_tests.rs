use cindermark::ast::{BlockKind, BlockNode, ParseMode};
use cindermark::incremental::{ParseSnapshot, IncrementalResult, incremental_update, find_line_start, extend_to_line_end, count_newlines_before, find_overlap_range};
use cindermark::parser;
use cindermark::utf16::Utf16Map;

/// Helper: full parse → snapshot.
fn snapshot(source: &str) -> ParseSnapshot {
    let doc = parser::parse(source, ParseMode::Editable);
    let utf16_map = Utf16Map::build(source.as_bytes());
    ParseSnapshot::new(
        doc.blocks,
        doc.line_count,
        source.len(),
        utf16_map.total_utf16_len,
    )
}

/// Helper: verify incremental result matches full parse.
fn assert_matches_full_parse(result: &IncrementalResult, new_source: &str) {
    let full = parser::parse(new_source, ParseMode::Editable);
    assert_eq!(
        result.blocks.len(),
        full.blocks.len(),
        "Block count mismatch: incremental={}, full={}",
        result.blocks.len(),
        full.blocks.len()
    );
    for (i, (inc, ful)) in result.blocks.iter().zip(full.blocks.iter()).enumerate() {
        assert_eq!(
            inc.kind, ful.kind,
            "Block {} kind mismatch:\n  incremental: {:?}\n  full: {:?}",
            i, inc.kind, ful.kind
        );
        assert_eq!(
            inc.byte_start, ful.byte_start,
            "Block {} byte_start: inc={}, full={}",
            i, inc.byte_start, ful.byte_start
        );
        assert_eq!(
            inc.byte_end, ful.byte_end,
            "Block {} byte_end: inc={}, full={}",
            i, inc.byte_end, ful.byte_end
        );
        assert_eq!(
            inc.utf16_start, ful.utf16_start,
            "Block {} utf16_start: inc={}, full={}",
            i, inc.utf16_start, ful.utf16_start
        );
        assert_eq!(
            inc.utf16_end, ful.utf16_end,
            "Block {} utf16_end: inc={}, full={}",
            i, inc.utf16_end, ful.utf16_end
        );
        assert_eq!(
            inc.line_start, ful.line_start,
            "Block {} line_start: inc={}, full={}",
            i, inc.line_start, ful.line_start
        );
        assert_eq!(
            inc.line_end, ful.line_end,
            "Block {} line_end: inc={}, full={}",
            i, inc.line_end, ful.line_end
        );
        assert_eq!(
            inc.inline_spans.len(),
            ful.inline_spans.len(),
            "Block {} inline_span count mismatch: inc={}, full={}",
            i,
            inc.inline_spans.len(),
            ful.inline_spans.len()
        );
        for (j, (is_span, f_span)) in inc
            .inline_spans
            .iter()
            .zip(ful.inline_spans.iter())
            .enumerate()
        {
            assert_eq!(
                is_span, f_span,
                "Block {} span {} mismatch:\n  incremental: {:?}\n  full: {:?}",
                i, j, is_span, f_span
            );
        }
    }
    assert_eq!(result.line_count, full.line_count, "Line count mismatch");
}

// MARK: - Core incremental tests

#[test]
fn single_char_insert_in_paragraph() {
    let old = "# Title\n\nHello world\n\n---";
    let snap = snapshot(old);
    // Insert "X" at the start of "Hello world" → "XHello world"
    let new = "# Title\n\nXHello world\n\n---";
    // Edit at UTF-16 offset 9 (after "# Title\n\n"), old len 0, new len 1
    let result = incremental_update(&snap, new, 9, 0, 1, &parser::ParseOptions::default());
    assert_matches_full_parse(&result, new);
    // Should NOT re-parse the entire document — dirty range should be small.
    assert!(
        result.dirty_end - result.dirty_start <= 3,
        "Dirty range too large: {}..{}",
        result.dirty_start,
        result.dirty_end
    );
}

#[test]
fn single_char_insert_in_heading() {
    let old = "# Title\n\nSome text";
    let snap = snapshot(old);
    let new = "# Titles\n\nSome text";
    // Insert "s" at offset 7 (after "Title")
    let result = incremental_update(&snap, new, 7, 0, 1, &parser::ParseOptions::default());
    assert_matches_full_parse(&result, new);
}

#[test]
fn delete_characters() {
    let old = "# Title\n\nHello world\n\n---";
    let snap = snapshot(old);
    // Delete "Hello" (5 chars at offset 9)
    let new = "# Title\n\n world\n\n---";
    let result = incremental_update(&snap, new, 9, 5, 0, &parser::ParseOptions::default());
    assert_matches_full_parse(&result, new);
}

#[test]
fn replace_text() {
    let old = "# Title\n\nHello\n\nWorld";
    let snap = snapshot(old);
    // Replace "Hello" (5 chars at offset 9) with "Goodbye" (7 chars)
    let new = "# Title\n\nGoodbye\n\nWorld";
    let result = incremental_update(&snap, new, 9, 5, 7, &parser::ParseOptions::default());
    assert_matches_full_parse(&result, new);
}

#[test]
fn insert_newline_splits_paragraph() {
    let old = "# Title\n\nHello world";
    let snap = snapshot(old);
    // Insert newline in "Hello world" → "Hello\nworld"
    let new = "# Title\n\nHello\nworld";
    let result = incremental_update(&snap, new, 14, 1, 1, &parser::ParseOptions::default());
    assert_matches_full_parse(&result, new);
}

#[test]
fn edit_at_document_end() {
    let old = "# Title\n\nText";
    let snap = snapshot(old);
    // Append " more" at end
    let new = "# Title\n\nText more";
    let result = incremental_update(&snap, new, 13, 0, 5, &parser::ParseOptions::default());
    assert_matches_full_parse(&result, new);
}

#[test]
fn edit_at_document_start() {
    let old = "Hello\n\nWorld";
    let snap = snapshot(old);
    // Insert "# " at start → makes it a heading
    let new = "# Hello\n\nWorld";
    let result = incremental_update(&snap, new, 0, 0, 2, &parser::ParseOptions::default());
    assert_matches_full_parse(&result, new);
}

#[test]
fn edit_in_checkbox() {
    let old = "- [ ] Task one\n- [x] Task two";
    let snap = snapshot(old);
    // Append " done" to first task
    let new = "- [ ] Task one done\n- [x] Task two";
    let result = incremental_update(&snap, new, 14, 0, 5, &parser::ParseOptions::default());
    assert_matches_full_parse(&result, new);
}

#[test]
fn edit_in_bullet_list() {
    let old = "- item 1\n- item 2\n- item 3";
    let snap = snapshot(old);
    // Edit "item 2" → "item TWO"
    let new = "- item 1\n- item TWO\n- item 3";
    let result = incremental_update(&snap, new, 11, 6, 8, &parser::ParseOptions::default());
    assert_matches_full_parse(&result, new);
}

#[test]
fn code_fence_triggers_full_reparse() {
    let old = "# Title\n\nSome text\n\nMore text";
    let snap = snapshot(old);
    // Type "```" on the "Some text" line → code fence
    let new = "# Title\n\n```\nSome text\n\nMore text";
    let result = incremental_update(&snap, new, 9, 0, 4, &parser::ParseOptions::default());
    // Should fall back to full re-parse
    assert_eq!(result.dirty_start, 0);
    assert_matches_full_parse(&result, new);
}

#[test]
fn edit_inside_code_block_triggers_full_reparse() {
    let old = "# Title\n\n```\ncode\n```\n\nText";
    let snap = snapshot(old);
    // Edit inside code block
    let new = "# Title\n\n```\ncode here\n```\n\nText";
    let result = incremental_update(&snap, new, 13, 4, 9, &parser::ParseOptions::default());
    // Code block → full reparse
    assert_eq!(result.dirty_start, 0);
    assert_matches_full_parse(&result, new);
}

#[test]
fn empty_document_insert() {
    let old = "";
    let snap = snapshot(old);
    let new = "Hello";
    let result = incremental_update(&snap, new, 0, 0, 5, &parser::ParseOptions::default());
    assert_matches_full_parse(&result, new);
}

#[test]
fn single_block_document() {
    let old = "Hello";
    let snap = snapshot(old);
    let new = "Hello world";
    let result = incremental_update(&snap, new, 5, 0, 6, &parser::ParseOptions::default());
    assert_matches_full_parse(&result, new);
}

#[test]
fn delete_entire_line() {
    let old = "# Title\n\nMiddle\n\nEnd";
    let snap = snapshot(old);
    // Delete "Middle\n" line
    let new = "# Title\n\n\nEnd";
    let result = incremental_update(&snap, new, 9, 7, 0, &parser::ParseOptions::default());
    assert_matches_full_parse(&result, new);
}

#[test]
fn insert_new_line_between_blocks() {
    let old = "# Title\n\nEnd";
    let snap = snapshot(old);
    // Insert "Middle\n\n" between heading and End
    let new = "# Title\n\nMiddle\n\nEnd";
    let result = incremental_update(&snap, new, 9, 0, 8, &parser::ParseOptions::default());
    assert_matches_full_parse(&result, new);
}

#[test]
fn edit_with_inline_formatting() {
    let old = "Hello **world**";
    let snap = snapshot(old);
    // Change "world" → "earth" inside bold
    let new = "Hello **earth**";
    let result = incremental_update(&snap, new, 8, 5, 5, &parser::ParseOptions::default());
    assert_matches_full_parse(&result, new);
}

#[test]
fn multiple_blocks_edit() {
    let old = "# One\n\n## Two\n\n### Three\n\nParagraph";
    let snap = snapshot(old);
    // Edit "Two" → "TWO"
    let new = "# One\n\n## TWO\n\n### Three\n\nParagraph";
    let result = incremental_update(&snap, new, 10, 3, 3, &parser::ParseOptions::default());
    assert_matches_full_parse(&result, new);
    // Should not dirty the entire document
    assert!(result.dirty_end - result.dirty_start <= 4);
}

#[test]
fn edit_horizontal_rule() {
    let old = "Before\n\n---\n\nAfter";
    let snap = snapshot(old);
    // Change --- to --
    let new = "Before\n\n--\n\nAfter";
    let result = incremental_update(&snap, new, 10, 1, 0, &parser::ParseOptions::default());
    assert_matches_full_parse(&result, new);
}

#[test]
fn unicode_edit() {
    let old = "Hello 🌍\n\nWorld";
    let snap = snapshot(old);
    // Insert after emoji (🌍 is 4 bytes / 2 UTF-16 units)
    // "Hello 🌍" = H(1) e(1) l(1) l(1) o(1) ' '(1) 🌍(2) = 8 UTF-16 units
    let new = "Hello 🌍!\n\nWorld";
    let result = incremental_update(&snap, new, 8, 0, 1, &parser::ParseOptions::default());
    assert_matches_full_parse(&result, new);
}

#[test]
fn blockquote_edit() {
    let old = "# Title\n\n> Quote text\n\nEnd";
    let snap = snapshot(old);
    let new = "# Title\n\n> Quote text more\n\nEnd";
    let result = incremental_update(&snap, new, 20, 0, 5, &parser::ParseOptions::default());
    assert_matches_full_parse(&result, new);
}

#[test]
fn dirty_range_is_minimal() {
    // 10 blocks, edit in the middle — dirty range should be ~3 blocks
    let old = "# H1\n\n## H2\n\n### H3\n\nPara\n\n- B1\n\n- B2\n\n> Quote\n\n---\n\nEnd";
    let snap = snapshot(old);
    // Edit "Para" → "ParaX"
    let new = "# H1\n\n## H2\n\n### H3\n\nParaX\n\n- B1\n\n- B2\n\n> Quote\n\n---\n\nEnd";
    // "ParaX" starts at UTF-16 offset 21 in the text
    let result = incremental_update(&snap, new, 25, 0, 1, &parser::ParseOptions::default());
    assert_matches_full_parse(&result, new);
    // Dirty range should be small (not the full document).
    let dirty_count = result.dirty_end - result.dirty_start;
    assert!(
        dirty_count <= 4,
        "Expected ≤4 dirty blocks, got {} ({}..{})",
        dirty_count,
        result.dirty_start,
        result.dirty_end
    );
}

// MARK: - Helper tests

#[test]
fn test_find_line_start() {
    assert_eq!(find_line_start("hello\nworld", 0), 0);
    assert_eq!(find_line_start("hello\nworld", 6), 6);
    assert_eq!(find_line_start("hello\nworld", 8), 6);
    assert_eq!(find_line_start("hello\nworld\nfoo", 12), 12);
}

#[test]
fn test_extend_to_line_end() {
    // Mid-line: extends to end of "hello\n"
    assert_eq!(extend_to_line_end("hello\nworld", 3), 6);
    // At line boundary (after \n): stays put
    assert_eq!(extend_to_line_end("hello\nworld", 6), 6);
    // Mid-line in second line: extends to end
    assert_eq!(extend_to_line_end("hello\nworld", 8), 11);
    // At EOF: stays
    assert_eq!(extend_to_line_end("hello\nworld", 11), 11);
    // At document start (line boundary): stays
    assert_eq!(extend_to_line_end("hello\nworld", 0), 0);
    // After trailing \n: stays
    assert_eq!(extend_to_line_end("hello\nworld\n", 12), 12);
}

#[test]
fn test_count_newlines_before() {
    assert_eq!(count_newlines_before(b"hello\nworld\nfoo", 0), 0);
    assert_eq!(count_newlines_before(b"hello\nworld\nfoo", 6), 1);
    assert_eq!(count_newlines_before(b"hello\nworld\nfoo", 12), 2);
}

#[test]
fn test_find_overlap_range() {
    // Create 3 blocks: [0..5), [5..10), [10..15)
    let blocks = vec![
        make_test_block(0, 5),
        make_test_block(5, 10),
        make_test_block(10, 15),
    ];

    // Edit in middle block
    assert_eq!(find_overlap_range(&blocks, 6, 8), (1, 2));
    // Edit at start
    assert_eq!(find_overlap_range(&blocks, 0, 3), (0, 1));
    // Edit spanning blocks 1-2
    assert_eq!(find_overlap_range(&blocks, 4, 11), (0, 3));
    // Insertion at block boundary (offset 5, len 0)
    let (f, l) = find_overlap_range(&blocks, 5, 5);
    assert!(
        f <= 1 && l >= 2,
        "Boundary insertion should include adjacent block: {f}..{l}"
    );
}

#[test]
fn table_edit_triggers_full_reparse() {
    let old = "# Title\n\n| A | B |\n| --- | --- |\n| 1 | 2 |\n\nEnd";
    let snap = snapshot(old);
    // Edit inside table cell: "1" → "X"
    let new = "# Title\n\n| A | B |\n| --- | --- |\n| X | 2 |\n\nEnd";
    let result = incremental_update(&snap, new, 34, 1, 1, &parser::ParseOptions::default());
    // Table block → full reparse
    assert_eq!(result.dirty_start, 0);
    assert_matches_full_parse(&result, new);
}

#[test]
fn ordered_list_edit() {
    let old = "1. first\n2. second\n3. third";
    let snap = snapshot(old);
    // Edit "second" → "SECOND"
    let new = "1. first\n2. SECOND\n3. third";
    let result = incremental_update(&snap, new, 12, 6, 6, &parser::ParseOptions::default());
    assert_matches_full_parse(&result, new);
}

#[test]
fn large_deletion_removes_multiple_blocks() {
    let old = "# H1\n\n## H2\n\n### H3\n\nParagraph\n\nEnd";
    let snap = snapshot(old);
    // Delete everything between H1 and End: "## H2\n\n### H3\n\nParagraph\n\n"
    let new = "# H1\n\nEnd";
    // Edit at UTF-16 offset 6 (after "# H1\n\n"), old len 26, new len 0
    let result = incremental_update(&snap, new, 6, 26, 0, &parser::ParseOptions::default());
    assert_matches_full_parse(&result, new);
}

#[test]
fn chained_incremental_edits() {
    // Simulate typing "abc" one character at a time.
    let old = "# Title\n\nHello";
    let snap = snapshot(old);

    // Type 'a' at end
    let new1 = "# Title\n\nHelloa";
    let r1 = incremental_update(&snap, new1, 14, 0, 1, &parser::ParseOptions::default());
    assert_matches_full_parse(&r1, new1);

    // Build snapshot from r1 for next edit
    let utf16_map = Utf16Map::build(new1.as_bytes());
    let snap1 = ParseSnapshot::new(
        r1.blocks,
        r1.line_count,
        new1.len(),
        utf16_map.total_utf16_len,
    );

    // Type 'b' at end
    let new2 = "# Title\n\nHelloab";
    let r2 = incremental_update(&snap1, new2, 15, 0, 1, &parser::ParseOptions::default());
    assert_matches_full_parse(&r2, new2);

    // Build snapshot from r2
    let utf16_map2 = Utf16Map::build(new2.as_bytes());
    let snap2 = ParseSnapshot::new(
        r2.blocks,
        r2.line_count,
        new2.len(),
        utf16_map2.total_utf16_len,
    );

    // Type 'c' at end
    let new3 = "# Title\n\nHelloabc";
    let r3 = incremental_update(&snap2, new3, 16, 0, 1, &parser::ParseOptions::default());
    assert_matches_full_parse(&r3, new3);
}

fn make_test_block(utf16_start: u32, utf16_end: u32) -> BlockNode {
    BlockNode {
        kind: BlockKind::Paragraph {
            text: String::new(),
        },
        line_start: 0,
        line_end: 1,
        utf16_start,
        utf16_end,
        byte_start: utf16_start,
        byte_end: utf16_end,
        list_marker: None,
        inline_spans: vec![],
    }
}
