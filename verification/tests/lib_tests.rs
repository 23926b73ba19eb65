use cindermark::{CindermarkParser, FfiBlockType, FfiInlineType};

// MARK: - Image marker scheme (constructor option)

const MARKER: &str = "![](ember:DEBD1746-CBBB-4A33-9CB0-4B1A5D956200)";

#[test]
fn scheme_constructor_enables_image_markers() {
    let mut parser = CindermarkParser::new(Some("ember:".to_string()));
    let result = parser.parse_editable(format!("{}\n", MARKER));
    assert!(matches!(
        result.blocks[0].block_type,
        FfiBlockType::ImageMarker
    ));
}

#[test]
fn no_scheme_leaves_marker_lines_as_paragraphs() {
    let mut parser = CindermarkParser::new(None);
    let result = parser.parse_editable(format!("{}\n", MARKER));
    assert!(matches!(
        result.blocks[0].block_type,
        FfiBlockType::Paragraph
    ));
}

#[test]
fn invalid_scheme_is_sanitized_to_none() {
    for bad in ["", "has space:", "paren):", "émber:", "new\nline:"] {
        let mut parser = CindermarkParser::new(Some(bad.to_string()));
        let result = parser.parse_editable(format!("{}\n", MARKER));
        assert!(
            matches!(result.blocks[0].block_type, FfiBlockType::Paragraph),
            "scheme {:?} should be rejected, not panic or match",
            bad
        );
    }
}

#[test]
fn incremental_parse_respects_scheme() {
    // Options must flow into the incremental engine: an edit elsewhere
    // in the document must not demote the marker block to a paragraph.
    let mut parser = CindermarkParser::new(Some("ember:".to_string()));
    let base = format!("# Title\n\n{}\n\nSome paragraph\n", MARKER);
    parser.parse_editable(base.clone());

    let edited = base.replace("Some paragraph", "Some paragraphX");
    let edit_start = base.find("Some paragraph").unwrap() as u32 + 14;
    let result = parser.parse_editable_incremental_style_only(edited, edit_start, 0, 1);

    assert!(
        result
            .blocks
            .iter()
            .any(|b| matches!(b.block_type, FfiBlockType::ImageMarker)),
        "image marker must survive incremental updates"
    );
}

#[test]
fn stats_word_and_sentence_counts() {
    let mut parser = CindermarkParser::new(None);
    let result = parser.parse("Hello world. This is a test!".to_string());
    assert_eq!(result.stats.word_count, 6);
    assert_eq!(result.stats.sentence_count, 2);
    assert_eq!(result.stats.character_count, 28);
    assert_eq!(result.stats.paragraph_count, 1);
}

#[test]
fn stats_checkboxes() {
    let mut parser = CindermarkParser::new(None);
    let result = parser.parse_editable("- [x] Done\n- [ ] Todo\n- [X] Also done".to_string());
    assert_eq!(result.stats.checkbox_total, 3);
    assert_eq!(result.stats.checkbox_completed, 2);
}

#[test]
fn stats_headings_and_code_blocks() {
    let mut parser = CindermarkParser::new(None);
    let result = parser.parse("# Title\n\n## Subtitle\n\n```rust\nlet x = 1;\n```".to_string());
    assert_eq!(result.stats.heading_count, 2);
    assert_eq!(result.stats.code_block_count, 1);
}

#[test]
fn stats_ellipsis_not_multiple_sentences() {
    let mut parser = CindermarkParser::new(None);
    let result = parser.parse("Wait... really?".to_string());
    // "..." should count as 1 sentence ending, "?" as another = 2
    assert_eq!(result.stats.sentence_count, 2);
}

#[test]
fn stats_grapheme_clusters_match_swift() {
    let mut parser = CindermarkParser::new(None);
    // Family emoji: 1 grapheme cluster (matches Swift String.count)
    let result = parser.parse("👨‍👩‍👧‍👦".to_string());
    assert_eq!(result.stats.character_count, 1);
    assert_eq!(result.stats.character_count_no_spaces, 1);

    // Skin tone modifier: 1 grapheme cluster
    let result2 = parser.parse("👨🏻".to_string());
    assert_eq!(result2.stats.character_count, 1);

    // Combining diacritical: "Café" = 4 grapheme clusters
    let result3 = parser.parse("Cafe\u{0301}".to_string());
    assert_eq!(result3.stats.character_count, 4);

    // Flag emoji (regional indicators): 1 grapheme cluster
    let result4 = parser.parse("🇺🇸".to_string());
    assert_eq!(result4.stats.character_count, 1);
}

#[test]
fn stats_empty_document() {
    let mut parser = CindermarkParser::new(None);
    let result = parser.parse(String::new());
    assert_eq!(result.stats.word_count, 0);
    assert_eq!(result.stats.sentence_count, 0);
    assert_eq!(result.stats.character_count, 0);
    assert_eq!(result.stats.reading_time_seconds, 0);
}

#[test]
fn stats_reading_time() {
    let mut parser = CindermarkParser::new(None);
    // 200 words → 60 seconds
    let words: String = (0..200)
        .map(|i| format!("word{}", i))
        .collect::<Vec<_>>()
        .join(" ");
    let result = parser.parse(words);
    assert_eq!(result.stats.reading_time_seconds, 60);
}

#[test]
fn ffi_parse_basic() {
    let mut parser = CindermarkParser::new(None);
    let result = parser.parse("# Hello\n\nWorld".to_string());
    assert_eq!(result.blocks.len(), 3); // heading, empty, paragraph
    assert_eq!(result.blocks[0].block_type, FfiBlockType::Heading);
    assert_eq!(result.blocks[0].heading_level, 1);
    assert_eq!(result.blocks[0].text, "Hello");
}

#[test]
fn ffi_parse_editable() {
    let mut parser = CindermarkParser::new(None);
    let result = parser.parse_editable("- item 1\n- item 2".to_string());
    assert_eq!(result.blocks.len(), 2);
    assert_eq!(result.blocks[0].block_type, FfiBlockType::BulletItem);
    assert_eq!(result.blocks[1].block_type, FfiBlockType::BulletItem);
}

#[test]
fn ffi_extract_wiki_links() {
    let mut parser = CindermarkParser::new(None);
    let links = parser.extract_wiki_links("see [[Note One]] and [[Note Two]]".to_string());
    assert_eq!(links, vec!["Note One", "Note Two"]);
}

#[test]
fn ffi_toggle_checkbox() {
    let mut parser = CindermarkParser::new(None);
    let result = parser.toggle_checkbox("- [ ] task".to_string(), 0);
    assert_eq!(result, "- [x] task");
}

#[test]
fn ffi_inline_spans_present() {
    let mut parser = CindermarkParser::new(None);
    let result = parser.parse("**bold** text".to_string());
    assert!(!result.blocks[0].inline_spans.is_empty());
    assert_eq!(
        result.blocks[0].inline_spans[0].inline_type,
        FfiInlineType::Bold
    );
}

#[test]
fn preview_strips_heading_markers() {
    let mut parser = CindermarkParser::new(None);
    let result = parser.render_preview("# Hello World".to_string(), 200);
    assert_eq!(result.plain_text, "Hello World");
    assert!(result.spans.is_empty());
}

#[test]
fn preview_strips_bold_markers() {
    let mut parser = CindermarkParser::new(None);
    let result = parser.render_preview("**bold** text".to_string(), 200);
    assert_eq!(result.plain_text, "bold text");
    assert_eq!(result.spans.len(), 1);
    assert_eq!(result.spans[0].span_type, FfiInlineType::Bold);
    assert_eq!(result.spans[0].start, 0);
    assert_eq!(result.spans[0].end, 4);
}

#[test]
fn preview_checkbox_rendering() {
    let mut parser = CindermarkParser::new(None);
    let result = parser.render_preview("- [x] Done\n- [ ] Todo".to_string(), 200);
    assert!(result.plain_text.starts_with("✓ Done"));
    assert!(result.plain_text.contains("☐ Todo"));
}

#[test]
fn preview_multiple_blocks() {
    let mut parser = CindermarkParser::new(None);
    let result = parser.render_preview("# Title\n\nSome **bold** paragraph".to_string(), 200);
    assert_eq!(result.plain_text, "Title\nSome bold paragraph");
    assert_eq!(result.spans.len(), 1);
    assert_eq!(result.spans[0].span_type, FfiInlineType::Bold);
    // "Title\nSome " = 11 chars, then "bold" at positions 11-14
    assert_eq!(result.spans[0].start, 11);
    assert_eq!(result.spans[0].end, 15);
}

#[test]
fn preview_truncation() {
    let mut parser = CindermarkParser::new(None);
    let result = parser.render_preview("Hello World, this is a long text".to_string(), 10);
    assert_eq!(result.plain_text.encode_utf16().count(), 10);
}

#[test]
fn preview_truncation_clamps_spans() {
    let mut parser = CindermarkParser::new(None);
    // "bold text here" = 14 clean chars, truncate to 8 → "bold tex"
    // Bold span covers [0,4), should survive. No span should exceed max_chars.
    let result = parser.render_preview("**bold** text here".to_string(), 8);
    assert!(result.plain_text.encode_utf16().count() <= 8);
    for span in &result.spans {
        assert!(
            span.start < 8,
            "span start {} exceeds max_chars",
            span.start
        );
        assert!(span.end <= 8, "span end {} exceeds max_chars", span.end);
    }
}

#[test]
fn preview_empty_text() {
    let mut parser = CindermarkParser::new(None);
    let result = parser.render_preview(String::new(), 200);
    assert_eq!(result.plain_text, "");
    assert!(result.spans.is_empty());
}

#[test]
fn preview_skips_code_blocks() {
    let mut parser = CindermarkParser::new(None);
    let result = parser.render_preview(
        "Hello\n\n```rust\nlet x = 1;\n```\n\nWorld".to_string(),
        200,
    );
    assert_eq!(result.plain_text, "Hello\nWorld");
}

#[test]
fn preview_italic_and_strikethrough() {
    let mut parser = CindermarkParser::new(None);
    let result = parser.render_preview("*italic* and ~~struck~~".to_string(), 200);
    assert_eq!(result.plain_text, "italic and struck");
    assert_eq!(result.spans.len(), 2);
    assert_eq!(result.spans[0].span_type, FfiInlineType::Italic);
    assert_eq!(result.spans[0].start, 0);
    assert_eq!(result.spans[0].end, 6);
    assert_eq!(result.spans[1].span_type, FfiInlineType::Strikethrough);
    assert_eq!(result.spans[1].start, 11);
    assert_eq!(result.spans[1].end, 17);
}

#[test]
fn preview_bullet_list() {
    let mut parser = CindermarkParser::new(None);
    let result = parser.render_preview("- item one\n- item two".to_string(), 200);
    assert_eq!(result.plain_text, "item one\nitem two");
}

#[test]
fn preview_inline_code() {
    let mut parser = CindermarkParser::new(None);
    let result = parser.render_preview("Use `println` here".to_string(), 200);
    assert_eq!(result.plain_text, "Use println here");
    assert_eq!(result.spans.len(), 1);
    assert_eq!(result.spans[0].span_type, FfiInlineType::InlineCode);
    assert_eq!(result.spans[0].start, 4);
    assert_eq!(result.spans[0].end, 11);
}

#[test]
fn preview_blockquote() {
    let mut parser = CindermarkParser::new(None);
    let result = parser.render_preview("> Quoted **text**".to_string(), 200);
    assert_eq!(result.plain_text, "Quoted text");
    assert_eq!(result.spans.len(), 1);
    assert_eq!(result.spans[0].span_type, FfiInlineType::Bold);
}

#[test]
fn preview_wiki_link_stripped() {
    let mut parser = CindermarkParser::new(None);
    let result = parser.render_preview("See [[My Note]] here".to_string(), 200);
    assert_eq!(result.plain_text, "See My Note here");
}

#[test]
fn preview_wiki_link_alias_uses_display_text() {
    let mut parser = CindermarkParser::new(None);
    let result = parser.render_preview("See [[Target|friendly name]] here".to_string(), 200);
    assert_eq!(result.plain_text, "See friendly name here");
}

#[test]
fn preview_comment_stripped_entirely() {
    let mut parser = CindermarkParser::new(None);
    let result =
        parser.render_preview("visible %%hidden drafting note%% more".to_string(), 200);
    // Double space is acceptable — matches Obsidian's comment-stripping behavior.
    assert!(
        result.plain_text.starts_with("visible") && result.plain_text.ends_with("more"),
        "Comment body must not appear in preview, got {:?}",
        result.plain_text
    );
    assert!(
        !result.plain_text.contains("hidden drafting note"),
        "Comment body leaked into preview: {:?}",
        result.plain_text
    );
    assert!(
        !result.plain_text.contains("%%"),
        "Comment fences must not appear in preview: {:?}",
        result.plain_text
    );
}

#[test]
fn preview_bold_italic_nested() {
    let mut parser = CindermarkParser::new(None);
    let result = parser.render_preview("***bold italic*** text".to_string(), 200);
    assert_eq!(result.plain_text, "bold italic text");
    assert_eq!(result.spans.len(), 1);
    assert_eq!(result.spans[0].span_type, FfiInlineType::BoldItalic);
    assert_eq!(result.spans[0].start, 0);
    assert_eq!(result.spans[0].end, 11); // "bold italic" = 11 chars
}

#[test]
fn preview_mixed_formatting() {
    let mut parser = CindermarkParser::new(None);
    // Inline code has higher priority: backticks are claimed first,
    // which prevents bold ** from matching across the code span.
    // This matches CommonMark behavior.
    let result = parser.render_preview("**bold** and `code`".to_string(), 200);
    assert_eq!(result.plain_text, "bold and code");
    assert_eq!(result.spans.len(), 2);
    assert_eq!(result.spans[0].span_type, FfiInlineType::Bold);
    assert_eq!(result.spans[1].span_type, FfiInlineType::InlineCode);
}

#[test]
fn preview_stacked_strikethrough_bold() {
    let mut parser = CindermarkParser::new(None);
    let result = parser.render_preview("~~**bold strike**~~".to_string(), 200);
    assert_eq!(result.plain_text, "bold strike");
    // Should have both strikethrough and bold spans
    assert!(result.spans.len() >= 2);
}

#[test]
fn render_previews_single_parse() {
    let mut parser = CindermarkParser::new(None);
    let results = parser.render_previews(
        "# Title\n\n**bold** paragraph\n\nMore text here".to_string(),
        10,
        200,
    );
    assert_eq!(results.len(), 2);
    // Short preview truncated to ~10 UTF-16 code units
    assert!(results[0].plain_text.encode_utf16().count() <= 10);
    // Long preview contains full content
    assert_eq!(
        results[1].plain_text,
        "Title\nbold paragraph\nMore text here"
    );
    assert!(!results[1].spans.is_empty());
}

#[test]
fn ffi_table_data() {
    let mut parser = CindermarkParser::new(None);
    let result = parser.parse("| A | B |\n| --- | --- |\n| 1 | 2 |".to_string());
    assert_eq!(result.blocks[0].block_type, FfiBlockType::Table);
    assert_eq!(result.blocks[0].table_headers, vec!["A", "B"]);
    assert_eq!(
        result.blocks[0].table_rows,
        vec![vec!["1".to_string(), "2".to_string()]]
    );
}

// MARK: - Wiki links + headings in parse result

#[test]
fn parse_result_contains_wiki_links() {
    let mut parser = CindermarkParser::new(None);
    let result = parser.parse("See [[My Note]] and [[Other Note]]".to_string());
    assert_eq!(result.wiki_links, vec!["My Note", "Other Note"]);
}

#[test]
fn parse_result_wiki_links_deduped() {
    let mut parser = CindermarkParser::new(None);
    let result = parser.parse("See [[Note]] and [[Note]] again".to_string());
    assert_eq!(result.wiki_links, vec!["Note"]);
}

#[test]
fn parse_result_wiki_link_alias_uses_target_for_backlinks() {
    let mut parser = CindermarkParser::new(None);
    let result = parser
        .parse("See [[Project Apollo|the moon shot]] and [[Project Apollo]] again".to_string());
    // Backlinks use the target; the alias is display-only and bare + aliased
    // references to the same target dedupe to one backlink entry.
    assert_eq!(result.wiki_links, vec!["Project Apollo"]);
}

#[test]
fn parse_result_wiki_links_skip_code_blocks() {
    let mut parser = CindermarkParser::new(None);
    let result =
        parser.parse("See [[Real]]\n\n```\n[[InCode]]\n```\n\n[[Also Real]]".to_string());
    assert_eq!(result.wiki_links, vec!["Real", "Also Real"]);
}

#[test]
fn parse_result_contains_headings() {
    let mut parser = CindermarkParser::new(None);
    let result = parser.parse("# Title\n\nParagraph\n\n## Subtitle\n\n### Deep".to_string());
    assert_eq!(result.headings.len(), 3);
    assert_eq!(result.headings[0].level, 1);
    assert_eq!(result.headings[0].text, "Title");
    assert_eq!(result.headings[1].level, 2);
    assert_eq!(result.headings[1].text, "Subtitle");
    assert_eq!(result.headings[2].level, 3);
    assert_eq!(result.headings[2].text, "Deep");
}

#[test]
fn parse_result_no_headings_or_wiki_links() {
    let mut parser = CindermarkParser::new(None);
    let result = parser.parse("Just a plain paragraph.".to_string());
    assert!(result.wiki_links.is_empty());
    assert!(result.headings.is_empty());
}

// MARK: - parse_for_save combined method

#[test]
fn parse_for_save_returns_everything() {
    let mut parser = CindermarkParser::new(None);
    let result = parser.parse_for_save(
        "# Title\n\nSee [[My Note]]\n\n**bold** text".to_string(),
        10,
        200,
    );
    // Blocks
    assert!(!result.blocks.is_empty());
    // Stats
    assert!(result.stats.word_count > 0);
    assert_eq!(result.stats.heading_count, 1);
    // Wiki links
    assert_eq!(result.wiki_links, vec!["My Note"]);
    // Headings
    assert_eq!(result.headings.len(), 1);
    assert_eq!(result.headings[0].text, "Title");
    // Previews
    assert!(!result.long_preview.plain_text.is_empty());
    assert!(result.long_preview.plain_text.contains("bold text"));
    // Short preview is truncated
    assert!(result.short_preview.plain_text.encode_utf16().count() <= 10);
}

#[test]
fn parse_for_save_empty_input() {
    let mut parser = CindermarkParser::new(None);
    let result = parser.parse_for_save(String::new(), 200, 800);
    assert!(result.blocks.is_empty());
    assert!(result.wiki_links.is_empty());
    assert!(result.headings.is_empty());
    assert!(result.short_preview.plain_text.is_empty());
    assert!(result.long_preview.plain_text.is_empty());
}

#[test]
fn parse_for_save_matches_separate_calls() {
    let mut parser = CindermarkParser::new(None);
    let text = "# Hello\n\nSee [[World]]\n\n- [x] Done\n- [ ] Todo".to_string();
    let combined = parser.parse_for_save(text.clone(), 200, 800);
    let separate_parse = parser.parse(text.clone());
    let separate_previews = parser.render_previews(text.clone(), 200, 800);
    let separate_wikilinks = parser.extract_wiki_links(text);

    // Wiki links should match
    assert_eq!(combined.wiki_links, separate_wikilinks);
    // Stats should match
    assert_eq!(combined.stats.word_count, separate_parse.stats.word_count);
    assert_eq!(
        combined.stats.checkbox_total,
        separate_parse.stats.checkbox_total
    );
    // Preview text should match
    assert_eq!(
        combined.short_preview.plain_text,
        separate_previews[0].plain_text
    );
    assert_eq!(
        combined.long_preview.plain_text,
        separate_previews[1].plain_text
    );
    // Heading count should match
    assert_eq!(combined.headings.len(), separate_parse.headings.len());
}

#[test]
fn parse_for_save_wiki_links_in_lists() {
    let mut parser = CindermarkParser::new(None);
    let result =
        parser.parse_for_save("- See [[Note A]]\n- And [[Note B]]".to_string(), 200, 800);
    assert_eq!(result.wiki_links, vec!["Note A", "Note B"]);
}

#[test]
fn parse_for_save_wiki_links_in_tables() {
    let mut parser = CindermarkParser::new(None);
    let result = parser.parse_for_save(
        "| Header | Link |\n| --- | --- |\n| Cell | See [[Table Note]] |".to_string(),
        200,
        800,
    );
    assert_eq!(result.wiki_links, vec!["Table Note"]);
}

#[test]
fn parse_result_wiki_links_in_tables() {
    let mut parser = CindermarkParser::new(None);
    let result = parser.parse("| A | B |\n| - | - |\n| [[Note X]] | text |".to_string());
    assert_eq!(result.wiki_links, vec!["Note X"]);
}

#[test]
fn wiki_links_in_tables_deduped_with_body() {
    let mut parser = CindermarkParser::new(None);
    let result = parser.parse_for_save(
        "See [[Shared]]\n\n| A |\n| - |\n| [[Shared]] |\n| [[Table Only]] |".to_string(),
        200,
        800,
    );
    // "Shared" appears in both body and table — should be deduped
    assert_eq!(result.wiki_links, vec!["Shared", "Table Only"]);
}

#[test]
fn wiki_links_in_blockquotes() {
    let mut parser = CindermarkParser::new(None);
    let result =
        parser.parse_for_save("> See [[Quoted Note]] for context".to_string(), 200, 800);
    assert_eq!(result.wiki_links, vec!["Quoted Note"]);
}
