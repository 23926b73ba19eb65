use cindermark::ast::{BlockKind, BlockNode, ColumnAlignment, InlineKind, ParseMode, CalloutKind, MermaidDiagramType};
use cindermark::parser::{parse, extract_wiki_links, toggle_checkbox};

// Helper to parse in grouped mode
fn parse_grouped(input: &str) -> Vec<BlockNode> {
    parse(input, ParseMode::Grouped).blocks
}

fn parse_editable(input: &str) -> Vec<BlockNode> {
    parse(input, ParseMode::Editable).blocks
}

// MARK: - Headings

#[test]
fn parser_h1_heading() {
    let blocks = parse_grouped("# Hello World");
    assert_eq!(blocks.len(), 1);
    assert!(
        matches!(&blocks[0].kind, BlockKind::Heading { level: 1, text } if text == "Hello World")
    );
}

#[test]
fn parser_h2_heading() {
    let blocks = parse_grouped("## Sub Heading");
    assert_eq!(blocks.len(), 1);
    assert!(
        matches!(&blocks[0].kind, BlockKind::Heading { level: 2, text } if text == "Sub Heading")
    );
}

#[test]
fn parser_h3_heading() {
    let blocks = parse_grouped("### Small Heading");
    assert_eq!(blocks.len(), 1);
    assert!(
        matches!(&blocks[0].kind, BlockKind::Heading { level: 3, text } if text == "Small Heading")
    );
}

#[test]
fn parser_heading_requires_space() {
    let blocks = parse_grouped("#NoSpace");
    assert_eq!(blocks.len(), 1);
    assert!(matches!(&blocks[0].kind, BlockKind::Paragraph { .. }));
}

#[test]
fn parser_all_heading_levels() {
    for level in 1..=6u8 {
        let input = format!("{} Heading {}", "#".repeat(level as usize), level);
        let blocks = parse_grouped(&input);
        assert_eq!(blocks.len(), 1);
        if let BlockKind::Heading { level: l, text: _ } = &blocks[0].kind {
            assert_eq!(*l, level);
        } else {
            panic!("Expected heading for level {}", level);
        }
    }
}

// MARK: - Code blocks

#[test]
fn parser_code_block_with_language() {
    let blocks = parse_grouped("```swift\nlet x = 1\n```");
    assert_eq!(blocks.len(), 1);
    if let BlockKind::CodeBlock { language, code } = &blocks[0].kind {
        assert_eq!(language.as_deref(), Some("swift"));
        assert_eq!(code, "let x = 1");
    } else {
        panic!("Expected code block");
    }
}

#[test]
fn parser_code_block_no_language() {
    let blocks = parse_grouped("```\nsome code\n```");
    assert_eq!(blocks.len(), 1);
    if let BlockKind::CodeBlock { language, code } = &blocks[0].kind {
        assert!(language.is_none());
        assert_eq!(code, "some code");
    } else {
        panic!("Expected code block");
    }
}

#[test]
fn code_block_language_first_word_only() {
    let blocks = parse_grouped("```python3 interactive\nprint('hi')\n```");
    assert_eq!(blocks.len(), 1);
    if let BlockKind::CodeBlock { language, .. } = &blocks[0].kind {
        assert_eq!(language.as_deref(), Some("python3"));
    } else {
        panic!("Expected code block");
    }
}

#[test]
fn parser_unclosed_code_block() {
    let blocks = parse_grouped("```\nno closing fence");
    assert_eq!(blocks.len(), 1);
    if let BlockKind::CodeBlock { code, .. } = &blocks[0].kind {
        assert_eq!(code, "no closing fence");
    } else {
        panic!("Expected code block");
    }
}

// MARK: - Tables

#[test]
fn parser_simple_table() {
    let input = "| A | B |\n| --- | --- |\n| 1 | 2 |";
    let blocks = parse_grouped(input);
    assert_eq!(blocks.len(), 1);
    if let BlockKind::Table { headers, rows, .. } = &blocks[0].kind {
        assert_eq!(headers, &["A", "B"]);
        assert_eq!(rows.len(), 1);
        assert_eq!(rows[0], &["1", "2"]);
    } else {
        panic!("Expected table");
    }
}

#[test]
fn parser_table_with_alignments() {
    let input = "| Left | Center | Right |\n| :--- | :---: | ---: |\n| a | b | c |";
    let blocks = parse_grouped(input);
    if let BlockKind::Table { alignments, .. } = &blocks[0].kind {
        assert_eq!(
            alignments,
            &[
                ColumnAlignment::Left,
                ColumnAlignment::Center,
                ColumnAlignment::Right
            ]
        );
    } else {
        panic!("Expected table");
    }
}

#[test]
fn table_column_limit_enforced() {
    // A 3-column table should parse normally
    let small = "| A | B | C |\n| --- | --- | --- |\n| 1 | 2 | 3 |";
    let blocks = parse_grouped(small);
    assert!(matches!(&blocks[0].kind, BlockKind::Table { .. }));

    // Verify the constant is 20
    assert_eq!(cindermark::parser::MAX_TABLE_COLUMNS, 20);
}

// MARK: - Horizontal rule

#[test]
fn parser_hr_dashes() {
    let blocks = parse_grouped("---");
    assert_eq!(blocks.len(), 1);
    assert!(matches!(blocks[0].kind, BlockKind::HorizontalRule));
}

#[test]
fn hr_stars() {
    let blocks = parse_grouped("***");
    assert_eq!(blocks.len(), 1);
    assert!(matches!(blocks[0].kind, BlockKind::HorizontalRule));
}

#[test]
fn parser_hr_underscores() {
    let blocks = parse_grouped("___");
    assert_eq!(blocks.len(), 1);
    assert!(matches!(blocks[0].kind, BlockKind::HorizontalRule));
}

// MARK: - Blockquote

#[test]
fn blockquote_single_line() {
    let blocks = parse_grouped("> Hello");
    assert_eq!(blocks.len(), 1);
    if let BlockKind::Blockquote { text } = &blocks[0].kind {
        assert_eq!(text, "Hello");
    } else {
        panic!("Expected blockquote");
    }
}

#[test]
fn blockquote_multiline() {
    let blocks = parse_grouped("> line 1\n> line 2");
    assert_eq!(blocks.len(), 1);
    if let BlockKind::Blockquote { text } = &blocks[0].kind {
        assert_eq!(text, "line 1\nline 2");
    } else {
        panic!("Expected blockquote");
    }
}

// MARK: - Checkbox

#[test]
fn parser_checkbox_unchecked() {
    let blocks = parse_grouped("- [ ] task");
    assert_eq!(blocks.len(), 1);
    if let BlockKind::Checkbox { checked, text } = &blocks[0].kind {
        assert!(!checked);
        assert_eq!(text, "task");
    } else {
        panic!("Expected checkbox");
    }
}

#[test]
fn parser_checkbox_checked() {
    let blocks = parse_grouped("- [x] done");
    assert_eq!(blocks.len(), 1);
    if let BlockKind::Checkbox { checked, text } = &blocks[0].kind {
        assert!(checked);
        assert_eq!(text, "done");
    } else {
        panic!("Expected checkbox");
    }
}

// MARK: - Lists

#[test]
fn unordered_list() {
    let blocks = parse_grouped("- first\n- second\n- third");
    assert_eq!(blocks.len(), 1);
    if let BlockKind::BulletList { items } = &blocks[0].kind {
        assert_eq!(items.len(), 3);
        assert_eq!(items[0].text, "first");
        assert_eq!(items[1].text, "second");
        assert_eq!(items[2].text, "third");
    } else {
        panic!("Expected bullet list");
    }
}

#[test]
fn parser_ordered_list() {
    let blocks = parse_grouped("1. first\n2. second");
    assert_eq!(blocks.len(), 1);
    if let BlockKind::OrderedList { items, .. } = &blocks[0].kind {
        assert_eq!(items.len(), 2);
        assert_eq!(items[0].text, "first");
        assert_eq!(items[1].text, "second");
    } else {
        panic!("Expected ordered list");
    }
}

// MARK: - Editable mode

#[test]
fn editable_bullet_items() {
    let blocks = parse_editable("- first\n- second");
    assert_eq!(blocks.len(), 2);
    assert!(matches!(&blocks[0].kind, BlockKind::BulletItem { text } if text == "first"));
    assert!(matches!(&blocks[1].kind, BlockKind::BulletItem { text } if text == "second"));
}

#[test]
fn editable_numbered_items() {
    let blocks = parse_editable("1. first\n2. second");
    assert_eq!(blocks.len(), 2);
    assert!(
        matches!(&blocks[0].kind, BlockKind::NumberedItem { number: 1, text } if text == "first")
    );
    assert!(
        matches!(&blocks[1].kind, BlockKind::NumberedItem { number: 2, text } if text == "second")
    );
}

// MARK: - Paragraph

#[test]
fn parser_simple_paragraph() {
    let blocks = parse_grouped("Hello world");
    assert_eq!(blocks.len(), 1);
    assert!(matches!(&blocks[0].kind, BlockKind::Paragraph { text } if text == "Hello world"));
}

#[test]
fn parser_multiline_paragraph() {
    let blocks = parse_grouped("Line one\nLine two");
    assert_eq!(blocks.len(), 1);
    if let BlockKind::Paragraph { text } = &blocks[0].kind {
        assert_eq!(text, "Line one\nLine two");
    } else {
        panic!("Expected paragraph");
    }
}

// MARK: - Empty

#[test]
fn empty_line() {
    let blocks = parse_grouped("before\n\nafter");
    assert_eq!(blocks.len(), 3);
    assert!(matches!(blocks[1].kind, BlockKind::Empty));
}

// MARK: - Footnote definition

#[test]
fn parser_footnote_def() {
    let blocks = parse_grouped("[^1]: Some footnote text");
    assert_eq!(blocks.len(), 1);
    if let BlockKind::FootnoteDefinition { label, text } = &blocks[0].kind {
        assert_eq!(label, "1");
        assert_eq!(text, "Some footnote text");
    } else {
        panic!("Expected footnote definition");
    }
}

// MARK: - UTF-16 offsets

#[test]
fn utf16_offsets_ascii() {
    let blocks = parse_grouped("# Hello\nworld");
    assert_eq!(blocks[0].utf16_start, 0);
    assert_eq!(blocks[0].utf16_end, 8); // "# Hello\n" = 8 UTF-16 units
    assert_eq!(blocks[1].utf16_start, 8);
}

// MARK: - Mixed content

#[test]
fn mixed_document() {
    let input = "# Title\n\nSome text\n\n- item 1\n- item 2\n\n> quote\n\n---";
    let blocks = parse_grouped(input);
    assert!(matches!(
        &blocks[0].kind,
        BlockKind::Heading { level: 1, .. }
    ));
    assert!(matches!(blocks[1].kind, BlockKind::Empty));
    assert!(matches!(&blocks[2].kind, BlockKind::Paragraph { .. }));
    assert!(matches!(blocks[3].kind, BlockKind::Empty));
    assert!(matches!(&blocks[4].kind, BlockKind::BulletList { .. }));
    assert!(matches!(blocks[5].kind, BlockKind::Empty));
    assert!(matches!(&blocks[6].kind, BlockKind::Blockquote { .. }));
    assert!(matches!(blocks[7].kind, BlockKind::Empty));
    assert!(matches!(blocks[8].kind, BlockKind::HorizontalRule));
}

// MARK: - Wiki links

#[test]
fn extract_wiki_links_basic() {
    let links = extract_wiki_links("see [[Note One]] and [[Note Two]]");
    assert_eq!(links, vec!["Note One", "Note Two"]);
}

#[test]
fn extract_wiki_links_skips_code() {
    let links = extract_wiki_links("text `[[not a link]]` and [[real link]]");
    assert_eq!(links, vec!["real link"]);
}

#[test]
fn extract_wiki_links_skips_code_block() {
    let links = extract_wiki_links("text\n```\n[[not a link]]\n```\n[[real]]");
    assert_eq!(links, vec!["real"]);
}

#[test]
fn extract_wiki_link_alias_uses_target() {
    // `[[Project Apollo|the moon shot]]` — the target (pre-pipe) is the
    // backlink anchor; the post-pipe text is just display.
    let links = extract_wiki_links("see [[Project Apollo|the moon shot]] today");
    assert_eq!(links, vec!["Project Apollo"]);
}

#[test]
fn extract_wiki_link_alias_mixed_with_bare() {
    let links = extract_wiki_links("[[Foo|first alias]] and [[Bar]] and [[Foo|second alias]]");
    // Each `[[...]]` yields its target; dedup happens at the document level
    // (see `extract_wiki_links_from_doc`), not in this per-segment helper.
    assert_eq!(links, vec!["Foo", "Bar", "Foo"]);
}

#[test]
fn extract_wiki_link_empty_target_with_alias_ignored() {
    // `[[|alias]]` has empty target and must not produce a backlink.
    let links = extract_wiki_links("garbage [[|only alias]] end");
    assert!(
        links.is_empty(),
        "Empty target should produce no backlink, got {:?}",
        links
    );
}

// MARK: - Toggle checkbox

#[test]
fn toggle_checkbox_check() {
    let result = toggle_checkbox("- [ ] task", 0);
    assert_eq!(result, "- [x] task");
}

#[test]
fn toggle_checkbox_uncheck() {
    let result = toggle_checkbox("- [x] task", 0);
    assert_eq!(result, "- [ ] task");
}

// MARK: - Setext headings (CommonMark §4.3)

#[test]
fn setext_h1_equals() {
    let blocks = parse_grouped("Title\n=====");
    assert_eq!(blocks.len(), 1);
    if let BlockKind::Heading { level, text } = &blocks[0].kind {
        assert_eq!(*level, 1);
        assert_eq!(text, "Title");
    } else {
        panic!("Expected setext H1, got {:?}", blocks[0].kind);
    }
}

#[test]
fn setext_h2_dashes() {
    let blocks = parse_grouped("Subtitle\n---");
    assert_eq!(blocks.len(), 1);
    if let BlockKind::Heading { level, text } = &blocks[0].kind {
        assert_eq!(*level, 2);
        assert_eq!(text, "Subtitle");
    } else {
        panic!("Expected setext H2, got {:?}", blocks[0].kind);
    }
}

#[test]
fn setext_single_equals_is_h1() {
    // CommonMark: any number of = (≥1) makes a level-1 setext heading.
    let blocks = parse_grouped("Hi\n=");
    assert_eq!(blocks.len(), 1);
    assert!(matches!(
        &blocks[0].kind,
        BlockKind::Heading { level: 1, .. }
    ));
}

#[test]
fn setext_with_leading_spaces_in_underline() {
    // 0-3 leading spaces on the underline are allowed.
    let blocks = parse_grouped("Title\n   ====");
    assert_eq!(blocks.len(), 1);
    assert!(matches!(
        &blocks[0].kind,
        BlockKind::Heading { level: 1, .. }
    ));
}

#[test]
fn setext_underline_with_trailing_whitespace() {
    let blocks = parse_grouped("Title\n===   ");
    assert_eq!(blocks.len(), 1);
    assert!(matches!(
        &blocks[0].kind,
        BlockKind::Heading { level: 1, .. }
    ));
}

#[test]
fn setext_h2_wins_over_thematic_break() {
    // `Foo\n---` — the `---` looks like a thematic break, but a preceding
    // paragraph means it's a setext H2 (CommonMark spec resolution).
    let blocks = parse_grouped("Foo\n---");
    assert_eq!(blocks.len(), 1);
    assert!(matches!(
        &blocks[0].kind,
        BlockKind::Heading { level: 2, .. }
    ));
}

#[test]
fn setext_heading_followed_by_paragraph() {
    let blocks = parse_grouped("Foo\n---\nbar");
    assert_eq!(blocks.len(), 2);
    assert!(matches!(
        &blocks[0].kind,
        BlockKind::Heading { level: 2, .. }
    ));
    assert!(matches!(&blocks[1].kind, BlockKind::Paragraph { .. }));
}

#[test]
fn setext_after_blank_line_is_thematic_break() {
    // Blank line breaks the paragraph; `---` then becomes a thematic break.
    let blocks = parse_grouped("Foo\n\n---");
    // [Paragraph "Foo", Empty, HorizontalRule]
    assert_eq!(blocks.len(), 3);
    assert!(matches!(&blocks[0].kind, BlockKind::Paragraph { .. }));
    assert!(matches!(blocks[2].kind, BlockKind::HorizontalRule));
}

#[test]
fn setext_no_match_when_no_paragraph_above() {
    // Just `===` alone has no preceding paragraph; treated as paragraph.
    let blocks = parse_grouped("===");
    assert_eq!(blocks.len(), 1);
    assert!(matches!(&blocks[0].kind, BlockKind::Paragraph { .. }));
}

#[test]
fn setext_multiline_paragraph_heading() {
    let blocks = parse_grouped("Foo\nBar\n===");
    assert_eq!(blocks.len(), 1);
    if let BlockKind::Heading { level, text } = &blocks[0].kind {
        assert_eq!(*level, 1);
        assert_eq!(text, "Foo\nBar");
    } else {
        panic!(
            "Expected multi-line setext heading, got {:?}",
            blocks[0].kind
        );
    }
}

// MARK: - Indented code blocks (CommonMark §4.4)

#[test]
fn indented_code_block_basic() {
    let blocks = parse_grouped("    let x = 1");
    assert_eq!(blocks.len(), 1);
    if let BlockKind::CodeBlock { language, code } = &blocks[0].kind {
        assert!(language.is_none());
        assert_eq!(code, "let x = 1");
    } else {
        panic!("Expected indented code block, got {:?}", blocks[0].kind);
    }
}

#[test]
fn indented_code_with_tab() {
    let blocks = parse_grouped("\tlet x = 1");
    assert_eq!(blocks.len(), 1);
    assert!(matches!(&blocks[0].kind, BlockKind::CodeBlock { .. }));
}

#[test]
fn indented_code_multi_line() {
    let blocks = parse_grouped("    line one\n    line two\n    line three");
    assert_eq!(blocks.len(), 1);
    if let BlockKind::CodeBlock { code, .. } = &blocks[0].kind {
        assert_eq!(code, "line one\nline two\nline three");
    } else {
        panic!("Expected indented code block");
    }
}

#[test]
fn indented_code_includes_internal_blank_line() {
    let blocks = parse_grouped("    line one\n\n    line three");
    assert_eq!(blocks.len(), 1);
    if let BlockKind::CodeBlock { code, .. } = &blocks[0].kind {
        assert_eq!(code, "line one\n\nline three");
    } else {
        panic!("Expected single indented code block, got {:?}", blocks);
    }
}

#[test]
fn indented_code_strips_trailing_blanks() {
    let blocks = parse_grouped("    code\n\n\nparagraph");
    // [CodeBlock "code", Empty, Empty, Paragraph]
    assert!(blocks.len() >= 2);
    if let BlockKind::CodeBlock { code, .. } = &blocks[0].kind {
        assert_eq!(code, "code");
    } else {
        panic!("Expected indented code block, got {:?}", blocks[0].kind);
    }
}

#[test]
fn three_space_indent_is_paragraph_not_code() {
    // Only 4+ spaces qualify; 3 spaces is paragraph text.
    let blocks = parse_grouped("   not code");
    assert_eq!(blocks.len(), 1);
    assert!(matches!(&blocks[0].kind, BlockKind::Paragraph { .. }));
}

#[test]
fn indented_code_cannot_interrupt_paragraph() {
    // The indented line is a continuation of the paragraph, not a new code block.
    let blocks = parse_grouped("paragraph\n    not code");
    assert_eq!(blocks.len(), 1);
    if let BlockKind::Paragraph { text } = &blocks[0].kind {
        assert!(text.contains("not code"));
    } else {
        panic!("Expected paragraph, got {:?}", blocks[0].kind);
    }
}

#[test]
fn indented_code_preserves_extra_indent() {
    // Spaces beyond the first 4 belong to the code content.
    let blocks = parse_grouped("        deep indent");
    assert_eq!(blocks.len(), 1);
    if let BlockKind::CodeBlock { code, .. } = &blocks[0].kind {
        assert_eq!(code, "    deep indent");
    } else {
        panic!("Expected indented code block");
    }
}

// MARK: - Source preservation regressions
//
// The editor renders source text verbatim; the SwiftUI preview defers to
// `AttributedString(markdown:)` (Apple's CommonMark parser). For both
// paths to render correctly, the parser must preserve the raw bytes that
// CommonMark assigns special meaning to — trailing-space hard breaks,
// backslash hard breaks, and HTML entity references.

#[test]
fn paragraph_preserves_two_space_hard_break() {
    // Two trailing spaces + newline — `AttributedString(markdown:)` treats
    // this as a hard line break. We must keep both spaces in the joined text.
    let input = "line one  \nline two";
    let blocks = parse_grouped(input);
    assert_eq!(blocks.len(), 1);
    if let BlockKind::Paragraph { text } = &blocks[0].kind {
        assert_eq!(
            text, "line one  \nline two",
            "Trailing spaces must survive line join"
        );
    } else {
        panic!("Expected paragraph, got {:?}", blocks[0].kind);
    }
}

#[test]
fn paragraph_preserves_backslash_hard_break() {
    // Trailing backslash + newline — also a CommonMark hard line break.
    let input = "line one\\\nline two";
    let blocks = parse_grouped(input);
    assert_eq!(blocks.len(), 1);
    if let BlockKind::Paragraph { text } = &blocks[0].kind {
        assert_eq!(text, "line one\\\nline two");
    } else {
        panic!("Expected paragraph, got {:?}", blocks[0].kind);
    }
}

#[test]
fn paragraph_preserves_html_entities() {
    // Entities pass through unchanged so the preview path can decode them.
    let input = "5 &amp; 6 &lt; 10 &#x2603;";
    let blocks = parse_grouped(input);
    assert_eq!(blocks.len(), 1);
    if let BlockKind::Paragraph { text } = &blocks[0].kind {
        assert_eq!(text, "5 &amp; 6 &lt; 10 &#x2603;");
    } else {
        panic!("Expected paragraph, got {:?}", blocks[0].kind);
    }
}

#[test]
fn setext_underline_strips_inline_scan() {
    // The underline must not be inline-scanned (otherwise `==` triggers highlight).
    let doc = parse("Title\n===", ParseMode::Grouped);
    assert_eq!(doc.blocks.len(), 1);
    // No inline spans should be created from the `===` underline.
    let highlights: Vec<_> = doc.blocks[0]
        .inline_spans
        .iter()
        .filter(|s| matches!(s.kind, InlineKind::Highlight))
        .collect();
    assert!(
        highlights.is_empty(),
        "Setext underline must be excluded from inline scan"
    );
}

// MARK: - Callouts (Obsidian-style)

#[test]
fn callout_note_no_title_no_body() {
    let blocks = parse_grouped("> [!note]");
    assert_eq!(blocks.len(), 1);
    if let BlockKind::Callout { kind, title, text } = &blocks[0].kind {
        assert_eq!(*kind, CalloutKind::Note);
        assert!(title.is_none());
        assert_eq!(text, "");
    } else {
        panic!("Expected Callout, got {:?}", blocks[0].kind);
    }
}

#[test]
fn callout_tip_with_title() {
    let blocks = parse_grouped("> [!tip] Pro tip for you");
    assert_eq!(blocks.len(), 1);
    if let BlockKind::Callout { kind, title, .. } = &blocks[0].kind {
        assert_eq!(*kind, CalloutKind::Tip);
        assert_eq!(title.as_deref(), Some("Pro tip for you"));
    } else {
        panic!("Expected Callout");
    }
}

#[test]
fn callout_warning_with_body() {
    let blocks = parse_grouped("> [!warning]\n> Watch out\n> for bears");
    assert_eq!(blocks.len(), 1);
    if let BlockKind::Callout { kind, title, text } = &blocks[0].kind {
        assert_eq!(*kind, CalloutKind::Warning);
        assert!(title.is_none());
        assert_eq!(text, "Watch out\nfor bears");
    } else {
        panic!("Expected Callout");
    }
}

#[test]
fn callout_important_with_title_and_body() {
    let blocks = parse_grouped("> [!important] Read carefully\n> This matters");
    assert_eq!(blocks.len(), 1);
    if let BlockKind::Callout { kind, title, text } = &blocks[0].kind {
        assert_eq!(*kind, CalloutKind::Important);
        assert_eq!(title.as_deref(), Some("Read carefully"));
        assert_eq!(text, "This matters");
    } else {
        panic!("Expected Callout");
    }
}

#[test]
fn callout_caution_case_insensitive_kind() {
    let blocks = parse_grouped("> [!CAUTION] Big deal");
    assert_eq!(blocks.len(), 1);
    assert!(matches!(
        &blocks[0].kind,
        BlockKind::Callout {
            kind: CalloutKind::Caution,
            ..
        }
    ));
}

#[test]
fn callout_all_five_kinds() {
    for (name, expected) in [
        ("note", CalloutKind::Note),
        ("tip", CalloutKind::Tip),
        ("warning", CalloutKind::Warning),
        ("important", CalloutKind::Important),
        ("caution", CalloutKind::Caution),
    ] {
        let input = format!("> [!{}]", name);
        let blocks = parse_grouped(&input);
        assert_eq!(blocks.len(), 1, "kind={}", name);
        if let BlockKind::Callout { kind, .. } = &blocks[0].kind {
            assert_eq!(*kind, expected, "kind={}", name);
        } else {
            panic!("Expected Callout for {}", name);
        }
    }
}

#[test]
fn unknown_callout_kind_degrades_to_blockquote() {
    let blocks = parse_grouped("> [!nonsense] Not a callout\n> just a quote");
    assert_eq!(blocks.len(), 1);
    assert!(matches!(&blocks[0].kind, BlockKind::Blockquote { .. }));
}

#[test]
fn regular_blockquote_still_works() {
    let blocks = parse_grouped("> Just a quote\n> with two lines");
    assert_eq!(blocks.len(), 1);
    if let BlockKind::Blockquote { text } = &blocks[0].kind {
        assert_eq!(text, "Just a quote\nwith two lines");
    } else {
        panic!("Expected Blockquote, got {:?}", blocks[0].kind);
    }
}

#[test]
fn three_dashes_at_bof_is_thematic_break() {
    // Previously the parser carved a YAML frontmatter block out of `---`
    // fences at BOF. That support has been removed; a leading `---` now
    // behaves as a normal thematic break, and a second `---` on a later
    // line is either a thematic break or a setext underline per spec.
    let blocks = parse_grouped("---\ntitle: example\n---\nbody");
    assert!(matches!(&blocks[0].kind, BlockKind::HorizontalRule));
    // `title: example` on line 2 followed by `---` on line 3 still forms
    // a setext H2 (the ambiguity resolved in setext's favor).
    assert!(blocks
        .iter()
        .any(|b| matches!(&b.kind, BlockKind::Heading { level: 2, .. })));
}

#[test]
fn callout_fold_markers_stripped() {
    // `[!note]+` and `[!note]-` both parse as Note; the +/- is consumed.
    let open = parse_grouped("> [!note]+ Expanded");
    assert!(matches!(
        &open[0].kind,
        BlockKind::Callout {
            kind: CalloutKind::Note,
            ..
        }
    ));
    if let BlockKind::Callout { title, .. } = &open[0].kind {
        assert_eq!(title.as_deref(), Some("Expanded"));
    }
    let closed = parse_grouped("> [!note]- Collapsed");
    assert!(matches!(
        &closed[0].kind,
        BlockKind::Callout {
            kind: CalloutKind::Note,
            ..
        }
    ));
}

// MARK: - Regression checks across the five delight features

#[test]
fn callout_works_in_editable_mode() {
    let blocks = parse_editable("> [!tip] Hey\n> body line");
    assert!(blocks
        .iter()
        .any(|b| matches!(&b.kind, BlockKind::Callout { .. })));
}

#[test]
fn double_percent_in_text_without_closer_is_not_comment() {
    // `50%%` alone is a single unmatched `%%` — no comment should form.
    let blocks = parse_grouped("reached 50%% utilization today");
    assert!(
        blocks[0]
            .inline_spans
            .iter()
            .all(|s| !matches!(s.kind, cindermark::ast::InlineKind::Comment)),
        "Unmatched %% must not create a Comment span"
    );
}

#[test]
fn hex_color_does_not_eat_trailing_markdown() {
    // `#ff0000 **bold**` — hex span claims only the hex token; bold still parses.
    let blocks = parse_grouped("#ff0000 **bold**");
    let spans = &blocks[0].inline_spans;
    assert!(spans
        .iter()
        .any(|s| matches!(&s.kind, cindermark::ast::InlineKind::HexColor { .. })));
    assert!(spans
        .iter()
        .any(|s| matches!(&s.kind, cindermark::ast::InlineKind::Bold)));
}

#[test]
fn wiki_alias_inside_blockquote_works() {
    let blocks = parse_grouped("> see [[Target|Display]] today");
    if let BlockKind::Blockquote { .. } = &blocks[0].kind {
        assert!(blocks[0]
            .inline_spans
            .iter()
            .any(|s| matches!(s.kind, cindermark::ast::InlineKind::WikiLink)));
    } else {
        panic!("Expected Blockquote");
    }
}

// MARK: - Image marker

#[test]
fn image_marker_uppercase_uuid_recognised() {
    let blocks = parse_editable("![](ember:DEBD1746-CBBB-4A33-9CB0-4B1A5D956200)\n");
    assert_eq!(
        blocks.len(),
        1,
        "marker should not be merged with empty trailing"
    );
    match &blocks[0].kind {
        BlockKind::ImageMarker { uuid } => {
            assert_eq!(uuid, "DEBD1746-CBBB-4A33-9CB0-4B1A5D956200");
        }
        other => panic!("expected ImageMarker, got {:?}", other),
    }
}

#[test]
fn image_marker_lowercase_uuid_recognised() {
    let blocks = parse_editable("![](ember:debd1746-cbbb-4a33-9cb0-4b1a5d956200)\n");
    assert!(matches!(&blocks[0].kind, BlockKind::ImageMarker { .. }));
}

#[test]
fn image_marker_grouped_mode_recognised() {
    // Grouped mode is what preview surfaces consume; same dispatch rule.
    let blocks = parse_grouped("![](ember:DEBD1746-CBBB-4A33-9CB0-4B1A5D956200)");
    assert!(matches!(&blocks[0].kind, BlockKind::ImageMarker { .. }));
}

#[test]
fn image_marker_inside_paragraph_falls_through() {
    // Inline form (text on same line) is not a block marker — must
    // remain a Paragraph so editor surfaces don't accidentally tear
    // out a chunk of the user's prose.
    let blocks =
        parse_editable("look at this ![](ember:DEBD1746-CBBB-4A33-9CB0-4B1A5D956200) inline\n");
    assert!(matches!(&blocks[0].kind, BlockKind::Paragraph { .. }));
}

#[test]
fn image_marker_malformed_uuid_falls_through() {
    let blocks = parse_editable("![](ember:not-a-uuid)\n");
    assert!(matches!(&blocks[0].kind, BlockKind::Paragraph { .. }));
}

#[test]
fn image_marker_wrong_scheme_falls_through() {
    let blocks = parse_editable("![](other:DEBD1746-CBBB-4A33-9CB0-4B1A5D956200)\n");
    assert!(matches!(&blocks[0].kind, BlockKind::Paragraph { .. }));
}

#[test]
fn image_marker_in_document_alongside_other_blocks() {
    let src = "# Title\n\n![](ember:DEBD1746-CBBB-4A33-9CB0-4B1A5D956200)\n\nNext paragraph\n";
    let blocks = parse_editable(src);
    let kinds: Vec<&BlockKind> = blocks.iter().map(|b| &b.kind).collect();
    assert!(matches!(kinds[0], BlockKind::Heading { .. }));
    // Empty line, then marker, then empty line, then paragraph — exact
    // count varies by mode but the marker must be present.
    assert!(blocks
        .iter()
        .any(|b| matches!(b.kind, BlockKind::ImageMarker { .. })));
    assert!(blocks
        .iter()
        .any(|b| matches!(b.kind, BlockKind::Paragraph { .. })));
}
