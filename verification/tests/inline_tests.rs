use cindermark::ast::{BlockKind, InlineKind, InlineSpan, ParseMode};
use cindermark::parser::parse;


fn get_spans(input: &str) -> Vec<InlineSpan> {
    let doc = parse(input, ParseMode::Grouped);
    doc.blocks
        .into_iter()
        .flat_map(|b| b.inline_spans)
        .collect()
}

#[test]
fn inline_code() {
    let spans = get_spans("`code`");
    assert_eq!(spans.len(), 1);
    assert!(matches!(spans[0].kind, InlineKind::InlineCode));
}

#[test]
fn bold() {
    let spans = get_spans("**bold**");
    assert_eq!(spans.len(), 1);
    assert!(matches!(spans[0].kind, InlineKind::Bold));
}

#[test]
fn italic() {
    let spans = get_spans("*italic*");
    assert_eq!(spans.len(), 1);
    assert!(matches!(spans[0].kind, InlineKind::Italic));
}

#[test]
fn bold_italic() {
    let spans = get_spans("***bold italic***");
    assert_eq!(spans.len(), 1);
    assert!(matches!(spans[0].kind, InlineKind::BoldItalic));
}

#[test]
fn strikethrough() {
    let spans = get_spans("~~strikethrough~~");
    assert_eq!(spans.len(), 1);
    assert!(matches!(spans[0].kind, InlineKind::Strikethrough));
}

#[test]
fn highlight() {
    let spans = get_spans("==highlighted==");
    assert_eq!(spans.len(), 1);
    assert!(matches!(spans[0].kind, InlineKind::Highlight));
}

#[test]
fn colored_highlight_green() {
    let spans = get_spans("==\u{1F7E2}green text==");
    assert_eq!(spans.len(), 1);
    assert!(matches!(spans[0].kind, InlineKind::HighlightColor(3)));
}

#[test]
fn colored_highlight_red() {
    let spans = get_spans("==\u{1F534}red text==");
    assert_eq!(spans.len(), 1);
    assert!(matches!(spans[0].kind, InlineKind::HighlightColor(0)));
}

#[test]
fn legacy_colored_highlight_red() {
    let spans = get_spans("=={color:red}red text==");
    assert_eq!(spans.len(), 1);
    assert!(matches!(spans[0].kind, InlineKind::HighlightColor(0)));
}

#[test]
fn legacy_colored_highlight_green() {
    let spans = get_spans("=={color:green}green text==");
    assert_eq!(spans.len(), 1);
    assert!(matches!(spans[0].kind, InlineKind::HighlightColor(3)));
}

#[test]
fn legacy_colored_highlight_blue() {
    let spans = get_spans("=={color:blue}blue text==");
    assert_eq!(spans.len(), 1);
    assert!(matches!(spans[0].kind, InlineKind::HighlightColor(4)));
}

#[test]
fn legacy_colored_highlight_unknown_falls_back() {
    let spans = get_spans("=={color:magenta}text==");
    assert_eq!(spans.len(), 1);
    assert!(matches!(spans[0].kind, InlineKind::Highlight));
}

#[test]
fn hex_highlight_six_digit() {
    let spans = get_spans("=={#ff5733}text==");
    assert_eq!(spans.len(), 1);
    match &spans[0].kind {
        InlineKind::HighlightHex { hex } => assert_eq!(hex, "ff5733"),
        other => panic!("expected HighlightHex, got {other:?}"),
    }
    // Content `text` follows `==` (2) + `{#ff5733}` (9) = offset 11..15.
    assert_eq!(spans[0].utf16_start, 0);
    assert_eq!(spans[0].utf16_end, 17);
    assert_eq!(spans[0].content_utf16_start, 11);
    assert_eq!(spans[0].content_utf16_end, 15);
}

#[test]
fn hex_highlight_three_digit_expands() {
    let spans = get_spans("=={#f00}x==");
    assert_eq!(spans.len(), 1);
    match &spans[0].kind {
        InlineKind::HighlightHex { hex } => assert_eq!(hex, "ff0000"),
        other => panic!("expected HighlightHex, got {other:?}"),
    }
}

#[test]
fn hex_highlight_uppercase_normalized() {
    let spans = get_spans("=={#AABBCC}x==");
    assert_eq!(spans.len(), 1);
    match &spans[0].kind {
        InlineKind::HighlightHex { hex } => assert_eq!(hex, "aabbcc"),
        other => panic!("expected HighlightHex, got {other:?}"),
    }
}

#[test]
fn hex_highlight_eight_digit_drops_alpha() {
    let spans = get_spans("=={#11223344}x==");
    assert_eq!(spans.len(), 1);
    match &spans[0].kind {
        InlineKind::HighlightHex { hex } => assert_eq!(hex, "112233"),
        other => panic!("expected HighlightHex, got {other:?}"),
    }
}

#[test]
fn hex_highlight_invalid_length_falls_back() {
    // 2 hex digits is not a valid color length → plain highlight, `{#ff}`
    // stays in the content.
    let spans = get_spans("=={#ff}text==");
    assert_eq!(spans.len(), 1);
    assert!(matches!(spans[0].kind, InlineKind::Highlight));
}

#[test]
fn hex_highlight_non_hex_falls_back() {
    let spans = get_spans("=={#xyz}text==");
    assert_eq!(spans.len(), 1);
    assert!(matches!(spans[0].kind, InlineKind::Highlight));
}

#[test]
fn hex_highlight_missing_brace_falls_back() {
    let spans = get_spans("=={#ff5733 text==");
    assert_eq!(spans.len(), 1);
    assert!(matches!(spans[0].kind, InlineKind::Highlight));
}

#[test]
fn legacy_colored_highlight_content_range() {
    let spans = get_spans("=={color:red}hello==");
    assert_eq!(spans.len(), 1);
    // Content should be "hello" — after the } and before the closing ==
    // "=={color:red}" = 13 bytes, "hello" = 5 bytes, "==" = 2 bytes
    assert_eq!(spans[0].content_utf16_start, 13);
    assert_eq!(spans[0].content_utf16_end, 18);
}

#[test]
fn wiki_link() {
    let spans = get_spans("see [[Note Title]] here");
    assert_eq!(spans.len(), 1);
    assert!(matches!(spans[0].kind, InlineKind::WikiLink));
}

#[test]
fn wiki_link_with_alias_content_range_covers_alias_only() {
    // `[[Target|Alias]]` — content range points at `Alias`, making the
    // entire `[[Target|` run the opening marker for cursor-span hiding.
    let input = "see [[Target|Alias]] here";
    let spans = get_spans(input);
    assert_eq!(spans.len(), 1);
    assert!(matches!(spans[0].kind, InlineKind::WikiLink));
    // Full span spans `[[Target|Alias]]` — 16 UTF-16 code units from offset 4.
    assert_eq!(spans[0].utf16_start, 4);
    assert_eq!(spans[0].utf16_end, 20);
    // Content range covers `Alias` — 5 units starting after `[[Target|`.
    // `[[` + `Target|` = 2 + 7 = 9, so content starts at 4 + 9 = 13.
    assert_eq!(spans[0].content_utf16_start, 13);
    assert_eq!(spans[0].content_utf16_end, 18);
}

#[test]
fn wiki_link_without_alias_content_range_covers_target() {
    let input = "see [[Target]] here";
    let spans = get_spans(input);
    assert_eq!(spans.len(), 1);
    // Content = target since no alias: offset 6..12 (the `Target` text).
    assert_eq!(spans[0].content_utf16_start, 6);
    assert_eq!(spans[0].content_utf16_end, 12);
}

#[test]
fn wiki_link_alias_with_spaces() {
    let spans = get_spans("[[Long Target Name|Short Name]]");
    assert_eq!(spans.len(), 1);
    // `Short Name` begins right after `[[Long Target Name|`.
    assert_eq!(spans[0].content_utf16_start, 19);
    assert_eq!(spans[0].content_utf16_end, 29);
}

// MARK: - Hex color literals

fn get_hex_span(input: &str) -> Option<(String, u32, u32)> {
    get_spans(input).into_iter().find_map(|s| {
        if let InlineKind::HexColor { hex } = &s.kind {
            Some((hex.clone(), s.utf16_start, s.utf16_end))
        } else {
            None
        }
    })
}

#[test]
fn hex_color_six_digit_uppercase() {
    let (hex, _, _) = get_hex_span("the color #0E7BFE today").expect("hex span");
    assert_eq!(hex, "0e7bfe");
}

#[test]
fn hex_color_six_digit_lowercase() {
    let (hex, _, _) = get_hex_span("color #e34bfe here").expect("hex span");
    assert_eq!(hex, "e34bfe");
}

#[test]
fn hex_color_three_digit_expands() {
    let (hex, _, _) = get_hex_span("short #f0a!").expect("hex span");
    assert_eq!(hex, "ff00aa");
}

#[test]
fn hex_color_four_digit_drops_alpha() {
    let (hex, _, _) = get_hex_span("with alpha #f0a8 here").expect("hex span");
    assert_eq!(hex, "ff00aa");
}

#[test]
fn hex_color_eight_digit_drops_alpha() {
    let (hex, _, _) = get_hex_span("long alpha #0e7bfe80 here").expect("hex span");
    assert_eq!(hex, "0e7bfe");
}

#[test]
fn hex_color_at_start_of_text() {
    let (hex, start, _) = get_hex_span("#ff0000 leads").expect("hex span");
    assert_eq!(hex, "ff0000");
    assert_eq!(start, 0);
}

#[test]
fn hex_color_rejects_mid_word() {
    // `a#ff0000` — preceded by a letter, no swatch.
    let span = get_hex_span("a#ff0000");
    assert!(span.is_none(), "Mid-word # must not match, got {:?}", span);
}

#[test]
fn hex_color_rejects_trailing_alpha_beyond_8() {
    // `#ff0000ghi` — 6 hex digits followed by a letter → not a valid boundary.
    let span = get_hex_span("color #ff0000ghi here");
    assert!(
        span.is_none(),
        "Hex followed by letter must not match, got {:?}",
        span
    );
}

#[test]
fn hex_color_rejects_non_color_length() {
    // `#ab` (2 digits) and `#abcde` (5 digits) — not a valid hex color length.
    assert!(get_hex_span("is #ab here").is_none());
    assert!(get_hex_span("is #abcde here").is_none());
    assert!(
        get_hex_span("is #abcdefg here").is_none(),
        "7 digits invalid"
    );
}

#[test]
fn hex_color_rejects_hashtag_with_letters() {
    // `#general` — contains `g`, not a hex digit → no match.
    assert!(get_hex_span("see #general channel").is_none());
}

#[test]
fn hex_color_escaped_hash_is_literal() {
    let span = get_hex_span(r"literal \#ff0000 please");
    assert!(
        span.is_none(),
        "Escaped # must not start a hex, got {:?}",
        span
    );
}

#[test]
fn hex_color_inside_code_span_ignored() {
    let span = get_hex_span("`#ff0000`");
    assert!(span.is_none(), "Hex inside inline code must not match");
}

#[test]
fn hex_color_inside_comment_ignored() {
    let span = get_hex_span("%%#ff0000 draft%%");
    assert!(span.is_none(), "Hex inside comment must not match");
}

#[test]
fn hex_color_link_fragment_not_hex() {
    // `[home](#top)` — the `#top` is a URL fragment; the link claims it first,
    // and `#top` wouldn't be a hex anyway (t is not a hex digit).
    let spans = get_spans("[home](#top)");
    assert!(spans
        .iter()
        .any(|s| matches!(s.kind, InlineKind::Link { .. })));
    assert!(!spans
        .iter()
        .any(|s| matches!(s.kind, InlineKind::HexColor { .. })));
}

#[test]
fn hex_color_two_in_sequence() {
    let spans = get_spans("compare #0e7bfe and #e34bfe");
    let hexes: Vec<_> = spans
        .iter()
        .filter_map(|s| {
            if let InlineKind::HexColor { hex } = &s.kind {
                Some(hex.clone())
            } else {
                None
            }
        })
        .collect();
    assert_eq!(hexes, vec!["0e7bfe", "e34bfe"]);
}

// MARK: - Hidden comments %%...%%

#[test]
fn comment_basic() {
    let spans = get_spans("keep %%hidden note%% visible");
    assert_eq!(spans.len(), 1);
    assert!(matches!(spans[0].kind, InlineKind::Comment));
}

#[test]
fn comment_suppresses_inner_formatting() {
    // `%%**bold**%%` — inner bold is inside a claimed comment range, so no bold span.
    let spans = get_spans("%%**not bold**%%");
    assert_eq!(spans.len(), 1);
    assert!(matches!(spans[0].kind, InlineKind::Comment));
}

#[test]
fn comment_does_not_claim_inside_code() {
    // `` `%%literal%%` `` — inline code wins, no Comment span.
    let spans = get_spans("`%%literal%%`");
    assert_eq!(spans.len(), 1);
    assert!(matches!(spans[0].kind, InlineKind::InlineCode));
}

#[test]
fn comment_claims_wiki_link_inside() {
    // `%%[[foo]]%%` — the comment claims the full range, so no wiki span emitted.
    let spans = get_spans("%%[[foo]]%%");
    assert_eq!(spans.len(), 1);
    assert!(matches!(spans[0].kind, InlineKind::Comment));
}

#[test]
fn comment_unmatched_percent_does_nothing() {
    // A stray `%%` with no close is plain text.
    let spans = get_spans("only one %% fence here");
    assert!(
        spans.iter().all(|s| !matches!(s.kind, InlineKind::Comment)),
        "Unmatched %% should not emit a Comment, got: {:?}",
        spans
    );
}

#[test]
fn comment_escaped_open_not_a_fence() {
    let spans = get_spans(r"text \%%not a comment%% end");
    let comments: Vec<_> = spans
        .iter()
        .filter(|s| matches!(s.kind, InlineKind::Comment))
        .collect();
    assert!(
        comments.is_empty(),
        "Escaped %% should not open a comment, got: {:?}",
        spans
    );
}

#[test]
fn wiki_link_escaped_pipe_not_alias_separator() {
    // `[[Foo\|Bar]]` — the `\|` is an escaped pipe, so the target is
    // literal `Foo\|Bar` and there's no alias. Content covers the full body.
    let spans = get_spans(r"[[Foo\|Bar]]");
    assert_eq!(spans.len(), 1);
    assert_eq!(spans[0].content_utf16_start, 2);
    // Full body length: `Foo\|Bar` = 8 chars, so content ends at 2 + 8 = 10.
    assert_eq!(spans[0].content_utf16_end, 10);
}

#[test]
fn markdown_link() {
    let spans = get_spans("[click here](https://example.com)");
    assert_eq!(spans.len(), 1);
    if let InlineKind::Link { url } = &spans[0].kind {
        assert_eq!(url, "https://example.com");
    } else {
        panic!("Expected Link");
    }
}

#[test]
fn html_underline() {
    let spans = get_spans("<u>underlined</u>");
    assert_eq!(spans.len(), 1);
    assert!(matches!(spans[0].kind, InlineKind::UnderlineHtml));
}

#[test]
fn tilde_underline() {
    let spans = get_spans("~underlined~");
    assert_eq!(spans.len(), 1);
    assert!(matches!(spans[0].kind, InlineKind::UnderlineTilde));
}

#[test]
fn footnote_ref() {
    let spans = get_spans("text[^1] here");
    assert_eq!(spans.len(), 1);
    assert!(matches!(spans[0].kind, InlineKind::FootnoteRef));
}

#[test]
fn code_prevents_emphasis() {
    // Inline code should prevent * inside from being emphasis
    let spans = get_spans("`*not italic*`");
    assert_eq!(spans.len(), 1);
    assert!(matches!(spans[0].kind, InlineKind::InlineCode));
}

#[test]
fn multiple_inline_spans() {
    let spans = get_spans("**bold** and *italic*");
    assert_eq!(spans.len(), 2);
    assert!(matches!(spans[0].kind, InlineKind::Bold));
    assert!(matches!(spans[1].kind, InlineKind::Italic));
}

#[test]
fn no_inline_in_code_block() {
    let doc = parse("```\n**not bold**\n```", ParseMode::Grouped);
    let all_spans: Vec<_> = doc
        .blocks
        .iter()
        .flat_map(|b| b.inline_spans.iter())
        .collect();
    assert!(all_spans.is_empty());
}

#[test]
fn utf16_offsets_for_inline() {
    // "**hi**" = 8 bytes, 8 UTF-16
    let spans = get_spans("**hi**");
    assert_eq!(spans[0].utf16_start, 0);
    assert_eq!(spans[0].utf16_end, 6);
    assert_eq!(spans[0].content_utf16_start, 2);
    assert_eq!(spans[0].content_utf16_end, 4);
}

// MARK: - Nested emphasis tests

#[test]
fn nested_italic_inside_bold() {
    // **bold *italic* bold** → Bold wrapping everything, Italic inside
    let spans = get_spans("**bold *italic* bold**");
    assert_eq!(spans.len(), 2, "Expected Bold + Italic, got: {:?}", spans);
    // Outer Bold span
    let bold = spans
        .iter()
        .find(|s| matches!(s.kind, InlineKind::Bold))
        .unwrap();
    // Inner Italic span
    let italic = spans
        .iter()
        .find(|s| matches!(s.kind, InlineKind::Italic))
        .unwrap();
    // Bold should contain Italic
    assert!(bold.utf16_start <= italic.utf16_start);
    assert!(bold.utf16_end >= italic.utf16_end);
}

#[test]
fn nested_bold_inside_italic() {
    // *italic **bold** italic* → Italic wrapping, Bold inside
    let spans = get_spans("*italic **bold** italic*");
    assert_eq!(spans.len(), 2, "Expected Italic + Bold, got: {:?}", spans);
    let italic = spans
        .iter()
        .find(|s| matches!(s.kind, InlineKind::Italic))
        .unwrap();
    let bold = spans
        .iter()
        .find(|s| matches!(s.kind, InlineKind::Bold))
        .unwrap();
    assert!(italic.utf16_start <= bold.utf16_start);
    assert!(italic.utf16_end >= bold.utf16_end);
}

#[test]
fn bold_italic_triple_asterisk() {
    let spans = get_spans("***bold italic***");
    assert_eq!(spans.len(), 1);
    assert!(matches!(spans[0].kind, InlineKind::BoldItalic));
}

#[test]
fn empty_delimiters_produce_no_spans() {
    // **** with no content should not produce spans
    let spans = get_spans("****");
    assert!(
        spans.is_empty(),
        "Empty delimiters should produce no spans, got: {:?}",
        spans
    );
}

#[test]
fn adjacent_bold_then_italic() {
    // **bold** *italic* — two separate non-overlapping spans
    let spans = get_spans("**bold** *italic*");
    assert_eq!(spans.len(), 2);
    assert!(matches!(spans[0].kind, InlineKind::Bold));
    assert!(matches!(spans[1].kind, InlineKind::Italic));
}

#[test]
fn five_asterisks_produces_bold_italic() {
    // *****text***** → should produce BoldItalic (3) at minimum
    let spans = get_spans("*****text*****");
    assert!(!spans.is_empty(), "Five asterisks should produce emphasis");
    // Should have BoldItalic at least
    assert!(spans
        .iter()
        .any(|s| matches!(s.kind, InlineKind::BoldItalic)));
}

// MARK: - Multi-backtick inline code tests

#[test]
fn double_backtick_code() {
    // ``code with ` backtick`` — double-backtick delimiters
    let spans = get_spans("``code with ` backtick``");
    assert_eq!(spans.len(), 1);
    assert!(matches!(spans[0].kind, InlineKind::InlineCode));
}

#[test]
fn triple_backtick_inline_code() {
    // ``` code with `` inside ``` — triple backtick delimiters
    let spans = get_spans("text ```code with `` inside``` more");
    assert_eq!(spans.len(), 1);
    assert!(matches!(spans[0].kind, InlineKind::InlineCode));
}

#[test]
fn mismatched_backtick_counts_no_match() {
    // `code`` — single backtick opener, double closer → no match
    // Per CommonMark, a backtick run of N can only be closed by a run of exactly N.
    // The `` is a 2-backtick run, not two separate single backticks.
    let spans = get_spans("text `code`` more");
    assert!(
        spans.is_empty(),
        "Mismatched backtick runs should not match, got: {:?}",
        spans
    );
}

#[test]
fn backtick_run_requires_exact_match() {
    // `` code ` more `` — the single ` inside doesn't close the ``
    let spans = get_spans("``code ` more``");
    assert_eq!(spans.len(), 1);
    assert!(matches!(spans[0].kind, InlineKind::InlineCode));
    // Content should include the inner backtick
    // Content range: after `` to before `` = "code ` more"
}

// MARK: - CommonMark Unicode flanking tests

#[test]
fn emphasis_after_open_paren() {
    // "(*foo*)" — asterisks adjacent to punctuation should still work
    // The opening * is preceded by ( (punctuation) → left-flanking condition 2 satisfied
    // The closing * is followed by ) (punctuation) → right-flanking condition 2 satisfied
    let spans = get_spans("(*foo*)");
    assert_eq!(
        spans.len(),
        1,
        "Emphasis inside parens should work, got: {:?}",
        spans
    );
    assert!(matches!(spans[0].kind, InlineKind::Italic));
}

#[test]
fn emphasis_inside_cjk_brackets() {
    // 「*foo*」— CJK brackets are Unicode punctuation
    let spans = get_spans("\u{300C}*foo*\u{300D}");
    assert_eq!(
        spans.len(),
        1,
        "Emphasis inside CJK brackets should work, got: {:?}",
        spans
    );
    assert!(matches!(spans[0].kind, InlineKind::Italic));
}

#[test]
fn emphasis_inside_smart_quotes() {
    // "*foo*" — smart quotes are Unicode punctuation (Pi/Pf)
    let spans = get_spans("\u{201C}*foo*\u{201D}");
    assert_eq!(
        spans.len(),
        1,
        "Emphasis inside smart quotes should work, got: {:?}",
        spans
    );
    assert!(matches!(spans[0].kind, InlineKind::Italic));
}

#[test]
fn emphasis_with_fullwidth_punctuation() {
    // ！*foo*！ — fullwidth punctuation
    let spans = get_spans("\u{FF01}*foo*\u{FF01}");
    assert_eq!(
        spans.len(),
        1,
        "Emphasis with fullwidth punctuation, got: {:?}",
        spans
    );
    assert!(matches!(spans[0].kind, InlineKind::Italic));
}

#[test]
fn no_emphasis_when_preceded_by_word_and_followed_by_punctuation() {
    // CommonMark example 386: foo*bar* — intraword emphasis with * DOES work
    let spans = get_spans("foo*bar*");
    assert_eq!(
        spans.len(),
        1,
        "Intraword emphasis should work with *, got: {:?}",
        spans
    );
    assert!(matches!(spans[0].kind, InlineKind::Italic));
}

#[test]
fn emphasis_preceded_by_no_break_space() {
    // \u{00A0}*foo* — no-break space is Unicode whitespace, so * at position after it
    // is left-flanking (not preceded by word char — the space counts)
    let spans = get_spans("\u{00A0}*foo*");
    assert_eq!(
        spans.len(),
        1,
        "Emphasis after no-break space should work, got: {:?}",
        spans
    );
    assert!(matches!(spans[0].kind, InlineKind::Italic));
}

// MARK: - AutoLink tests

#[test]
fn autolink_https() {
    let spans = get_spans("Visit https://example.com today");
    assert_eq!(spans.len(), 1);
    if let InlineKind::AutoLink { url } = &spans[0].kind {
        assert_eq!(url, "https://example.com");
    } else {
        panic!("Expected AutoLink, got {:?}", spans[0].kind);
    }
}

#[test]
fn autolink_http() {
    let spans = get_spans("See http://example.org/path");
    assert_eq!(spans.len(), 1);
    if let InlineKind::AutoLink { url } = &spans[0].kind {
        assert_eq!(url, "http://example.org/path");
    } else {
        panic!("Expected AutoLink, got {:?}", spans[0].kind);
    }
}

#[test]
fn autolink_with_path_and_query() {
    let spans = get_spans("https://example.com/path?q=test&lang=en#section");
    assert_eq!(spans.len(), 1);
    if let InlineKind::AutoLink { url } = &spans[0].kind {
        assert_eq!(url, "https://example.com/path?q=test&lang=en#section");
    } else {
        panic!("Expected AutoLink, got {:?}", spans[0].kind);
    }
}

#[test]
fn autolink_strips_trailing_period() {
    let spans = get_spans("Visit https://example.com.");
    assert_eq!(spans.len(), 1);
    if let InlineKind::AutoLink { url } = &spans[0].kind {
        assert_eq!(url, "https://example.com");
    } else {
        panic!("Expected AutoLink, got {:?}", spans[0].kind);
    }
}

#[test]
fn autolink_strips_trailing_comma() {
    let spans = get_spans("See https://a.com, https://b.com");
    assert_eq!(spans.len(), 2);
}

#[test]
fn autolink_preserves_balanced_parens() {
    // Wikipedia-style URLs with balanced parentheses.
    let spans = get_spans("https://en.wikipedia.org/wiki/Rust_(programming_language)");
    assert_eq!(spans.len(), 1);
    if let InlineKind::AutoLink { url } = &spans[0].kind {
        assert_eq!(
            url,
            "https://en.wikipedia.org/wiki/Rust_(programming_language)"
        );
    } else {
        panic!("Expected AutoLink, got {:?}", spans[0].kind);
    }
}

#[test]
fn autolink_unmatched_closing_paren() {
    // URL followed by sentence-level closing paren.
    let spans = get_spans("(see https://example.com)");
    assert_eq!(spans.len(), 1);
    if let InlineKind::AutoLink { url } = &spans[0].kind {
        assert_eq!(url, "https://example.com");
    } else {
        panic!("Expected AutoLink, got {:?}", spans[0].kind);
    }
}

#[test]
fn autolink_not_inside_markdown_link() {
    // URL inside [text](url) should NOT produce an AutoLink — it's already a Link.
    let spans = get_spans("[click](https://example.com)");
    assert_eq!(spans.len(), 1);
    assert!(matches!(spans[0].kind, InlineKind::Link { .. }));
}

#[test]
fn autolink_not_inside_inline_code() {
    let spans = get_spans("`https://example.com`");
    assert_eq!(spans.len(), 1);
    assert!(matches!(spans[0].kind, InlineKind::InlineCode));
}

#[test]
fn autolink_multiple_on_line() {
    let spans = get_spans("Visit https://a.com and https://b.com today");
    let autolinks: Vec<_> = spans
        .iter()
        .filter(|s| matches!(s.kind, InlineKind::AutoLink { .. }))
        .collect();
    assert_eq!(autolinks.len(), 2);
}

#[test]
fn autolink_at_line_start() {
    let spans = get_spans("https://example.com is great");
    assert_eq!(spans.len(), 1);
    assert!(matches!(spans[0].kind, InlineKind::AutoLink { .. }));
    assert_eq!(spans[0].utf16_start, 0);
}

#[test]
fn autolink_at_line_end() {
    let spans = get_spans("Visit https://example.com");
    assert_eq!(spans.len(), 1);
    if let InlineKind::AutoLink { url } = &spans[0].kind {
        assert_eq!(url, "https://example.com");
    } else {
        panic!("Expected AutoLink");
    }
}

#[test]
fn autolink_no_scheme_only() {
    // Just "https://" with nothing after should not match.
    let spans = get_spans("See https:// here");
    let autolinks: Vec<_> = spans
        .iter()
        .filter(|s| matches!(s.kind, InlineKind::AutoLink { .. }))
        .collect();
    assert_eq!(autolinks.len(), 0);
}

#[test]
fn autolink_with_bold() {
    let spans = get_spans("**bold** and https://example.com");
    assert_eq!(spans.len(), 2);
    assert!(matches!(spans[0].kind, InlineKind::Bold));
    assert!(matches!(spans[1].kind, InlineKind::AutoLink { .. }));
}

#[test]
fn autolink_content_equals_full_range() {
    // AutoLinks have no delimiters — content range equals full range.
    let spans = get_spans("https://example.com");
    assert_eq!(spans.len(), 1);
    assert_eq!(spans[0].utf16_start, spans[0].content_utf16_start);
    assert_eq!(spans[0].utf16_end, spans[0].content_utf16_end);
}

// MARK: - Domain-based autolink tests

#[test]
fn autolink_domain_com() {
    let spans = get_spans("Visit google.com today");
    assert_eq!(spans.len(), 1);
    if let InlineKind::AutoLink { url } = &spans[0].kind {
        assert_eq!(url, "https://google.com");
    } else {
        panic!("Expected AutoLink, got {:?}", spans[0].kind);
    }
}

#[test]
fn autolink_domain_io() {
    let spans = get_spans("Check out rede.io for notes");
    assert_eq!(spans.len(), 1);
    if let InlineKind::AutoLink { url } = &spans[0].kind {
        assert_eq!(url, "https://rede.io");
    } else {
        panic!("Expected AutoLink, got {:?}", spans[0].kind);
    }
}

#[test]
fn autolink_domain_with_path() {
    let spans = get_spans("See docs.example.org/guide");
    assert_eq!(spans.len(), 1);
    if let InlineKind::AutoLink { url } = &spans[0].kind {
        assert_eq!(url, "https://docs.example.org/guide");
    } else {
        panic!("Expected AutoLink, got {:?}", spans[0].kind);
    }
}

#[test]
fn autolink_domain_with_subdomain() {
    let spans = get_spans("Visit www.example.com");
    assert_eq!(spans.len(), 1);
    if let InlineKind::AutoLink { url } = &spans[0].kind {
        assert_eq!(url, "https://www.example.com");
    } else {
        panic!("Expected AutoLink, got {:?}", spans[0].kind);
    }
}

#[test]
fn autolink_domain_world_tld() {
    // .world is in COMMON_TLDS — should be detected.
    let spans = get_spans("Visit hello.world today");
    assert_eq!(spans.len(), 1);
    if let InlineKind::AutoLink { url } = &spans[0].kind {
        assert_eq!(url, "https://hello.world");
    } else {
        panic!("Expected AutoLink, got {:?}", spans[0].kind);
    }
}

#[test]
fn autolink_domain_unknown_tld_ignored() {
    // .foobar is not in COMMON_TLDS — should NOT be detected.
    let spans = get_spans("hello.foobar is not a link");
    let autolinks: Vec<_> = spans
        .iter()
        .filter(|s| matches!(s.kind, InlineKind::AutoLink { .. }))
        .collect();
    assert_eq!(autolinks.len(), 0);
}

#[test]
fn autolink_domain_strips_trailing_period() {
    let spans = get_spans("Visit google.com.");
    assert_eq!(spans.len(), 1);
    if let InlineKind::AutoLink { url } = &spans[0].kind {
        assert_eq!(url, "https://google.com");
    } else {
        panic!("Expected AutoLink, got {:?}", spans[0].kind);
    }
}

#[test]
fn autolink_domain_in_parens() {
    let spans = get_spans("(see google.com)");
    assert_eq!(spans.len(), 1);
    if let InlineKind::AutoLink { url } = &spans[0].kind {
        assert_eq!(url, "https://google.com");
    } else {
        panic!("Expected AutoLink, got {:?}", spans[0].kind);
    }
}

#[test]
fn autolink_domain_not_inside_scheme_url() {
    // google.com inside https://google.com should NOT produce TWO autolinks.
    let spans = get_spans("Visit https://google.com today");
    assert_eq!(spans.len(), 1);
    if let InlineKind::AutoLink { url } = &spans[0].kind {
        assert_eq!(url, "https://google.com");
    } else {
        panic!("Expected AutoLink, got {:?}", spans[0].kind);
    }
}

#[test]
fn autolink_domain_multiple() {
    let spans = get_spans("See google.com and rede.io");
    let autolinks: Vec<_> = spans
        .iter()
        .filter(|s| matches!(s.kind, InlineKind::AutoLink { .. }))
        .collect();
    assert_eq!(autolinks.len(), 2);
}

#[test]
fn autolink_domain_dev_tld() {
    let spans = get_spans("Check example.dev");
    assert_eq!(spans.len(), 1);
    if let InlineKind::AutoLink { url } = &spans[0].kind {
        assert_eq!(url, "https://example.dev");
    } else {
        panic!("Expected AutoLink, got {:?}", spans[0].kind);
    }
}

// MARK: - Subreddit autolinks

#[test]
fn autolink_subreddit_simple() {
    let spans = get_spans("Post this to r/apple");
    assert_eq!(spans.len(), 1);
    if let InlineKind::AutoLink { url } = &spans[0].kind {
        assert_eq!(url, "https://www.reddit.com/r/apple");
    } else {
        panic!("Expected AutoLink, got {:?}", spans[0].kind);
    }
}

#[test]
fn autolink_subreddit_trailing_punctuation() {
    let spans = get_spans("Try r/SwiftUI, then r/iOS.");
    let urls: Vec<_> = spans
        .iter()
        .filter_map(|span| {
            if let InlineKind::AutoLink { url } = &span.kind {
                Some(url.as_str())
            } else {
                None
            }
        })
        .collect();
    assert_eq!(
        urls,
        vec![
            "https://www.reddit.com/r/SwiftUI",
            "https://www.reddit.com/r/iOS",
        ]
    );
}

#[test]
fn autolink_subreddit_not_inside_existing_url_or_code() {
    let spans = get_spans("https://www.reddit.com/r/apple and `r/swift`");
    assert_eq!(spans.len(), 2);
    assert!(matches!(spans[0].kind, InlineKind::AutoLink { .. }));
    assert!(matches!(spans[1].kind, InlineKind::InlineCode));
}

#[test]
fn autolink_subreddit_after_textkit_attachment_marker() {
    let spans = get_spans("\u{FFFC}r/apple\n\u{FFFC}r/SwiftUI");
    let urls: Vec<_> = spans
        .iter()
        .filter_map(|span| {
            if let InlineKind::AutoLink { url } = &span.kind {
                Some(url.as_str())
            } else {
                None
            }
        })
        .collect();
    assert_eq!(
        urls,
        vec![
            "https://www.reddit.com/r/apple",
            "https://www.reddit.com/r/SwiftUI",
        ]
    );
}

#[test]
fn autolink_subreddit_requires_boundary() {
    let spans = get_spans("cr/apple and r/a are not subreddit shorthand");
    let autolinks: Vec<_> = spans
        .iter()
        .filter(|s| matches!(s.kind, InlineKind::AutoLink { .. }))
        .collect();
    assert_eq!(autolinks.len(), 0);
}

// MARK: - Angle-bracket autolinks (CommonMark §6.4)

#[test]
fn angle_autolink_https() {
    let spans = get_spans("Visit <https://example.com> today");
    assert_eq!(spans.len(), 1);
    if let InlineKind::AutoLink { url } = &spans[0].kind {
        assert_eq!(url, "https://example.com");
    } else {
        panic!("Expected AutoLink, got {:?}", spans[0].kind);
    }
}

#[test]
fn angle_autolink_http() {
    let spans = get_spans("<http://example.org/path>");
    assert_eq!(spans.len(), 1);
    if let InlineKind::AutoLink { url } = &spans[0].kind {
        assert_eq!(url, "http://example.org/path");
    } else {
        panic!("Expected AutoLink");
    }
}

#[test]
fn angle_autolink_custom_scheme() {
    // CommonMark allows any 2-32 char scheme.
    let spans = get_spans("<ftp://files.example.com>");
    assert_eq!(spans.len(), 1);
    if let InlineKind::AutoLink { url } = &spans[0].kind {
        assert_eq!(url, "ftp://files.example.com");
    } else {
        panic!("Expected AutoLink");
    }
}

#[test]
fn angle_autolink_email() {
    let spans = get_spans("Email <foo@bar.com> for help");
    assert_eq!(spans.len(), 1);
    if let InlineKind::AutoLink { url } = &spans[0].kind {
        assert_eq!(url, "mailto:foo@bar.com");
    } else {
        panic!("Expected AutoLink, got {:?}", spans[0].kind);
    }
}

#[test]
fn angle_autolink_email_with_plus_alias() {
    let spans = get_spans("<foo+filter@example.com>");
    assert_eq!(spans.len(), 1);
    if let InlineKind::AutoLink { url } = &spans[0].kind {
        assert_eq!(url, "mailto:foo+filter@example.com");
    } else {
        panic!("Expected AutoLink");
    }
}

#[test]
fn angle_autolink_rejects_whitespace_inside() {
    // `<foo bar>` is not a valid autolink — embedded space disqualifies it.
    let spans = get_spans("<foo bar>");
    let auto: Vec<_> = spans
        .iter()
        .filter(|s| matches!(s.kind, InlineKind::AutoLink { .. }))
        .collect();
    assert!(
        auto.is_empty(),
        "Whitespace inside <…> disqualifies autolink"
    );
}

#[test]
fn angle_autolink_rejects_bare_word() {
    // `<foo>` is not a URI (no scheme `:`) and not an email (no `@`).
    let spans = get_spans("see <foo> for details");
    let auto: Vec<_> = spans
        .iter()
        .filter(|s| matches!(s.kind, InlineKind::AutoLink { .. }))
        .collect();
    assert!(auto.is_empty(), "<foo> alone is not an autolink");
}

#[test]
fn angle_autolink_escaped_open_falls_back_to_bare_url() {
    // `\<` skips the angle scanner, but the bare URL scanner still detects
    // `https://example.com`. We assert the autolink span doesn't include
    // the `<` / `>` (i.e. it's the bare URL form, not the angle form).
    let spans = get_spans(r"\<https://example.com>");
    let auto: Vec<_> = spans
        .iter()
        .filter(|s| matches!(s.kind, InlineKind::AutoLink { .. }))
        .collect();
    assert_eq!(auto.len(), 1);
    if let InlineKind::AutoLink { url } = &auto[0].kind {
        assert_eq!(url, "https://example.com");
    }
}

#[test]
fn angle_autolink_does_not_collide_with_html_underline() {
    // `<u>text</u>` is HTML underline, not an autolink (`u` isn't a valid scheme).
    let spans = get_spans("<u>underlined</u>");
    assert_eq!(spans.len(), 1);
    assert!(matches!(spans[0].kind, InlineKind::UnderlineHtml));
}

// MARK: - Bare email autolinks (GFM-style, ported from b505126)

#[test]
fn bare_email_simple() {
    let spans = get_spans("Email rene@embernotes.app for support");
    assert_eq!(spans.len(), 1);
    if let InlineKind::AutoLink { url } = &spans[0].kind {
        assert_eq!(url, "mailto:rene@embernotes.app");
    } else {
        panic!("Expected AutoLink, got {:?}", spans[0].kind);
    }
}

#[test]
fn bare_email_with_dots_and_subdomain() {
    let spans = get_spans("first.last@mail.example.co.uk");
    assert_eq!(spans.len(), 1);
    if let InlineKind::AutoLink { url } = &spans[0].kind {
        assert_eq!(url, "mailto:first.last@mail.example.co.uk");
    } else {
        panic!("Expected AutoLink, got {:?}", spans[0].kind);
    }
}

#[test]
fn bare_email_with_plus_tag() {
    let spans = get_spans("user+tag@domain.com");
    assert_eq!(spans.len(), 1);
    if let InlineKind::AutoLink { url } = &spans[0].kind {
        assert_eq!(url, "mailto:user+tag@domain.com");
    } else {
        panic!("Expected AutoLink, got {:?}", spans[0].kind);
    }
}

#[test]
fn bare_email_strips_trailing_period() {
    let spans = get_spans("email me at rene@embernotes.app.");
    assert_eq!(spans.len(), 1);
    if let InlineKind::AutoLink { url } = &spans[0].kind {
        assert_eq!(url, "mailto:rene@embernotes.app");
    } else {
        panic!("Expected AutoLink, got {:?}", spans[0].kind);
    }
}

#[test]
fn bare_email_trims_leading_dots() {
    let spans = get_spans(".foo@example.com");
    assert_eq!(spans.len(), 1);
    if let InlineKind::AutoLink { url } = &spans[0].kind {
        assert_eq!(url, "mailto:foo@example.com");
    } else {
        panic!("Expected AutoLink, got {:?}", spans[0].kind);
    }
}

#[test]
fn bare_email_rejects_trailing_dot_in_local() {
    let spans = get_spans("foo.@example.com");
    assert!(spans.is_empty(), "Expected no spans, got {:?}", spans);
}

#[test]
fn bare_email_rejects_one_letter_tld() {
    let spans = get_spans("user@domain.x");
    assert!(spans.is_empty(), "Single-letter TLD should not match");
}

#[test]
fn bare_email_rejects_empty_local() {
    let spans = get_spans("@example.com is not an email");
    assert!(spans.is_empty(), "Empty local part should not match");
}

#[test]
fn bare_email_in_parens() {
    let spans = get_spans("(contact rene@embernotes.app)");
    assert_eq!(spans.len(), 1);
    if let InlineKind::AutoLink { url } = &spans[0].kind {
        assert_eq!(url, "mailto:rene@embernotes.app");
    } else {
        panic!("Expected AutoLink, got {:?}", spans[0].kind);
    }
}

#[test]
fn bare_email_at_line_start() {
    let spans = get_spans("rene@embernotes.app is the best email");
    assert_eq!(spans.len(), 1);
    if let InlineKind::AutoLink { url } = &spans[0].kind {
        assert_eq!(url, "mailto:rene@embernotes.app");
    } else {
        panic!("Expected AutoLink, got {:?}", spans[0].kind);
    }
}

#[test]
fn bare_email_claims_domain_before_scheme_url_scan() {
    // Regression: `user@example.com` must be claimed as a single email
    // range so `example.com` is not ALSO matched as a bare domain URL.
    let spans = get_spans("Reach rene@embernotes.app now");
    assert_eq!(spans.len(), 1, "Expected exactly 1 span, got {:?}", spans);
    if let InlineKind::AutoLink { url } = &spans[0].kind {
        assert_eq!(url, "mailto:rene@embernotes.app");
    } else {
        panic!("Expected AutoLink, got {:?}", spans[0].kind);
    }
}

#[test]
fn bare_email_alongside_bare_url() {
    let spans = get_spans("Visit https://embernotes.app or email rene@embernotes.app today");
    assert_eq!(spans.len(), 2, "Expected 2 spans, got {:?}", spans);
}

#[test]
fn bare_email_escaped_at_sign_ignored() {
    let spans = get_spans("use foo\\@bar.com literally");
    assert!(spans.is_empty(), "Escaped @ should not match");
}

#[test]
fn bare_email_inside_markdown_link_ignored() {
    let spans = get_spans("[write me](mailto:rene@embernotes.app)");
    assert_eq!(spans.len(), 1);
    assert!(matches!(spans[0].kind, InlineKind::Link { .. }));
}

// MARK: - Backslash escapes (CommonMark §6.1)

#[test]
fn escaped_asterisk_no_emphasis() {
    // \*not italic\* — escaped asterisks must not open/close emphasis.
    let spans = get_spans(r"\*not italic\*");
    assert!(
        spans.is_empty(),
        "Escaped asterisks should produce no emphasis span, got: {:?}",
        spans
    );
}

#[test]
fn escaped_first_asterisk_then_unescaped_pair_emphasizes() {
    // `\**foo\**` — first `*` escaped, second unescaped opens italic.
    // Closer pair at end: `\` escapes its `*`, but the following `*` opens/closes
    // unescaped. This matches CommonMark — only the immediately-preceded char is escaped.
    let spans = get_spans(r"\**foo\**");
    let emph: Vec<_> = spans
        .iter()
        .filter(|s| {
            matches!(
                s.kind,
                InlineKind::Bold | InlineKind::Italic | InlineKind::BoldItalic
            )
        })
        .collect();
    assert_eq!(
        emph.len(),
        1,
        "Unescaped *s should still pair, got: {:?}",
        spans
    );
    assert!(matches!(emph[0].kind, InlineKind::Italic));
}

#[test]
fn fully_escaped_double_asterisk_no_bold() {
    // `\*\*not bold\*\*` — every asterisk individually escaped → no emphasis at all.
    let spans = get_spans(r"\*\*not bold\*\*");
    let emph: Vec<_> = spans
        .iter()
        .filter(|s| {
            matches!(
                s.kind,
                InlineKind::Bold | InlineKind::Italic | InlineKind::BoldItalic
            )
        })
        .collect();
    assert!(
        emph.is_empty(),
        "All-escaped *s should not bold, got: {:?}",
        spans
    );
}

#[test]
fn double_backslash_then_asterisk_still_emphasizes() {
    // `\\*foo*` — `\\` is literal backslash, then `*foo*` is normal italic.
    let spans = get_spans(r"\\*foo*");
    assert_eq!(
        spans.len(),
        1,
        "Even backslash run leaves * unescaped, got: {:?}",
        spans
    );
    assert!(matches!(spans[0].kind, InlineKind::Italic));
}

#[test]
fn escaped_backtick_no_code() {
    let spans = get_spans(r"text \`code\` more");
    assert!(
        spans.is_empty(),
        "Escaped backticks should not create code, got: {:?}",
        spans
    );
}

#[test]
fn escaped_bracket_no_link() {
    let spans = get_spans(r"text \[click](url) more");
    assert!(
        spans.is_empty(),
        "Escaped [ should not start a link, got: {:?}",
        spans
    );
}

#[test]
fn escaped_double_bracket_no_wiki_link() {
    let spans = get_spans(r"text \[[Note]] more");
    let wiki: Vec<_> = spans
        .iter()
        .filter(|s| matches!(s.kind, InlineKind::WikiLink))
        .collect();
    assert!(
        wiki.is_empty(),
        "Escaped [[ should not create wiki link, got: {:?}",
        spans
    );
}

#[test]
fn escaped_tilde_no_strikethrough() {
    let spans = get_spans(r"text \~~not strike\~~ more");
    let strike: Vec<_> = spans
        .iter()
        .filter(|s| matches!(s.kind, InlineKind::Strikethrough))
        .collect();
    assert!(
        strike.is_empty(),
        "Escaped ~~ should not strike, got: {:?}",
        spans
    );
}

#[test]
fn escaped_single_tilde_no_underline() {
    let spans = get_spans(r"text \~not underlined\~ more");
    let und: Vec<_> = spans
        .iter()
        .filter(|s| matches!(s.kind, InlineKind::UnderlineTilde))
        .collect();
    assert!(
        und.is_empty(),
        "Escaped ~ should not underline, got: {:?}",
        spans
    );
}

#[test]
fn escaped_equals_no_highlight() {
    let spans = get_spans(r"text \==not highlight\== more");
    let hi: Vec<_> = spans
        .iter()
        .filter(|s| {
            matches!(
                s.kind,
                InlineKind::Highlight | InlineKind::HighlightColor(_)
            )
        })
        .collect();
    assert!(
        hi.is_empty(),
        "Escaped == should not highlight, got: {:?}",
        spans
    );
}

#[test]
fn escaped_html_underline_open() {
    let spans = get_spans(r"text \<u>nope</u> more");
    let und: Vec<_> = spans
        .iter()
        .filter(|s| matches!(s.kind, InlineKind::UnderlineHtml))
        .collect();
    assert!(
        und.is_empty(),
        "Escaped <u> should not underline, got: {:?}",
        spans
    );
}

#[test]
fn escaped_footnote_ref() {
    let spans = get_spans(r"text \[^1] more");
    let fn_refs: Vec<_> = spans
        .iter()
        .filter(|s| matches!(s.kind, InlineKind::FootnoteRef))
        .collect();
    assert!(
        fn_refs.is_empty(),
        "Escaped [^ should not create footnote ref, got: {:?}",
        spans
    );
}

#[test]
fn unescaped_emphasis_still_works_after_escape() {
    // \* literal then *real* italic
    let spans = get_spans(r"\* literal then *italic*");
    assert_eq!(spans.len(), 1);
    assert!(matches!(spans[0].kind, InlineKind::Italic));
}

#[test]
fn escaped_asterisk_inside_unescaped_emphasis() {
    // *foo \* bar* — the inner \* should be literal but the outer * pair forms italic.
    let spans = get_spans(r"*foo \* bar*");
    // The opening * (pos 0) is unescaped; the * at pos 5 is escaped (literal);
    // the closing * (pos 11) is unescaped → italic spans 0..12.
    let italics: Vec<_> = spans
        .iter()
        .filter(|s| matches!(s.kind, InlineKind::Italic))
        .collect();
    assert_eq!(
        italics.len(),
        1,
        "Outer italic should still match, got: {:?}",
        spans
    );
}

#[test]
fn three_backslashes_then_asterisk_escapes() {
    // `\\\*` — \\ is literal `\`, then \* is escaped `*`. Total: literal `\*`.
    let spans = get_spans(r"\\\*not italic\\\*");
    assert!(
        spans.is_empty(),
        "Odd backslash run escapes the *, got: {:?}",
        spans
    );
}
