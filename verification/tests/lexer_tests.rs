use cindermark::lexer::{Lexer, Token, TokenKind};

fn tokenize(input: &str) -> Vec<Token> {
    let mut lexer = Lexer::new(input.as_bytes());
    lexer.tokenize();
    lexer.tokens
}

#[allow(dead_code)]
fn kinds(tokens: &[Token]) -> Vec<&TokenKind> {
    tokens.iter().map(|t| &t.kind).collect()
}

#[test]
fn heading_h1() {
    let tokens = tokenize("# Hello\n");
    assert!(matches!(tokens[0].kind, TokenKind::HeadingMarker(1)));
    assert!(matches!(tokens[1].kind, TokenKind::Text));
    assert!(matches!(tokens[2].kind, TokenKind::Newline));
}

#[test]
fn heading_h3() {
    let tokens = tokenize("### Title\n");
    assert!(matches!(tokens[0].kind, TokenKind::HeadingMarker(3)));
}

#[test]
fn heading_no_space() {
    let tokens = tokenize("#NoSpace\n");
    // Should NOT produce a heading marker
    assert!(!matches!(tokens[0].kind, TokenKind::HeadingMarker(_)));
}

#[test]
fn code_fence() {
    let tokens = tokenize("```rust\ncode\n```\n");
    assert!(matches!(tokens[0].kind, TokenKind::CodeFence(3)));
    assert!(matches!(tokens[1].kind, TokenKind::CodeFenceLanguage));
}

#[test]
fn lexer_checkbox_unchecked() {
    let tokens = tokenize("- [ ] task\n");
    assert!(matches!(tokens[0].kind, TokenKind::CheckboxMarker(false)));
}

#[test]
fn lexer_checkbox_checked() {
    let tokens = tokenize("- [x] done\n");
    assert!(matches!(tokens[0].kind, TokenKind::CheckboxMarker(true)));
}

#[test]
fn bullet_list() {
    let tokens = tokenize("- item\n");
    assert!(matches!(tokens[0].kind, TokenKind::BulletMarker));
}

#[test]
fn lexer_ordered_list() {
    let tokens = tokenize("1. first\n");
    assert!(matches!(tokens[0].kind, TokenKind::OrderedMarker(1)));
}

#[test]
fn ordered_list_42() {
    let tokens = tokenize("42. forty-two\n");
    assert!(matches!(tokens[0].kind, TokenKind::OrderedMarker(42)));
}

#[test]
fn horizontal_rule() {
    let tokens = tokenize("---\n");
    assert!(matches!(tokens[0].kind, TokenKind::HorizontalRule));
}

#[test]
fn horizontal_rule_stars() {
    let tokens = tokenize("***\n");
    assert!(matches!(tokens[0].kind, TokenKind::HorizontalRule));
}

#[test]
fn blockquote() {
    let tokens = tokenize("> text\n");
    assert!(matches!(tokens[0].kind, TokenKind::BlockquoteMarker));
}

#[test]
fn inline_bold() {
    let tokens = tokenize("hello **world**\n");
    // Text, Asterisks(2), Text, Asterisks(2), Newline
    assert!(matches!(tokens[1].kind, TokenKind::Asterisks(2)));
    assert!(matches!(tokens[3].kind, TokenKind::Asterisks(2)));
}

#[test]
fn lexer_wiki_link() {
    let tokens = tokenize("see [[Note Title]] here\n");
    let has_double_open = tokens
        .iter()
        .any(|t| matches!(t.kind, TokenKind::DoubleOpenBracket));
    let has_double_close = tokens
        .iter()
        .any(|t| matches!(t.kind, TokenKind::DoubleCloseBracket));
    assert!(has_double_open);
    assert!(has_double_close);
}

#[test]
fn table_pipes() {
    let tokens = tokenize("| a | b |\n");
    let pipe_count = tokens
        .iter()
        .filter(|t| matches!(t.kind, TokenKind::TablePipe))
        .count();
    assert!(pipe_count >= 3); // at least 3 pipes in "| a | b |"
}

#[test]
fn lexer_footnote_def() {
    let tokens = tokenize("[^1]: Some text\n");
    assert!(matches!(tokens[0].kind, TokenKind::FootnoteDefMarker));
}

fn tokenize_with_scheme(input: &str, scheme: &str) -> Vec<Token> {
    let mut lexer = Lexer::with_image_marker_scheme(input.as_bytes(), Some(scheme));
    lexer.tokenize();
    lexer.tokens
}

#[test]
fn image_marker() {
    let tokens = tokenize_with_scheme("![](ember:abc-123)\n", "ember:");
    assert!(matches!(tokens[0].kind, TokenKind::ImageMarker));
}

#[test]
fn image_marker_custom_scheme() {
    let tokens = tokenize_with_scheme("![](cinder:abc-123)\n", "cinder:");
    assert!(matches!(tokens[0].kind, TokenKind::ImageMarker));
}

#[test]
fn image_marker_disabled_by_default() {
    let tokens = tokenize("![](ember:abc-123)\n");
    assert!(!tokens
        .iter()
        .any(|t| matches!(t.kind, TokenKind::ImageMarker)));
}

#[test]
fn lexer_html_underline() {
    let tokens = tokenize("<u>text</u>\n");
    assert!(matches!(tokens[0].kind, TokenKind::HtmlUnderlineOpen));
    let has_close = tokens
        .iter()
        .any(|t| matches!(t.kind, TokenKind::HtmlUnderlineClose));
    assert!(has_close);
}

#[test]
fn color_emoji_highlight() {
    let tokens = tokenize("==🟢green==\n");
    assert!(matches!(tokens[0].kind, TokenKind::DoubleEquals));
    assert!(matches!(tokens[1].kind, TokenKind::ColorEmojiPrefix(3))); // green = 3
}
