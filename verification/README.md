# cindermark

An incremental Markdown parser for native text editors, verified with Verus.
Blocks and inline spans carry UTF-16 ranges; after an edit only the blocks
around it are parsed again and the others are shifted.

## Layout

- `src/` — the verified library.
  - `lines.rs`, `text.rs`, `utf16.rs`: line splitting, byte helpers, the
    UTF-8 → UTF-16 offset map.
  - `block_rules.rs`: which block each line starts, stated over the source
    bytes; `parser.rs` proves that every parse follows these rules.
  - `inline.rs`, `lexer.rs`, `html.rs`: inline spans, the token scanner,
    HTML block boundaries.
  - `incremental.rs`: dirty-block detection, partial re-parse, offset shifts.
  - `ffi.rs`, `preview.rs`, `resources.rs`, `json.rs`: the flat result types,
    document statistics, plain-text previews, resource references and JSON
    summaries.
- `tests/` — executable tests of the library.
- `app/` — a thread-safe facade for foreign-function bindings.

## Main guarantees

- Every parse lays its blocks over the source lines as the rules in
  `block_rules.rs` say, with the text each block carries; two parses of the
  same text have the same block boundaries, byte and UTF-16 ranges, rules
  and list-marker presence (`lemma_parse_unique`).
- A list marker indented up to column 32 (tabs to the next multiple of 4)
  starts a list item, never indented code.
- The inline spans of a text are those of the scanners in priority order,
  each kept off the ranges claimed before it, stably sorted by start
  (`inline_spans_are`).
- In editable mode the blocks tile the source, in lines and in bytes, with
  one line per newline and one more for a last line without one
  (`lemma_editable_layout`).
- The lexer's tokens are exactly those of its line and inline rules
  (`Lexer::lex_lines`), followed by one `Eof` token.
- UTF-16 offsets map back to the byte offsets they came from, on every
  character boundary of valid UTF-8 (`lemma_utf16_roundtrip_boundary`).
- An incremental update is either a full parse or keeps the blocks outside
  the dirty range, shifted (list markers included), around a parse of the
  dirty lines; it falls back to a full parse next to code blocks, diagrams,
  tables and fences. Without a snapshot (after `reset_state`) it is a full
  parse (`lemma_no_snapshot_full_parse`). When the re-parsed window takes
  in every old block and reaches the end of the new text, the update is the
  full editable parse of the new text (`lemma_whole_window_update_is_parse`);
  that every update equals the full parse is checked by tests, not proved.
- Preview spans are never empty and end at most at the preview's limit
  (`lemma_preview_spans_bounded`).
- The library computes the reading time in exact integer arithmetic; the
  facade in `app/` reports the hosts' floating-point value.
- Toggling a checkbox twice gives the text back, unless it was checked
  with an upper-case `X` (`lemma_toggle_twice` on bytes,
  `lemma_toggle_text_twice` on text).
- No function of the library panics or overflows.
