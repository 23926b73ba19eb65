//! Byte scanner producing a token stream.
//!
//! The lexer operates in two modes per line:
//! 1. Line-start mode: attempts to match block-level markers (headings,
//!    lists, code fences, ...). If one matches, the rest of the line is
//!    scanned in inline mode.
//! 2. Inline mode: emits delimiter tokens for inline formatting and text runs.
use vstd::prelude::*;
use crate::text::{digit, parse_u32_or_one, is_digit, str_from_range, decimal_value};
use vstd::string::StringSliceAdditionalSpecFns;
use vstd::utf8::valid_utf8;
use crate::utf16::MAX_SOURCE_LEN;

verus! {

/// A token produced by the lexer.
#[derive(Debug, Clone, PartialEq)]
pub struct Token {
    pub kind: TokenKind,
    /// Byte offset in source where this token starts.
    pub byte_start: u32,
    /// Byte length of this token.
    pub byte_len: u32,
}

/// Token kinds produced by the lexer.
#[derive(Debug, Clone, PartialEq)]
pub enum TokenKind {
    HeadingMarker(u8),
    CodeFence(u8),
    CodeFenceLanguage,
    BlockquoteMarker,
    BulletMarker,
    OrderedMarker(u32),
    CheckboxMarker(bool),
    HorizontalRule,
    TablePipe,
    FootnoteDefMarker,
    ImageMarker,
    Asterisks(u8),
    Tildes(u8),
    Backtick,
    DoubleEquals,
    OpenBracket,
    CloseBracket,
    OpenParen,
    CloseParen,
    DoubleOpenBracket,
    DoubleCloseBracket,
    FootnoteRefOpen,
    HtmlUnderlineOpen,
    HtmlUnderlineClose,
    /// Color emoji after `==`: 0=red, 1=orange, 2=yellow, 3=green, 4=blue, 5=purple.
    ColorEmojiPrefix(u8),
    Text,
    Newline,
    Eof,
}

/// End offset of a token.
pub open spec fn tok_end(t: Token) -> int {
    t.byte_start + t.byte_len
}

/// Tokens appear in source order without overlapping, inside `[0, len]`.
pub open spec fn tokens_ordered(ts: Seq<Token>, len: int) -> bool {
    &&& forall|k: int| 0 <= k < ts.len() ==> tok_end(#[trigger] ts[k]) <= len
    &&& forall|k: int| 0 <= k < ts.len() - 1 ==> tok_end(#[trigger] ts[k]) <= ts[k + 1].byte_start
}

/// Every byte of `s[a..z]` is `c`.
pub open spec fn all_of(s: Seq<u8>, a: int, z: int, c: u8) -> bool {
    forall|j: int| a <= j < z ==> #[trigger] s[j] == c
}

/// The bytes of token `t` in `s` are what its kind says.
pub open spec fn token_sound(s: Seq<u8>, t: Token) -> bool {
    let a = t.byte_start as int;
    let n = t.byte_len as int;
    match t.kind {
        TokenKind::HeadingMarker(l) => 1 <= l <= 6 && n == l + 1 && all_of(s, a, a + l, 35u8)
            && s[a + l] == 32u8,
        TokenKind::CodeFence(c) => n >= 3 && c == n % 256 && all_of(s, a, a + n, 96u8),
        TokenKind::CodeFenceLanguage => n >= 1 && s[a + n - 1] != 32u8,
        TokenKind::BlockquoteMarker => s[a] == 62u8 && (n == 1 || (n == 2 && s[a + 1] == 32u8)),
        TokenKind::BulletMarker => n == 2 && (s[a] == 45u8 || s[a] == 42u8 || s[a] == 43u8) && s[a
            + 1] == 32u8,
        TokenKind::OrderedMarker(v) => n >= 3 && (forall|j: int|
            a <= j < a + n - 2 ==> is_digit(#[trigger] s[j])) && s[a + n - 2] == 46u8 && s[a + n
            - 1] == 32u8 && v == (if decimal_value(s, a, a + n - 2) <= u32::MAX {
            decimal_value(s, a, a + n - 2)
        } else {
            1
        }),
        TokenKind::CheckboxMarker(c) => n == 6 && s[a] == 45u8 && s[a + 1] == 32u8 && s[a + 2]
            == 91u8 && s[a + 4] == 93u8 && s[a + 5] == 32u8 && (if c {
            s[a + 3] == 120u8 || s[a + 3] == 88u8
        } else {
            s[a + 3] == 32u8
        }),
        TokenKind::HorizontalRule => n >= 3 && (s[a] == 45u8 || s[a] == 42u8 || s[a] == 95u8)
            && forall|j: int| a <= j < a + n ==> #[trigger] s[j] == s[a] || s[j] == 32u8,
        TokenKind::TablePipe => n == 1 && s[a] == 124u8,
        TokenKind::FootnoteDefMarker => n >= 5 && s[a] == 91u8 && s[a + 1] == 94u8,
        TokenKind::ImageMarker => n >= 5 && s[a] == 33u8 && s[a + 1] == 91u8 && s[a + 2] == 93u8
            && s[a + 3] == 40u8 && s[a + n - 1] == 41u8,
        TokenKind::Asterisks(c) => 1 <= c <= 3 && n == c && all_of(s, a, a + n, 42u8),
        TokenKind::Tildes(c) => 1 <= c <= 2 && n == c && all_of(s, a, a + n, 126u8),
        TokenKind::Backtick => n == 1 && s[a] == 96u8,
        TokenKind::DoubleEquals => n == 2 && s[a] == 61u8 && s[a + 1] == 61u8,
        TokenKind::OpenBracket => n == 1 && s[a] == 91u8,
        TokenKind::CloseBracket => n == 1 && s[a] == 93u8,
        TokenKind::OpenParen => n == 1 && s[a] == 40u8,
        TokenKind::CloseParen => n == 1 && s[a] == 41u8,
        TokenKind::DoubleOpenBracket => n == 2 && s[a] == 91u8 && s[a + 1] == 91u8,
        TokenKind::DoubleCloseBracket => n == 2 && s[a] == 93u8 && s[a + 1] == 93u8,
        TokenKind::FootnoteRefOpen => n == 2 && s[a] == 91u8 && s[a + 1] == 94u8,
        TokenKind::HtmlUnderlineOpen => n == 3 && s[a] == 60u8 && s[a + 1] == 117u8 && s[a + 2]
            == 62u8,
        TokenKind::HtmlUnderlineClose => n == 4 && s[a] == 60u8 && s[a + 1] == 47u8 && s[a + 2]
            == 117u8 && s[a + 3] == 62u8,
        TokenKind::ColorEmojiPrefix(c) => c < 6 && n == 4 && s[a] == 0xF0u8 && s[a + 1] == 0x9Fu8,
        TokenKind::Text => n >= 1,
        TokenKind::Newline => n == 1 && s[a] == 10u8,
        TokenKind::Eof => n == 0 && a == s.len(),
    }
}

/// Every token of `ts` is sound in `s`.
#[verifier::opaque]
pub open spec fn all_sound(s: Seq<u8>, ts: Seq<Token>) -> bool {
    forall|k: int| 0 <= k < ts.len() ==> token_sound(s, #[trigger] ts[k])
}

/// A sound token appended to sound tokens.
proof fn lemma_sound_push(s: Seq<u8>, ts: Seq<Token>, t: Token)
    requires
        all_sound(s, ts),
        token_sound(s, t),
    ensures
        all_sound(s, ts.push(t)),
{
    reveal(all_sound);
    assert forall|k: int| 0 <= k < ts.push(t).len() implies token_sound(s, #[trigger] ts.push(t)[k]) by {
        if k < ts.len() {
            assert(ts.push(t)[k] == ts[k]);
        }
    }
}

/// Byte `j` lies in one of the tokens.
pub open spec fn covered(ts: Seq<Token>, j: int) -> bool {
    exists|k: int| 0 <= k < ts.len() && (#[trigger] ts[k]).byte_start <= j < tok_end(ts[k])
}

/// Bytes that need not lie in a token: spaces, and the `*` past the third
/// and the `~` past the second of a run.
pub open spec fn byte_exempt(s: Seq<u8>, j: int) -> bool {
    ||| s[j] == 32u8
    ||| (s[j] == 42u8 && j >= 3 && s[j - 1] == 42u8 && s[j - 2] == 42u8 && s[j - 3] == 42u8)
    ||| (s[j] == 126u8 && j >= 2 && s[j - 1] == 126u8 && s[j - 2] == 126u8)
}

/// Every byte of `s[0..p]` that is not exempt lies in a token.
pub open spec fn covers(s: Seq<u8>, ts: Seq<Token>, p: int) -> bool {
    forall|j: int| 0 <= j < p && !byte_exempt(s, j) ==> #[trigger] covered(ts, j)
}

/// End of the last token (0 when there is none).
pub open spec fn last_end(ts: Seq<Token>) -> int {
    if ts.len() == 0 {
        0
    } else {
        tok_end(ts[ts.len() - 1])
    }
}

impl Token {
    fn new(kind: TokenKind, byte_start: u32, byte_len: u32) -> (t: Self)
        ensures
            t.kind == kind,
            t.byte_start == byte_start,
            t.byte_len == byte_len,
    {
        Self { kind, byte_start, byte_len }
    }
}

/// The lexer state machine.
pub struct Lexer<'a> {
    pub source: &'a [u8],
    pub pos: usize,
    /// URI-scheme prefix for `![](<scheme>...)` image markers, or `None`
    /// when the extension is disabled.
    pub image_marker_scheme: Option<&'a str>,
    /// Tokens produced by the lexer.
    pub tokens: Vec<Token>,
}

impl<'a> Lexer<'a> {
    /// The scanner state is consistent: the position is inside the source and
    /// every token lies before it, in order.
    pub closed spec fn inv(&self) -> bool {
        &&& self.source@.len() <= MAX_SOURCE_LEN
        &&& self.pos <= self.source@.len()
        &&& tokens_ordered(self.tokens@, self.source@.len() as int)
        &&& last_end(self.tokens@) <= self.pos
        &&& all_sound(self.source@, self.tokens@)
    }

    /// The source bytes.
    pub closed spec fn src(&self) -> Seq<u8> {
        self.source@
    }

    /// The scan position.
    pub closed spec fn position(&self) -> int {
        self.pos as int
    }

    pub fn new(source: &'a [u8]) -> (l: Self)
        requires
            source@.len() <= MAX_SOURCE_LEN,
        ensures
            l.inv(),
            l.src() == source@,
            l.position() == 0,
            l.tokens@.len() == 0,
    {
        Self::with_image_marker_scheme(source, None)
    }

    pub fn with_image_marker_scheme(source: &'a [u8], scheme: Option<&'a str>) -> (l: Self)
        requires
            source@.len() <= MAX_SOURCE_LEN,
        ensures
            l.inv(),
            l.src() == source@,
            l.position() == 0,
            l.tokens@.len() == 0,
    {
        let l = Self { source, pos: 0, image_marker_scheme: scheme, tokens: Vec::new() };
        proof {
            reveal(all_sound);
        }
        l
    }

    /// Append a token that starts at or after the end of the previous one.
    fn push(&mut self, kind: TokenKind, start: usize, len: usize)
        requires
            old(self).inv(),
            last_end(old(self).tokens@) <= start,
            start + len <= old(self).source@.len(),
            start + len <= old(self).pos,
            token_sound(old(self).source@, Token { kind, byte_start: start as u32, byte_len: len as u32 }),
            covers(old(self).source@, old(self).tokens@, start as int),
            forall|j: int|
                start <= j < old(self).pos && !byte_exempt(old(self).source@, j) ==> j < start + len,
        ensures
            covers(final(self).source@, final(self).tokens@, final(self).pos as int),
            final(self).inv(),
            final(self).source == old(self).source,
            final(self).pos == old(self).pos,
            final(self).image_marker_scheme == old(self).image_marker_scheme,
            final(self).tokens@ == old(self).tokens@.push(
                Token { kind, byte_start: start as u32, byte_len: len as u32 },
            ),
    {
        proof {
            let t = Token { kind, byte_start: start as u32, byte_len: len as u32 };
            let ts = self.tokens@.push(t);
            assert forall|j: int|
                0 <= j < self.pos && !byte_exempt(self.source@, j) implies #[trigger] covered(ts, j) by {
                if j < start {
                    assert(covered(self.tokens@, j));
                    let k = choose|k: int|
                        0 <= k < self.tokens@.len() && (#[trigger] self.tokens@[k]).byte_start <= j
                            < tok_end(self.tokens@[k]);
                    assert(ts[k] == self.tokens@[k]);
                } else {
                    assert(ts[ts.len() - 1] == t);
                }
            }
            lemma_sound_push(
                self.source@,
                self.tokens@,
                Token { kind, byte_start: start as u32, byte_len: len as u32 },
            );
        }
        self.tokens.push(Token::new(kind, start as u32, len as u32));
    }

    /// Tokenize the source from the scan position: the tokens of each line
    /// (`lex_lines`) are appended, then the one `Eof` token at the end of the
    /// source. Afterwards the tokens are in source order, do not overlap,
    /// carry the bytes their kinds name, and cover every byte other than
    /// spaces and the `*` (`~`) past the third (second) of a run.
    pub fn tokenize(&mut self)
        requires
            old(self).inv(),
            covers(old(self).src(), old(self).tokens@, old(self).position()),
        ensures
            final(self).inv(),
            final(self).src() == old(self).src(),
            final(self).position() == old(self).src().len(),
            final(self).tokens@ == old(self).tokens@ + Self::lex_lines(
                old(self).src(),
                Self::scheme_bytes(old(self).image_marker_scheme),
                old(self).position(),
            ).push(Self::tok(TokenKind::Eof, old(self).src().len() as int, 0)),
            forall|k: int|
                old(self).tokens@.len() <= k < final(self).tokens@.len() - 1
                    ==> (#[trigger] final(self).tokens@[k]).kind != TokenKind::Eof,
            tokens_ordered(final(self).tokens@, old(self).src().len() as int),
            all_sound(old(self).src(), final(self).tokens@),
            covers(old(self).src(), final(self).tokens@, old(self).src().len() as int),
    {
        let ghost sch = Self::scheme_bytes(self.image_marker_scheme);
        let ghost s = self.source@;
        while self.pos < self.source.len()
            invariant
                self.inv(),
                self.source == old(self).source,
                self.image_marker_scheme == old(self).image_marker_scheme,
                sch == Self::scheme_bytes(self.image_marker_scheme),
                s == self.source@,
                old(self).pos <= self.pos,
                covers(self.source@, self.tokens@, self.pos as int),
                self.tokens@ + Self::lex_lines(s, sch, self.pos as int) == old(self).tokens@
                    + Self::lex_lines(s, sch, old(self).pos as int),
            decreases self.source@.len() - self.pos,
        {
            let ghost p0 = self.pos as int;
            let ghost t0 = self.tokens@;
            self.scan_line();
            proof {
                let lt = Self::line_tokens(s, sch, p0);
                assert(Self::lex_lines(s, sch, p0) == lt.0 + Self::lex_lines(s, sch, lt.1));
                assert(t0 + (lt.0 + Self::lex_lines(s, sch, lt.1)) == (t0 + lt.0) + Self::lex_lines(s, sch, lt.1));
            }
        }
        proof {
            assert(Self::lex_lines(s, sch, self.pos as int) == Seq::<Token>::empty());
            assert(self.tokens@ == self.tokens@ + Seq::<Token>::empty());
            Self::lemma_lex_lines_no_eof(s, sch, old(self).pos as int);
        }
        self.push_eof();
        proof {
            let ll = Self::lex_lines(s, sch, old(self).pos as int);
            assert forall|k: int|
                old(self).tokens@.len() <= k < self.tokens@.len() - 1 implies (#[trigger] self.tokens@[k]).kind
                    != TokenKind::Eof by {
                assert(self.tokens@[k] == ll[k - old(self).tokens@.len()]);
            }
        }
    }

    /// Append the `Eof` token at the end of the source.
    fn push_eof(&mut self)
        requires
            old(self).inv(),
            old(self).pos == old(self).source@.len(),
            covers(old(self).source@, old(self).tokens@, old(self).pos as int),
        ensures
            final(self).inv(),
            final(self).source == old(self).source,
            final(self).pos == old(self).pos,
            final(self).image_marker_scheme == old(self).image_marker_scheme,
            final(self).tokens@ == old(self).tokens@.push(
                Token { kind: TokenKind::Eof, byte_start: old(self).pos as u32, byte_len: 0 },
            ),
            tokens_ordered(final(self).tokens@, final(self).source@.len() as int),
            all_sound(final(self).source@, final(self).tokens@),
            covers(final(self).source@, final(self).tokens@, final(self).source@.len() as int),
    {
        let p = self.pos;
        let t = Token::new(TokenKind::Eof, p as u32, 0);
        proof {
            let ts = self.tokens@.push(t);
            lemma_sound_push(self.source@, self.tokens@, t);
            assert forall|j: int| 0 <= j < self.source@.len() && !byte_exempt(self.source@, j) implies #[trigger] covered(
                ts,
                j,
            ) by {
                assert(covered(self.tokens@, j));
                let k = choose|k: int|
                    0 <= k < self.tokens@.len() && (#[trigger] self.tokens@[k]).byte_start <= j < tok_end(
                        self.tokens@[k],
                    );
                assert(ts[k] == self.tokens@[k]);
            }
            assert forall|k: int| 0 <= k < ts.len() - 1 implies tok_end(#[trigger] ts[k]) <= ts[k + 1].byte_start by {
                if k < self.tokens@.len() - 1 {
                    assert(ts[k] == self.tokens@[k] && ts[k + 1] == self.tokens@[k + 1]);
                } else {
                    assert(ts[k] == self.tokens@[k]);
                }
            }
            assert forall|k: int| 0 <= k < ts.len() implies tok_end(#[trigger] ts[k]) <= self.source@.len() by {
                if k < self.tokens@.len() {
                    assert(ts[k] == self.tokens@[k]);
                }
            }
        }
        self.tokens.push(t);
    }

    /// The image-marker scheme as bytes.
    pub open spec fn scheme_bytes(o: Option<&str>) -> Option<Seq<u8>> {
        match o {
            Some(x) => Some(x.spec_bytes()),
            None => None,
        }
    }

    /// No token of `ts` is `Eof`.
    pub open spec fn no_eof(ts: Seq<Token>) -> bool {
        forall|k: int| 0 <= k < ts.len() ==> (#[trigger] ts[k]).kind != TokenKind::Eof
    }

    proof fn lemma_no_eof_add(a: Seq<Token>, b: Seq<Token>)
        requires
            Self::no_eof(a),
            Self::no_eof(b),
        ensures
            Self::no_eof(a + b),
    {
        assert forall|k: int| 0 <= k < (a + b).len() implies (#[trigger] (a + b)[k]).kind != TokenKind::Eof by {
            if k < a.len() {
                assert((a + b)[k] == a[k]);
            } else {
                assert((a + b)[k] == b[k - a.len()]);
            }
        }
    }

    proof fn lemma_inline_tok_no_eof(s: Seq<u8>, p: int)
        ensures
            Self::no_eof(Self::inline_tok(s, p).0),
    {
        reveal(Lexer::inline_tok);
    }

    proof fn lemma_inline_rest_no_eof(s: Seq<u8>, q: int)
        ensures
            Self::no_eof(Self::inline_rest(s, q).0),
        decreases s.len() - q,
    {
        if 0 <= q < s.len() && s[q] != 10u8 {
            let t = Self::inline_tok(s, q);
            Self::lemma_inline_tok_no_eof(s, q);
            if q < t.1 <= s.len() {
                Self::lemma_inline_rest_no_eof(s, t.1);
                Self::lemma_no_eof_add(t.0, Self::inline_rest(s, t.1).0);
            }
        }
    }

    proof fn lemma_line_tokens_no_eof(s: Seq<u8>, sch: Option<Seq<u8>>, p: int)
        ensures
            Self::no_eof(Self::line_tokens(s, sch, p).0),
    {
        let q = crate::lines::run_end(s, p, s.len() as int, 32u8);
        Self::lemma_inline_rest_no_eof(s, q);
        if q < s.len() && s[q] != 10u8 && q - p < 4 && Self::line_marker(s, sch, q) is Some {
            let m = Self::line_marker(s, sch, q)->0;
            assert(Self::no_eof(m.0));
            Self::lemma_inline_rest_no_eof(s, m.1);
            Self::lemma_no_eof_add(m.0, Self::inline_rest(s, m.1).0);
        }
    }

    /// The lines scanned from `p` give no `Eof` token.
    pub proof fn lemma_lex_lines_no_eof(s: Seq<u8>, sch: Option<Seq<u8>>, p: int)
        ensures
            Self::no_eof(Self::lex_lines(s, sch, p)),
        decreases s.len() - p,
    {
        if 0 <= p < s.len() {
            let t = Self::line_tokens(s, sch, p);
            Self::lemma_line_tokens_no_eof(s, sch, p);
            if p < t.1 <= s.len() {
                Self::lemma_lex_lines_no_eof(s, sch, t.1);
                Self::lemma_no_eof_add(t.0, Self::lex_lines(s, sch, t.1));
            }
        }
    }

    /// The first newline at or after `p`, or the end.
    pub open spec fn line_end_at(s: Seq<u8>, p: int) -> int
        decreases s.len() - p,
    {
        if p < 0 || p >= s.len() || s[p] == 10u8 {
            p
        } else {
            Self::line_end_at(s, p + 1)
        }
    }

    pub proof fn lemma_line_end_at(s: Seq<u8>, p: int)
        requires
            0 <= p,
        ensures
            p <= Self::line_end_at(s, p),
            p <= s.len() ==> Self::line_end_at(s, p) <= s.len(),
        decreases s.len() - p,
    {
        if p < s.len() && s[p] != 10u8 {
            Self::lemma_line_end_at(s, p + 1);
        }
    }

    /// `e` moved back over spaces, not below `a`.
    pub open spec fn rtrim_at(s: Seq<u8>, a: int, e: int) -> int
        decreases e - a,
    {
        if e > a && s[e - 1] == 32u8 {
            Self::rtrim_at(s, a, e - 1)
        } else {
            e
        }
    }

    /// The first `c1` or `c2` at or after `p`, or the end.
    pub open spec fn stop_at(s: Seq<u8>, p: int, c1: u8, c2: u8) -> int
        decreases s.len() - p,
    {
        if p < 0 || p >= s.len() || s[p] == c1 || s[p] == c2 {
            p
        } else {
            Self::stop_at(s, p + 1, c1, c2)
        }
    }

    /// How many bytes of `s[a..e]` are `c`.
    pub open spec fn count_of(s: Seq<u8>, a: int, e: int, c: u8) -> int
        decreases e - a,
    {
        if e <= a {
            0
        } else {
            Self::count_of(s, a, e - 1, c) + (if s[e - 1] == c { 1int } else { 0int })
        }
    }

    /// An ATX heading marker at `q`: 1 to 6 `#` and a space.
    pub open spec fn heading_at(s: Seq<u8>, q: int) -> Option<(Seq<Token>, int)> {
        let e = crate::lines::run_end(s, q, s.len() as int, 35u8);
        if 0 <= q < s.len() && s[q] == 35u8 && e - q <= 6 && e < s.len() && s[e] == 32u8 {
            Some((seq![Self::tok(TokenKind::HeadingMarker((e - q) as u8), q, e - q + 1)], e + 1))
        } else {
            None
        }
    }

    /// A code fence at `q`: three or more backticks (the count modulo 256 in
    /// the token), then the rest of the line, right-trimmed, as its language
    /// when not empty; the scan goes on at the line's newline.
    pub open spec fn fence_at(s: Seq<u8>, q: int) -> Option<(Seq<Token>, int)> {
        let e = crate::lines::run_end(s, q, s.len() as int, 96u8);
        if 0 <= q < s.len() && s[q] == 96u8 && e - q >= 3 {
            let le = Self::line_end_at(s, e);
            let tr = Self::rtrim_at(s, e, le);
            let ft = Self::tok(TokenKind::CodeFence(((e - q) % 256) as u8), q, e - q);
            if tr > e {
                Some((seq![ft, Self::tok(TokenKind::CodeFenceLanguage, e, tr - e)], le))
            } else {
                Some((seq![ft], le))
            }
        } else {
            None
        }
    }

    /// A checkbox marker at `q`: `- [ ] `, `- [x] ` or `- [X] `.
    pub open spec fn checkbox_at(s: Seq<u8>, q: int) -> Option<(Seq<Token>, int)> {
        if 0 <= q && s.len() - q >= 6 && s[q] == 45u8 && s[q + 1] == 32u8 && s[q + 2] == 91u8 && s[q
            + 4] == 93u8 && s[q + 5] == 32u8 && (s[q + 3] == 32u8 || s[q + 3] == 120u8 || s[q + 3]
            == 88u8) {
            Some((seq![Self::tok(TokenKind::CheckboxMarker(s[q + 3] != 32u8), q, 6)], q + 6))
        } else {
            None
        }
    }

    /// A bullet marker at `q`: `-`, `*` or `+` and a space.
    pub open spec fn bullet_at(s: Seq<u8>, q: int) -> Option<(Seq<Token>, int)> {
        if 0 <= q && q + 1 < s.len() && (s[q] == 45u8 || s[q] == 42u8 || s[q] == 43u8) && s[q + 1]
            == 32u8 {
            Some((seq![Self::tok(TokenKind::BulletMarker, q, 2)], q + 2))
        } else {
            None
        }
    }

    /// An ordered marker at `q`: digits, `.` and a space; the number is the
    /// digits' value, or 1 when it does not fit in a `u32`.
    pub open spec fn ordered_at(s: Seq<u8>, q: int) -> Option<(Seq<Token>, int)> {
        let e = crate::lines::digits_end(s, q, s.len() as int);
        let v = decimal_value(s, q, e);
        if 0 <= q && e > q && e + 1 < s.len() && s[e] == 46u8 && s[e + 1] == 32u8 {
            Some(
                (
                    seq![
                        Self::tok(
                            TokenKind::OrderedMarker(if v <= u32::MAX { v as u32 } else { 1u32 }),
                            q,
                            e + 2 - q,
                        ),
                    ],
                    e + 2,
                ),
            )
        } else {
            None
        }
    }

    /// A thematic break at `q`: the rest of the line holds only `-`, `*` or
    /// `_` (the byte at `q`) and spaces, at least three of the byte (exactly
    /// three for `*`).
    pub open spec fn rule_at(s: Seq<u8>, q: int) -> Option<(Seq<Token>, int)> {
        let le = Self::line_end_at(s, q);
        if 0 <= q < s.len() && (s[q] == 45u8 || s[q] == 42u8 || s[q] == 95u8) && (forall|j: int|
            q <= j < le ==> #[trigger] s[j] == s[q] || s[j] == 32u8) && Self::count_of(s, q, le, s[q])
            >= 3 && (s[q] != 42u8 || Self::count_of(s, q, le, s[q]) == 3) {
            Some((seq![Self::tok(TokenKind::HorizontalRule, q, le - q)], le))
        } else {
            None
        }
    }

    /// A quote marker at `q`: `> `, or `>` at the end of the line.
    pub open spec fn quote_at(s: Seq<u8>, q: int) -> Option<(Seq<Token>, int)> {
        if 0 <= q < s.len() && s[q] == 62u8 {
            if q + 1 < s.len() && s[q + 1] == 32u8 {
                Some((seq![Self::tok(TokenKind::BlockquoteMarker, q, 2)], q + 2))
            } else if q + 1 >= s.len() || s[q + 1] == 10u8 {
                Some((seq![Self::tok(TokenKind::BlockquoteMarker, q, 1)], q + 1))
            } else {
                None
            }
        } else {
            None
        }
    }

    /// A footnote definition marker at `q`: `[^`, a nonempty label up to
    /// `]` on the line, `:` and an optional space.
    pub open spec fn footnote_at(s: Seq<u8>, q: int) -> Option<(Seq<Token>, int)> {
        let p = Self::stop_at(s, q + 2, 93u8, 10u8);
        if 0 <= q && s.len() - q >= 4 && s[q] == 91u8 && s[q + 1] == 94u8 && p < s.len() && s[p]
            == 93u8 && p + 1 < s.len() && s[p + 1] == 58u8 && p > q + 2 {
            let e = if p + 2 < s.len() && s[p + 2] == 32u8 { p + 3 } else { p + 2 };
            Some((seq![Self::tok(TokenKind::FootnoteDefMarker, q, e - q)], e))
        } else {
            None
        }
    }

    /// An image marker at `q` (when the extension is on): `![](`, the
    /// scheme, and a body up to `)` on the line.
    pub open spec fn image_at(s: Seq<u8>, sch: Option<Seq<u8>>, q: int) -> Option<(Seq<Token>, int)> {
        match sch {
            None => None,
            Some(m) => {
                let p = Self::stop_at(s, q + 4 + m.len(), 41u8, 10u8);
                if 0 <= q && m.len() < s.len() && s.len() - q > 4 + m.len() && s[q] == 33u8 && s[q + 1]
                    == 91u8 && s[q + 2] == 93u8 && s[q + 3] == 40u8 && s.subrange(
                    q + 4,
                    q + 4 + m.len(),
                ) == m && p < s.len() && s[p] == 41u8 {
                    Some((seq![Self::tok(TokenKind::ImageMarker, q, p + 1 - q)], p + 1))
                } else {
                    None
                }
            },
        }
    }

    /// The line-start marker at `q`, tried in order: heading, code fence,
    /// checkbox, bullet, ordered item, thematic break, quote, footnote
    /// definition, image marker.
    pub open spec fn line_marker(s: Seq<u8>, sch: Option<Seq<u8>>, q: int) -> Option<(Seq<Token>, int)> {
        if Self::heading_at(s, q) is Some {
            Self::heading_at(s, q)
        } else if Self::fence_at(s, q) is Some {
            Self::fence_at(s, q)
        } else if Self::checkbox_at(s, q) is Some {
            Self::checkbox_at(s, q)
        } else if Self::bullet_at(s, q) is Some {
            Self::bullet_at(s, q)
        } else if Self::ordered_at(s, q) is Some {
            Self::ordered_at(s, q)
        } else if Self::rule_at(s, q) is Some {
            Self::rule_at(s, q)
        } else if Self::quote_at(s, q) is Some {
            Self::quote_at(s, q)
        } else if Self::footnote_at(s, q) is Some {
            Self::footnote_at(s, q)
        } else {
            Self::image_at(s, sch, q)
        }
    }

    /// The tokens of the line starting at `p` and the position after it:
    /// leading spaces are passed over; a blank line gives its newline; with
    /// fewer than four spaces a line-start marker comes first; the rest of
    /// the line is scanned inline.
    pub open spec fn line_tokens(s: Seq<u8>, sch: Option<Seq<u8>>, p: int) -> (Seq<Token>, int) {
        let q = crate::lines::run_end(s, p, s.len() as int, 32u8);
        if q >= s.len() {
            (Seq::empty(), q)
        } else if s[q] == 10u8 {
            (seq![Self::tok(TokenKind::Newline, q, 1)], q + 1)
        } else if q - p < 4 && Self::line_marker(s, sch, q) is Some {
            let m = Self::line_marker(s, sch, q)->0;
            (m.0 + Self::inline_rest(s, m.1).0, Self::inline_rest(s, m.1).1)
        } else {
            Self::inline_rest(s, q)
        }
    }

    /// The tokens of the lines from `p` to the end.
    pub open spec fn lex_lines(s: Seq<u8>, sch: Option<Seq<u8>>, p: int) -> Seq<Token>
        decreases s.len() - p,
    {
        if p < 0 || p >= s.len() {
            Seq::empty()
        } else {
            let t = Self::line_tokens(s, sch, p);
            if p < t.1 <= s.len() {
                t.0 + Self::lex_lines(s, sch, t.1)
            } else {
                t.0
            }
        }
    }

    /// Scan a single line, starting in line-start mode.
    #[verifier::rlimit(60)]
    #[verifier::spinoff_prover]
    fn scan_line(&mut self)
        requires
            old(self).inv(),
            covers(old(self).source@, old(self).tokens@, old(self).pos as int),
            old(self).pos < old(self).source@.len(),
        ensures
            final(self).image_marker_scheme == old(self).image_marker_scheme,
            final(self).inv(),
            covers(final(self).source@, final(self).tokens@, final(self).pos as int),
            final(self).source == old(self).source,
            final(self).pos > old(self).pos,
            final(self).tokens@ == old(self).tokens@ + Self::line_tokens(
                old(self).source@,
                Self::scheme_bytes(old(self).image_marker_scheme),
                old(self).pos as int,
            ).0,
            final(self).pos == Self::line_tokens(
                old(self).source@,
                Self::scheme_bytes(old(self).image_marker_scheme),
                old(self).pos as int,
            ).1,
    {
        let indent = self.skip_spaces();
        if self.pos >= self.source.len() {
            return;
        }
        if self.source[self.pos] == 10u8 {
            self.emit_newline();
            proof {
                assert(self.tokens@ =~= old(self).tokens@ + seq![Self::tok(TokenKind::Newline, self.pos - 1, 1)]);
            }
            return;
        }
        let ghost t1 = self.tokens@;
        if indent < 4 && (self.try_heading() || self.try_code_fence() || self.try_checkbox()
            || self.try_bullet() || self.try_ordered_list() || self.try_horizontal_rule()
            || self.try_blockquote() || self.try_footnote_def() || self.try_image_marker()) {
            let ghost t2 = self.tokens@;
            self.scan_inline_until_newline();
            proof {
                assert(self.tokens@ =~= t1 + (t2.subrange(t1.len() as int, t2.len() as int) + Self::inline_rest(
                    self.source@,
                    (Self::line_marker(self.source@, Self::scheme_bytes(self.image_marker_scheme), old(self).pos + indent)->0).1,
                ).0));
            }
            return;
        }
        self.scan_inline_until_newline();
    }

    #[verifier::loop_isolation(false)]
    #[verifier::rlimit(50)]
    fn try_heading(&mut self) -> (r: bool)
        requires
            old(self).inv(),
            covers(old(self).source@, old(self).tokens@, old(self).pos as int),
            old(self).pos < old(self).source@.len(),
        ensures
            final(self).inv(),
            covers(final(self).source@, final(self).tokens@, final(self).pos as int),
            final(self).source == old(self).source,
            final(self).image_marker_scheme == old(self).image_marker_scheme,
            r ==> final(self).pos > old(self).pos,
            !r ==> final(self).pos == old(self).pos,
            r == (Self::heading_at(old(self).source@, old(self).pos as int) is Some),
            r ==> final(self).tokens@ == old(self).tokens@ + (Self::heading_at(old(self).source@, old(self).pos as int)->0).0 && final(self).pos == (Self::heading_at(old(self).source@, old(self).pos as int)->0).1,
            !r ==> final(self).tokens@ == old(self).tokens@,
    {
        let start = self.pos;
        if self.source[self.pos] != 35u8 {
            return false;
        }
        let mut level: u8 = 0;
        let mut p = self.pos;
        while p < self.source.len() && self.source[p] == 35u8 && level < 7
            invariant
                start <= p <= self.source@.len(),
                level == p - start,
                level <= 7,
                all_of(self.source@, start as int, p as int, 35u8),
                crate::lines::run_end(self.source@, p as int, self.source@.len() as int, 35u8)
                    == crate::lines::run_end(self.source@, start as int, self.source@.len() as int, 35u8),
            decreases self.source@.len() - p,
        {
            level = level + 1;
            p = p + 1;
        }
        proof {
            crate::lines::lemma_run_end(self.source@, p as int, self.source@.len() as int, 35u8);
        }
        if level > 6 {
            return false;
        }
        if p >= self.source.len() || self.source[p] != 32u8 {
            return false;
        }
        p = p + 1;
        self.pos = p;
        self.push(TokenKind::HeadingMarker(level), start, p - start);
        true
    }

    #[verifier::loop_isolation(false)]
    #[verifier::rlimit(50)]
    fn try_code_fence(&mut self) -> (r: bool)
        requires
            old(self).inv(),
            covers(old(self).source@, old(self).tokens@, old(self).pos as int),
            old(self).pos < old(self).source@.len(),
        ensures
            final(self).inv(),
            covers(final(self).source@, final(self).tokens@, final(self).pos as int),
            final(self).source == old(self).source,
            final(self).image_marker_scheme == old(self).image_marker_scheme,
            r ==> final(self).pos > old(self).pos,
            !r ==> final(self).pos == old(self).pos,
            r == (Self::fence_at(old(self).source@, old(self).pos as int) is Some),
            r ==> final(self).tokens@ == old(self).tokens@ + (Self::fence_at(old(self).source@, old(self).pos as int)->0).0 && final(self).pos == (Self::fence_at(old(self).source@, old(self).pos as int)->0).1,
            !r ==> final(self).tokens@ == old(self).tokens@,
    {
        let start = self.pos;
        if self.source[self.pos] != 96u8 {
            return false;
        }
        let mut count: usize = 0;
        let mut p = self.pos;
        while p < self.source.len() && self.source[p] == 96u8
            invariant
                start <= p <= self.source@.len(),
                count == p - start,
                all_of(self.source@, start as int, p as int, 96u8),
                crate::lines::run_end(self.source@, p as int, self.source@.len() as int, 96u8)
                    == crate::lines::run_end(self.source@, start as int, self.source@.len() as int, 96u8),
            decreases self.source@.len() - p,
        {
            count = count + 1;
            p = p + 1;
        }
        if count < 3 {
            return false;
        }
        let fence_count: u8 = if count > 255 {
            (count % 256) as u8
        } else {
            count as u8
        };
        proof {
            assert(fence_count as int == (count as int) % 256);
        }
        let ghost t0 = self.tokens@;
        self.pos = p;
        self.push(TokenKind::CodeFence(fence_count), start, p - start);
        let lang_start = p;
        while p < self.source.len() && self.source[p] != 10u8
            invariant
                lang_start <= p <= self.source@.len(),
                Self::line_end_at(self.source@, p as int) == Self::line_end_at(self.source@, lang_start as int),
            decreases self.source@.len() - p,
        {
            p = p + 1;
        }
        let ghost t1 = self.tokens@;
        if p > lang_start {
            let trimmed_end = self.rtrim_pos(lang_start, p);
            if trimmed_end > lang_start {
                self.pos = p;
                self.push(TokenKind::CodeFenceLanguage, lang_start, trimmed_end - lang_start);
            }
        }
        self.pos = p;
        proof {
            let ft = Self::tok(TokenKind::CodeFence(((lang_start - start) % 256) as u8), start as int, lang_start - start);
            assert(t1 == t0.push(ft));
            if self.tokens@.len() > t1.len() {
                assert(self.tokens@ =~= t0 + seq![
                    ft,
                    Self::tok(
                        TokenKind::CodeFenceLanguage,
                        lang_start as int,
                        Self::rtrim_at(self.source@, lang_start as int, p as int) - lang_start,
                    ),
                ]);
            } else {
                assert(self.tokens@ =~= t0 + seq![ft]);
            }
        }
        true
    }

    fn try_checkbox(&mut self) -> (r: bool)
        requires
            old(self).inv(),
            covers(old(self).source@, old(self).tokens@, old(self).pos as int),
            old(self).pos < old(self).source@.len(),
        ensures
            final(self).inv(),
            covers(final(self).source@, final(self).tokens@, final(self).pos as int),
            final(self).source == old(self).source,
            final(self).image_marker_scheme == old(self).image_marker_scheme,
            r ==> final(self).pos > old(self).pos,
            !r ==> final(self).pos == old(self).pos,
            r == (Self::checkbox_at(old(self).source@, old(self).pos as int) is Some),
            r ==> final(self).tokens@ == old(self).tokens@ + (Self::checkbox_at(old(self).source@, old(self).pos as int)->0).0 && final(self).pos == (Self::checkbox_at(old(self).source@, old(self).pos as int)->0).1,
            !r ==> final(self).tokens@ == old(self).tokens@,
    {
        let start = self.pos;
        let remaining = self.source.len() - self.pos;
        if remaining < 6 {
            return false;
        }
        let s = self.source;
        let p = self.pos;
        if s[p] == 45u8 && s[p + 1] == 32u8 && s[p + 2] == 91u8 {
            if s[p + 3] == 32u8 && s[p + 4] == 93u8 && s[p + 5] == 32u8 {
                self.pos = p + 6;
                self.push(TokenKind::CheckboxMarker(false), start, 6);
                return true;
            }
            if (s[p + 3] == 120u8 || s[p + 3] == 88u8) && s[p + 4] == 93u8 && s[p + 5] == 32u8 {
                self.pos = p + 6;
                self.push(TokenKind::CheckboxMarker(true), start, 6);
                return true;
            }
        }
        false
    }

    fn try_bullet(&mut self) -> (r: bool)
        requires
            old(self).inv(),
            covers(old(self).source@, old(self).tokens@, old(self).pos as int),
            old(self).pos < old(self).source@.len(),
        ensures
            final(self).inv(),
            covers(final(self).source@, final(self).tokens@, final(self).pos as int),
            final(self).source == old(self).source,
            final(self).image_marker_scheme == old(self).image_marker_scheme,
            r ==> final(self).pos > old(self).pos,
            !r ==> final(self).pos == old(self).pos,
            r == (Self::bullet_at(old(self).source@, old(self).pos as int) is Some),
            r ==> final(self).tokens@ == old(self).tokens@ + (Self::bullet_at(old(self).source@, old(self).pos as int)->0).0 && final(self).pos == (Self::bullet_at(old(self).source@, old(self).pos as int)->0).1,
            !r ==> final(self).tokens@ == old(self).tokens@,
    {
        let start = self.pos;
        if self.pos + 1 >= self.source.len() {
            return false;
        }
        let ch = self.source[self.pos];
        if (ch == 45u8 || ch == 42u8 || ch == 43u8) && self.source[self.pos + 1] == 32u8 {
            self.pos = start + 2;
            self.push(TokenKind::BulletMarker, start, 2);
            true
        } else {
            false
        }
    }

    #[verifier::loop_isolation(false)]
    #[verifier::rlimit(50)]
    fn try_ordered_list(&mut self) -> (r: bool)
        requires
            old(self).inv(),
            covers(old(self).source@, old(self).tokens@, old(self).pos as int),
            old(self).pos < old(self).source@.len(),
        ensures
            final(self).inv(),
            covers(final(self).source@, final(self).tokens@, final(self).pos as int),
            final(self).source == old(self).source,
            final(self).image_marker_scheme == old(self).image_marker_scheme,
            r ==> final(self).pos > old(self).pos,
            !r ==> final(self).pos == old(self).pos,
            r == (Self::ordered_at(old(self).source@, old(self).pos as int) is Some),
            r ==> final(self).tokens@ == old(self).tokens@ + (Self::ordered_at(old(self).source@, old(self).pos as int)->0).0 && final(self).pos == (Self::ordered_at(old(self).source@, old(self).pos as int)->0).1,
            !r ==> final(self).tokens@ == old(self).tokens@,
    {
        let start = self.pos;
        let mut p = self.pos;
        while p < self.source.len() && digit(self.source[p])
            invariant
                start <= p <= self.source@.len(),
                forall|j: int| start <= j < p ==> is_digit(#[trigger] self.source@[j]),
                crate::lines::digits_end(self.source@, p as int, self.source@.len() as int)
                    == crate::lines::digits_end(self.source@, start as int, self.source@.len() as int),
            decreases self.source@.len() - p,
        {
            p = p + 1;
        }
        if p == self.pos {
            return false;
        }
        if p + 1 >= self.source.len() || self.source[p] != 46u8 || self.source[p + 1] != 32u8 {
            return false;
        }
        let num = parse_u32_or_one(self.source, start, p);
        let len = p + 2 - start;
        self.pos = p + 2;
        self.push(TokenKind::OrderedMarker(num), start, len);
        true
    }

    #[verifier::loop_isolation(false)]
    #[verifier::rlimit(50)]
    fn try_horizontal_rule(&mut self) -> (r: bool)
        requires
            old(self).inv(),
            covers(old(self).source@, old(self).tokens@, old(self).pos as int),
            old(self).pos < old(self).source@.len(),
        ensures
            final(self).inv(),
            covers(final(self).source@, final(self).tokens@, final(self).pos as int),
            final(self).source == old(self).source,
            final(self).image_marker_scheme == old(self).image_marker_scheme,
            r ==> final(self).pos > old(self).pos,
            !r ==> final(self).pos == old(self).pos,
            r == (Self::rule_at(old(self).source@, old(self).pos as int) is Some),
            r ==> final(self).tokens@ == old(self).tokens@ + (Self::rule_at(old(self).source@, old(self).pos as int)->0).0 && final(self).pos == (Self::rule_at(old(self).source@, old(self).pos as int)->0).1,
            !r ==> final(self).tokens@ == old(self).tokens@,
    {
        let start = self.pos;
        let ch = self.source[self.pos];
        if ch != 45u8 && ch != 42u8 && ch != 95u8 {
            return false;
        }
        let mut p = self.pos;
        let mut count: usize = 0;
        while p < self.source.len() && self.source[p] != 10u8
            invariant
                start <= p <= self.source@.len(),
                count <= p - start,
                self.source@[start as int] == ch,
                forall|j: int| start <= j < p ==> #[trigger] self.source@[j] == ch || self.source@[j] == 32u8,
                count == Self::count_of(self.source@, start as int, p as int, ch),
                Self::line_end_at(self.source@, p as int) == Self::line_end_at(self.source@, start as int),
            decreases self.source@.len() - p,
        {
            if self.source[p] == ch {
                count = count + 1;
            } else if self.source[p] != 32u8 {
                proof {
                    Self::lemma_line_end_at(self.source@, p + 1);
                    assert(!(self.source@[p as int] == ch || self.source@[p as int] == 32u8));
                }
                return false;
            }
            p = p + 1;
        }
        if count < 3 {
            return false;
        }
        if ch == 42u8 && count != 3 {
            return false;
        }
        self.pos = p;
        self.push(TokenKind::HorizontalRule, start, p - start);
        true
    }

    fn try_blockquote(&mut self) -> (r: bool)
        requires
            old(self).inv(),
            covers(old(self).source@, old(self).tokens@, old(self).pos as int),
            old(self).pos < old(self).source@.len(),
        ensures
            final(self).inv(),
            covers(final(self).source@, final(self).tokens@, final(self).pos as int),
            final(self).source == old(self).source,
            final(self).image_marker_scheme == old(self).image_marker_scheme,
            r ==> final(self).pos > old(self).pos,
            !r ==> final(self).pos == old(self).pos,
            r == (Self::quote_at(old(self).source@, old(self).pos as int) is Some),
            r ==> final(self).tokens@ == old(self).tokens@ + (Self::quote_at(old(self).source@, old(self).pos as int)->0).0 && final(self).pos == (Self::quote_at(old(self).source@, old(self).pos as int)->0).1,
            !r ==> final(self).tokens@ == old(self).tokens@,
    {
        let start = self.pos;
        if self.source[self.pos] != 62u8 {
            return false;
        }
        if self.pos + 1 < self.source.len() && self.source[self.pos + 1] == 32u8 {
            self.pos = start + 2;
            self.push(TokenKind::BlockquoteMarker, start, 2);
            true
        } else if self.pos + 1 >= self.source.len() || self.source[self.pos + 1] == 10u8 {
            self.pos = start + 1;
            self.push(TokenKind::BlockquoteMarker, start, 1);
            true
        } else {
            false
        }
    }

    #[verifier::loop_isolation(false)]
    #[verifier::rlimit(50)]
    fn try_footnote_def(&mut self) -> (r: bool)
        requires
            old(self).inv(),
            covers(old(self).source@, old(self).tokens@, old(self).pos as int),
            old(self).pos < old(self).source@.len(),
        ensures
            final(self).inv(),
            covers(final(self).source@, final(self).tokens@, final(self).pos as int),
            final(self).source == old(self).source,
            final(self).image_marker_scheme == old(self).image_marker_scheme,
            r ==> final(self).pos > old(self).pos,
            !r ==> final(self).pos == old(self).pos,
            r == (Self::footnote_at(old(self).source@, old(self).pos as int) is Some),
            r ==> final(self).tokens@ == old(self).tokens@ + (Self::footnote_at(old(self).source@, old(self).pos as int)->0).0 && final(self).pos == (Self::footnote_at(old(self).source@, old(self).pos as int)->0).1,
            !r ==> final(self).tokens@ == old(self).tokens@,
    {
        let start = self.pos;
        let len = self.source.len();
        if len - start < 4 || self.source[start] != 91u8 || self.source[start + 1] != 94u8 {
            return false;
        }
        let mut p = start + 2;
        while p < len && self.source[p] != 93u8 && self.source[p] != 10u8
            invariant
                start + 2 <= p <= len,
                len == self.source@.len(),
                Self::stop_at(self.source@, p as int, 93u8, 10u8) == Self::stop_at(
                    self.source@,
                    start + 2,
                    93u8,
                    10u8,
                ),
            decreases len - p,
        {
            p = p + 1;
        }
        if p >= len || self.source[p] != 93u8 {
            return false;
        }
        if p + 1 >= len || self.source[p + 1] != 58u8 {
            return false;
        }
        let label_end = p;
        p = p + 2;
        if p < len && self.source[p] == 32u8 {
            p = p + 1;
        }
        if label_end <= start + 2 {
            return false;
        }
        self.pos = p;
        self.push(TokenKind::FootnoteDefMarker, start, p - start);
        true
    }

    #[verifier::loop_isolation(false)]
    #[verifier::rlimit(50)]
    fn try_image_marker(&mut self) -> (r: bool)
        requires
            old(self).inv(),
            covers(old(self).source@, old(self).tokens@, old(self).pos as int),
            old(self).pos < old(self).source@.len(),
        ensures
            final(self).inv(),
            covers(final(self).source@, final(self).tokens@, final(self).pos as int),
            final(self).source == old(self).source,
            final(self).image_marker_scheme == old(self).image_marker_scheme,
            r ==> final(self).pos > old(self).pos,
            !r ==> final(self).pos == old(self).pos,
            r == (Self::image_at(old(self).source@, Self::scheme_bytes(old(self).image_marker_scheme), old(self).pos as int) is Some),
            r ==> final(self).tokens@ == old(self).tokens@ + (Self::image_at(old(self).source@, Self::scheme_bytes(old(self).image_marker_scheme), old(self).pos as int)->0).0 && final(self).pos == (Self::image_at(old(self).source@, Self::scheme_bytes(old(self).image_marker_scheme), old(self).pos as int)->0).1,
            !r ==> final(self).tokens@ == old(self).tokens@,
    {
        let scheme = match self.image_marker_scheme {
            Some(s) => s.as_bytes(),
            None => {
                return false;
            },
        };
        let start = self.pos;
        let len = self.source.len();
        if scheme.len() >= len {
            return false;
        }
        let prefix_len = 4 + scheme.len();
        if len - start <= prefix_len {
            return false;
        }
        let src = self.source;
        if src[start] != 33u8 || src[start + 1] != 91u8 || src[start + 2] != 93u8 || src[start + 3]
            != 40u8 {
            return false;
        }
        let mut k: usize = 0;
        while k < scheme.len()
            invariant
                k <= scheme@.len(),
                start + 4 + scheme@.len() < len,
                len == src@.len(),
                src@.subrange(start + 4, start + 4 + k) == scheme@.subrange(0, k as int),
            decreases scheme@.len() - k,
        {
            if src[start + 4 + k] != scheme[k] {
                proof {
                    let a = src@.subrange(start + 4, start + 4 + scheme@.len());
                    assert(a[k as int] != scheme@[k as int]);
                    assert(a != scheme@);
                }
                return false;
            }
            proof {
                assert(src@.subrange(start + 4, start + 4 + k + 1) =~= src@.subrange(start + 4, start + 4 + k).push(src@[start + 4 + k]));
                assert(scheme@.subrange(0, k + 1) =~= scheme@.subrange(0, k as int).push(scheme@[k as int]));
            }
            k = k + 1;
        }
        proof {
            assert(scheme@.subrange(0, scheme@.len() as int) =~= scheme@);
        }
        let mut p = start + prefix_len;
        while p < len && src[p] != 41u8 && src[p] != 10u8
            invariant
                start < p <= len,
                len == src@.len(),
                Self::stop_at(src@, p as int, 41u8, 10u8) == Self::stop_at(src@, start + prefix_len, 41u8, 10u8),
            decreases len - p,
        {
            p = p + 1;
        }
        if p >= len || src[p] != 41u8 {
            return false;
        }
        p = p + 1;
        self.pos = p;
        self.push(TokenKind::ImageMarker, start, p - start);
        true
    }

    /// The inline tokens from `q` to the end of the line (its newline
    /// included), and the position after them.
    pub open spec fn inline_rest(s: Seq<u8>, q: int) -> (Seq<Token>, int)
        decreases s.len() - q,
    {
        if q < 0 || q >= s.len() {
            (Seq::empty(), q)
        } else if s[q] == 10u8 {
            (seq![Self::tok(TokenKind::Newline, q, 1)], q + 1)
        } else {
            let t = Self::inline_tok(s, q);
            if q < t.1 <= s.len() {
                (t.0 + Self::inline_rest(s, t.1).0, Self::inline_rest(s, t.1).1)
            } else {
                t
            }
        }
    }

    /// Scan inline tokens until end of line (newline or EOF).
    fn scan_inline_until_newline(&mut self)
        requires
            old(self).inv(),
            covers(old(self).source@, old(self).tokens@, old(self).pos as int),
        ensures
            final(self).image_marker_scheme == old(self).image_marker_scheme,
            final(self).inv(),
            covers(final(self).source@, final(self).tokens@, final(self).pos as int),
            final(self).source == old(self).source,
            final(self).pos >= old(self).pos,
            old(self).pos < old(self).source@.len() ==> final(self).pos > old(self).pos,
            final(self).tokens@ == old(self).tokens@ + Self::inline_rest(old(self).source@, old(self).pos as int).0,
            final(self).pos == Self::inline_rest(old(self).source@, old(self).pos as int).1,
    {
        proof {
            assert(self.tokens@ =~= self.tokens@ + Seq::<Token>::empty());
        }
        while self.pos < self.source.len()
            invariant
                self.inv(),
                covers(self.source@, self.tokens@, self.pos as int),
                self.source == old(self).source,
                self.image_marker_scheme == old(self).image_marker_scheme,
                self.pos >= old(self).pos,
                self.tokens@ + Self::inline_rest(self.source@, self.pos as int).0 == old(self).tokens@
                    + Self::inline_rest(old(self).source@, old(self).pos as int).0,
                Self::inline_rest(self.source@, self.pos as int).1 == Self::inline_rest(
                    old(self).source@,
                    old(self).pos as int,
                ).1,
            decreases self.source@.len() - self.pos,
        {
            let ghost t0 = self.tokens@;
            let ghost p0 = self.pos as int;
            if self.source[self.pos] == 10u8 {
                self.emit_newline();
                proof {
                    assert(self.tokens@ =~= t0 + Self::inline_rest(self.source@, p0).0);
                }
                return;
            }
            self.scan_inline_token();
            proof {
                let t = Self::inline_tok(self.source@, p0);
                assert(Self::inline_rest(self.source@, p0).0 == t.0 + Self::inline_rest(self.source@, t.1).0);
                assert(t0 + Self::inline_rest(self.source@, p0).0 =~= self.tokens@ + Self::inline_rest(
                    self.source@,
                    self.pos as int,
                ).0);
            }
        }
        proof {
            assert(self.tokens@ =~= self.tokens@ + Self::inline_rest(self.source@, self.pos as int).0);
        }
    }

    /// The token of kind `k` over `s[a..a + n]`.
    pub open spec fn tok(k: TokenKind, a: int, n: int) -> Token {
        Token { kind: k, byte_start: a as u32, byte_len: n as u32 }
    }

    /// The color index of the circle emoji at `p`, if one is there.
    pub open spec fn color_emoji_at(s: Seq<u8>, p: int) -> Option<u8> {
        if p < 0 || p + 3 >= s.len() || s[p] != 0xF0u8 || s[p + 1] != 0x9Fu8 {
            None
        } else if s[p + 2] == 0x94u8 && s[p + 3] == 0xB4u8 {
            Some(0u8)
        } else if s[p + 2] == 0x9Fu8 && s[p + 3] == 0xA0u8 {
            Some(1u8)
        } else if s[p + 2] == 0x9Fu8 && s[p + 3] == 0xA1u8 {
            Some(2u8)
        } else if s[p + 2] == 0x9Fu8 && s[p + 3] == 0xA2u8 {
            Some(3u8)
        } else if s[p + 2] == 0x94u8 && s[p + 3] == 0xB5u8 {
            Some(4u8)
        } else if s[p + 2] == 0x9Fu8 && s[p + 3] == 0xA3u8 {
            Some(5u8)
        } else {
            None
        }
    }

    /// The tokens one inline token scanned at `p` adds, and the position
    /// after it, by the byte at `p`: a `*` run (up to three in the token, the
    /// whole run passed over), a `~` run (up to two), a backtick, `==` (and a
    /// color emoji right after it), `[[`, `[^`, `[`, `]]`, `]`, `(`, `)`,
    /// `|`, the `<u>` and `</u>` tags, and otherwise a text run up to the
    /// next byte that ends one.
    #[verifier::opaque]
    pub open spec fn inline_tok(s: Seq<u8>, p: int) -> (Seq<Token>, int) {
        let b = s[p];
        let len = s.len() as int;
        if b == 42u8 {
            let e = crate::lines::run_end(s, p, len, 42u8);
            let c = if e - p < 3 { e - p } else { 3 };
            (seq![Self::tok(TokenKind::Asterisks(c as u8), p, c)], e)
        } else if b == 126u8 {
            let e = crate::lines::run_end(s, p, len, 126u8);
            let c = if e - p < 2 { e - p } else { 2 };
            (seq![Self::tok(TokenKind::Tildes(c as u8), p, c)], e)
        } else if b == 96u8 {
            (seq![Self::tok(TokenKind::Backtick, p, 1)], p + 1)
        } else if b == 61u8 && p + 1 < len && s[p + 1] == 61u8 {
            match Self::color_emoji_at(s, p + 2) {
                Some(c) => (
                    seq![
                        Self::tok(TokenKind::DoubleEquals, p, 2),
                        Self::tok(TokenKind::ColorEmojiPrefix(c), p + 2, 4),
                    ],
                    p + 6,
                ),
                None => (seq![Self::tok(TokenKind::DoubleEquals, p, 2)], p + 2),
            }
        } else if b == 91u8 && p + 1 < len && s[p + 1] == 91u8 {
            (seq![Self::tok(TokenKind::DoubleOpenBracket, p, 2)], p + 2)
        } else if b == 91u8 && p + 1 < len && s[p + 1] == 94u8 {
            (seq![Self::tok(TokenKind::FootnoteRefOpen, p, 2)], p + 2)
        } else if b == 91u8 {
            (seq![Self::tok(TokenKind::OpenBracket, p, 1)], p + 1)
        } else if b == 93u8 && p + 1 < len && s[p + 1] == 93u8 {
            (seq![Self::tok(TokenKind::DoubleCloseBracket, p, 2)], p + 2)
        } else if b == 93u8 {
            (seq![Self::tok(TokenKind::CloseBracket, p, 1)], p + 1)
        } else if b == 40u8 {
            (seq![Self::tok(TokenKind::OpenParen, p, 1)], p + 1)
        } else if b == 41u8 {
            (seq![Self::tok(TokenKind::CloseParen, p, 1)], p + 1)
        } else if b == 124u8 {
            (seq![Self::tok(TokenKind::TablePipe, p, 1)], p + 1)
        } else if b == 60u8 && Self::underline_open_at(s, p) {
            (seq![Self::tok(TokenKind::HtmlUnderlineOpen, p, 3)], p + 3)
        } else if b == 60u8 && Self::underline_close_at(s, p) {
            (seq![Self::tok(TokenKind::HtmlUnderlineClose, p, 4)], p + 4)
        } else {
            let e = Self::text_end(s, p + Self::char_step(s, p));
            (seq![Self::tok(TokenKind::Text, p, e - p)], e)
        }
    }

    /// Scan a single inline token at the current position.
    #[verifier::rlimit(100)]
    #[verifier::spinoff_prover]
    fn scan_inline_token(&mut self)
        requires
            old(self).inv(),
            covers(old(self).source@, old(self).tokens@, old(self).pos as int),
            old(self).pos < old(self).source@.len(),
        ensures
            final(self).inv(),
            covers(final(self).source@, final(self).tokens@, final(self).pos as int),
            final(self).source == old(self).source,
            final(self).pos > old(self).pos,
            final(self).image_marker_scheme == old(self).image_marker_scheme,
            final(self).tokens@ == old(self).tokens@ + Self::inline_tok(old(self).source@, old(self).pos as int).0,
            final(self).pos == Self::inline_tok(old(self).source@, old(self).pos as int).1,
    {
        reveal(Lexer::inline_tok);
        let start = self.pos;
        let len = self.source.len();
        let b = self.source[self.pos];
        if b == 42u8 {
            let n = self.count_consecutive(42u8);
            let count: usize = if n < 3 {
                n
            } else {
                3
            };
            self.push(TokenKind::Asterisks(count as u8), start, count);
        } else if b == 126u8 {
            let n = self.count_consecutive(126u8);
            let count: usize = if n < 2 {
                n
            } else {
                2
            };
            self.push(TokenKind::Tildes(count as u8), start, count);
        } else if b == 96u8 {
            self.pos = start + 1;
            self.push(TokenKind::Backtick, start, 1);
        } else if b == 61u8 && start + 1 < len && self.source[start + 1] == 61u8 {
            self.pos = start + 2;
            match self.try_color_emoji() {
                Some(color_idx) => {
                    let ghost t0 = self.tokens@;
                    self.push(TokenKind::DoubleEquals, start, 2);
                    let emoji_start = self.pos;
                    let emoji_len = self.color_emoji_byte_len();
                    self.pos = emoji_start + emoji_len;
                    self.push(TokenKind::ColorEmojiPrefix(color_idx), emoji_start, emoji_len);
                    proof {
                        assert(self.tokens@ =~= t0 + seq![
                            Self::tok(TokenKind::DoubleEquals, start as int, 2),
                            Self::tok(TokenKind::ColorEmojiPrefix(color_idx), start + 2, 4),
                        ]);
                    }
                },
                None => {
                    self.push(TokenKind::DoubleEquals, start, 2);
                },
            }
        } else if b == 91u8 {
            if start + 1 < len {
                if self.source[start + 1] == 91u8 {
                    self.pos = start + 2;
                    self.push(TokenKind::DoubleOpenBracket, start, 2);
                } else if self.source[start + 1] == 94u8 {
                    self.pos = start + 2;
                    self.push(TokenKind::FootnoteRefOpen, start, 2);
                } else {
                    self.pos = start + 1;
                    self.push(TokenKind::OpenBracket, start, 1);
                }
            } else {
                self.pos = start + 1;
                self.push(TokenKind::OpenBracket, start, 1);
            }
        } else if b == 93u8 {
            if start + 1 < len && self.source[start + 1] == 93u8 {
                self.pos = start + 2;
                self.push(TokenKind::DoubleCloseBracket, start, 2);
            } else {
                self.pos = start + 1;
                self.push(TokenKind::CloseBracket, start, 1);
            }
        } else if b == 40u8 {
            self.pos = start + 1;
            self.push(TokenKind::OpenParen, start, 1);
        } else if b == 41u8 {
            self.pos = start + 1;
            self.push(TokenKind::CloseParen, start, 1);
        } else if b == 124u8 {
            self.pos = start + 1;
            self.push(TokenKind::TablePipe, start, 1);
        } else if b == 60u8 && (self.try_html_underline_open() || self.try_html_underline_close()) {
        } else {
            self.scan_text_run();
        }
    }

    /// End of a text run from `p`: characters are passed over until a byte
    /// that ends a text run starts one, or the source ends.
    pub open spec fn text_end(s: Seq<u8>, p: int) -> int
        decreases s.len() - p,
    {
        if p < 0 || p >= s.len() || Self::inline_stop(s[p]) {
            p
        } else {
            Self::text_end(s, p + Self::char_step(s, p))
        }
    }

    /// Scan a text run until the next byte that could start an inline
    /// delimiter or end the line.
    fn scan_text_run(&mut self)
        requires
            old(self).inv(),
            covers(old(self).source@, old(self).tokens@, old(self).pos as int),
            old(self).pos < old(self).source@.len(),
        ensures
            final(self).image_marker_scheme == old(self).image_marker_scheme,
            final(self).inv(),
            covers(final(self).source@, final(self).tokens@, final(self).pos as int),
            final(self).source == old(self).source,
            final(self).pos > old(self).pos,
            ({
                let s = old(self).source@;
                let p = old(self).pos as int;
                let e = Self::text_end(s, p + Self::char_step(s, p));
                &&& final(self).pos == e
                &&& final(self).tokens@ == old(self).tokens@.push(
                    Token { kind: TokenKind::Text, byte_start: p as u32, byte_len: (e - p) as u32 },
                )
            }),
    {
        let start = self.pos;
        let len = self.source.len();
        // The first byte is consumed unconditionally: callers only reach
        // here on a byte that no other inline rule claimed.
        let mut p = self.pos + self.char_byte_len(self.pos);
        let ghost p0 = p as int;
        while p < len && !Self::is_inline_stop(self.source[p])
            invariant
                len == self.source@.len(),
                start < p <= len,
                Self::text_end(self.source@, p as int) == Self::text_end(self.source@, p0),
            decreases len - p,
        {
            let n = self.char_byte_len(p);
            p = p + n;
        }
        self.pos = p;
        self.push(TokenKind::Text, start, p - start);
    }

    /// Bytes that end a text run: newline, `*`, `~`, `` ` ``, `=`, `[`, `]`,
    /// `(`, `)`, `|`, `<`.
    pub open spec fn inline_stop(b: u8) -> bool {
        b == 10u8 || b == 42u8 || b == 126u8 || b == 96u8 || b == 61u8 || b == 91u8 || b == 93u8
            || b == 40u8 || b == 41u8 || b == 124u8 || b == 60u8
    }

    /// Bytes that end a text run.
    fn is_inline_stop(b: u8) -> (r: bool)
        ensures
            r == Self::inline_stop(b),
    {
        b == 10u8 || b == 42u8 || b == 126u8 || b == 96u8 || b == 61u8 || b == 91u8 || b == 93u8
            || b == 40u8 || b == 41u8 || b == 124u8 || b == 60u8
    }

    /// `s[p..]` starts with the underline open tag.
    pub open spec fn underline_open_at(s: Seq<u8>, p: int) -> bool {
        s.len() - p >= 3 && s[p] == 60u8 && s[p + 1] == 117u8 && s[p + 2] == 62u8
    }

    fn try_html_underline_open(&mut self) -> (r: bool)
        requires
            old(self).inv(),
            covers(old(self).source@, old(self).tokens@, old(self).pos as int),
            old(self).pos < old(self).source@.len(),
        ensures
            final(self).image_marker_scheme == old(self).image_marker_scheme,
            final(self).inv(),
            covers(final(self).source@, final(self).tokens@, final(self).pos as int),
            final(self).source == old(self).source,
            r ==> final(self).pos > old(self).pos,
            !r ==> final(self).pos == old(self).pos,
            r == Self::underline_open_at(old(self).source@, old(self).pos as int),
            r ==> final(self).pos == old(self).pos + 3 && final(self).tokens@ == old(self).tokens@.push(
                Token { kind: TokenKind::HtmlUnderlineOpen, byte_start: old(self).pos as u32, byte_len: 3 },
            ),
            !r ==> final(self).tokens@ == old(self).tokens@,
    {
        let p = self.pos;
        let len = self.source.len();
        if len - p >= 3 && self.source[p] == 60u8 && self.source[p + 1] == 117u8 && self.source[p
            + 2] == 62u8 {
            self.pos = p + 3;
            self.push(TokenKind::HtmlUnderlineOpen, p, 3);
            true
        } else {
            false
        }
    }

    /// `s[p..]` starts with the underline close tag.
    pub open spec fn underline_close_at(s: Seq<u8>, p: int) -> bool {
        s.len() - p >= 4 && s[p] == 60u8 && s[p + 1] == 47u8 && s[p + 2] == 117u8 && s[p + 3] == 62u8
    }

    fn try_html_underline_close(&mut self) -> (r: bool)
        requires
            old(self).inv(),
            covers(old(self).source@, old(self).tokens@, old(self).pos as int),
            old(self).pos < old(self).source@.len(),
        ensures
            final(self).image_marker_scheme == old(self).image_marker_scheme,
            final(self).inv(),
            covers(final(self).source@, final(self).tokens@, final(self).pos as int),
            final(self).source == old(self).source,
            r ==> final(self).pos > old(self).pos,
            !r ==> final(self).pos == old(self).pos,
            r == Self::underline_close_at(old(self).source@, old(self).pos as int),
            r ==> final(self).pos == old(self).pos + 4 && final(self).tokens@ == old(self).tokens@.push(
                Token { kind: TokenKind::HtmlUnderlineClose, byte_start: old(self).pos as u32, byte_len: 4 },
            ),
            !r ==> final(self).tokens@ == old(self).tokens@,
    {
        let p = self.pos;
        let len = self.source.len();
        if len - p >= 4 && self.source[p] == 60u8 && self.source[p + 1] == 47u8 && self.source[p
            + 2] == 117u8 && self.source[p + 3] == 62u8 {
            self.pos = p + 4;
            self.push(TokenKind::HtmlUnderlineClose, p, 4);
            true
        } else {
            false
        }
    }

    /// Color index of the circle emoji at the current position, if any.
    fn try_color_emoji(&self) -> (r: Option<u8>)
        requires
            self.inv(),
        ensures
            r is Some ==> self.pos + 4 <= self.source@.len() && r->0 < 6 && self.source@[self.pos as int]
                == 0xF0u8 && self.source@[self.pos + 1] == 0x9Fu8,
            r == Self::color_emoji_at(self.source@, self.pos as int),
    {
        if self.pos + 3 >= self.source.len() {
            return None;
        }
        let s = self.source;
        let p = self.pos;
        if s[p] != 0xF0 || s[p + 1] != 0x9F {
            return None;
        }
        let (b2, b3) = (s[p + 2], s[p + 3]);
        if b2 == 0x94 && b3 == 0xB4 {
            Some(0)
        } else if b2 == 0x9F && b3 == 0xA0 {
            Some(1)
        } else if b2 == 0x9F && b3 == 0xA1 {
            Some(2)
        } else if b2 == 0x9F && b3 == 0xA2 {
            Some(3)
        } else if b2 == 0x94 && b3 == 0xB5 {
            Some(4)
        } else if b2 == 0x9F && b3 == 0xA3 {
            Some(5)
        } else {
            None
        }
    }

    /// All color emojis are 4-byte UTF-8 sequences.
    fn color_emoji_byte_len(&self) -> (n: usize)
        ensures
            n == 4,
    {
        4
    }

    fn emit_newline(&mut self)
        requires
            old(self).inv(),
            covers(old(self).source@, old(self).tokens@, old(self).pos as int),
            old(self).pos < old(self).source@.len(),
            old(self).source@[old(self).pos as int] == 10u8,
        ensures
            final(self).image_marker_scheme == old(self).image_marker_scheme,
            final(self).inv(),
            covers(final(self).source@, final(self).tokens@, final(self).pos as int),
            final(self).source == old(self).source,
            final(self).pos == old(self).pos + 1,
            final(self).tokens@ == old(self).tokens@.push(Self::tok(TokenKind::Newline, old(self).pos as int, 1)),
    {
        let p = self.pos;
        self.pos = p + 1;
        self.push(TokenKind::Newline, p, 1);
    }

    fn skip_spaces(&mut self) -> (n: usize)
        requires
            old(self).inv(),
            covers(old(self).source@, old(self).tokens@, old(self).pos as int),
        ensures
            final(self).inv(),
            covers(final(self).source@, final(self).tokens@, final(self).pos as int),
            final(self).source == old(self).source,
            final(self).image_marker_scheme == old(self).image_marker_scheme,
            final(self).pos == old(self).pos + n,
            final(self).tokens == old(self).tokens,
            n == crate::lines::run_end(
                old(self).source@,
                old(self).pos as int,
                old(self).source@.len() as int,
                32u8,
            ) - old(self).pos,
    {
        let start = self.pos;
        let mut p = self.pos;
        while p < self.source.len() && self.source[p] == 32u8
            invariant
                start <= p <= self.source@.len(),
                forall|j: int| start <= j < p ==> #[trigger] self.source@[j] == 32u8,
                crate::lines::run_end(self.source@, p as int, self.source@.len() as int, 32u8)
                    == crate::lines::run_end(self.source@, start as int, self.source@.len() as int, 32u8),
            decreases self.source@.len() - p,
        {
            p = p + 1;
        }
        proof {
            assert forall|j: int| 0 <= j < p && !byte_exempt(self.source@, j) implies #[trigger] covered(
                self.tokens@,
                j,
            ) by {
                if j >= start {
                    assert(self.source@[j] == 32u8);
                }
            }
        }
        self.pos = p;
        p - start
    }

    /// Count consecutive occurrences of `byte` starting at the current
    /// position, advancing past them.
    #[verifier::rlimit(80)]
    fn count_consecutive(&mut self, byte: u8) -> (n: usize)
        requires
            old(self).inv(),
            old(self).pos < old(self).source@.len(),
            old(self).source@[old(self).pos as int] == byte,
        ensures
            final(self).image_marker_scheme == old(self).image_marker_scheme,
            final(self).inv(),
            final(self).source == old(self).source,
            final(self).pos == old(self).pos + n,
            final(self).tokens == old(self).tokens,
            n >= 1,
            all_of(old(self).source@, old(self).pos as int, old(self).pos + n, byte),
            old(self).pos + n == crate::lines::run_end(
                old(self).source@,
                old(self).pos as int,
                old(self).source@.len() as int,
                byte,
            ),
    {
        let start = self.pos;
        let mut p = self.pos;
        while p < self.source.len() && self.source[p] == byte
            invariant
                start <= p <= self.source@.len(),
                all_of(self.source@, start as int, p as int, byte),
                crate::lines::run_end(self.source@, p as int, self.source@.len() as int, byte)
                    == crate::lines::run_end(self.source@, start as int, self.source@.len() as int, byte),
            decreases self.source@.len() - p,
        {
            p = p + 1;
        }
        self.pos = p;
        p - start
    }

    /// Byte length of the UTF-8 character whose lead byte is `b`.
    pub open spec fn lead_len(b: u8) -> int {
        if b < 0x80 {
            1
        } else if b < 0xE0 {
            2
        } else if b < 0xF0 {
            3
        } else {
            4
        }
    }

    /// Byte length of the character at `p` in `s`, capped to the bytes left.
    pub open spec fn char_step(s: Seq<u8>, p: int) -> int {
        if p >= s.len() {
            0
        } else if Self::lead_len(s[p]) < s.len() - p {
            Self::lead_len(s[p])
        } else {
            s.len() - p
        }
    }

    /// Byte length of the UTF-8 character at `pos`, capped to the bytes left.
    fn char_byte_len(&self, pos: usize) -> (n: usize)
        ensures
            pos < self.source@.len() ==> 1 <= n && pos + n <= self.source@.len(),
            pos >= self.source@.len() ==> n == 0,
            n == Self::char_step(self.source@, pos as int),
    {
        if pos >= self.source.len() {
            return 0;
        }
        let b = self.source[pos];
        let len: usize = if b < 0x80 {
            1
        } else if b < 0xE0 {
            2
        } else if b < 0xF0 {
            3
        } else {
            4
        };
        let rest = self.source.len() - pos;
        if len < rest {
            len
        } else {
            rest
        }
    }

    /// End of non-space content in `[start, end)` (right-trim position).
    fn rtrim_pos(&self, start: usize, end: usize) -> (p: usize)
        requires
            start <= end <= self.source@.len(),
        ensures
            start <= p <= end,
            forall|j: int| p <= j < end ==> self.source@[j] == 32u8,
            p > start ==> self.source@[p - 1] != 32u8,
            p == Self::rtrim_at(self.source@, start as int, end as int),
    {
        let mut p = end;
        while p > start && self.source[p - 1] == 32u8
            invariant
                start <= p <= end <= self.source@.len(),
                forall|j: int| p <= j < end ==> self.source@[j] == 32u8,
                Self::rtrim_at(self.source@, start as int, p as int) == Self::rtrim_at(
                    self.source@,
                    start as int,
                    end as int,
                ),
            decreases p - start,
        {
            p = p - 1;
        }
        p
    }

    /// The source bytes `[start, start + len)` (clamped to the source), or an
    /// empty range when `start` is past the end.
    pub fn slice_range(&self, start: u32, len: u32) -> (r: (usize, usize))
        ensures
            r.0 <= r.1 <= self.source@.len(),
            (start as int) < self.source@.len() ==> r.0 == start,
            (start as int) < self.source@.len() ==> r.1 == (if start + len
                < self.source@.len() {
                start + len
            } else {
                self.source@.len() as int
            }),
            (start as int) >= self.source@.len() ==> r.0 == r.1,
    {
        let s = start as usize;
        if s >= self.source.len() {
            return (0, 0);
        }
        let rest = self.source.len() - s;
        let e = if (len as usize) < rest {
            s + len as usize
        } else {
            self.source.len()
        };
        (s, e)
    }

    /// The source text `[start, start + len)` (clamped to the source); empty
    /// when `start` is past the end or the bytes are not valid UTF-8.
    pub fn slice_str(&self, start: u32, len: u32) -> (r: &'a str)
        ensures
            ({
                let (lo, hi) = self.slice_bounds(start, len);
                let sub = self.source@.subrange(lo, hi);
                &&& valid_utf8(sub) ==> r.spec_bytes() == sub
                &&& !valid_utf8(sub) ==> r@.len() == 0
            }),
    {
        let (lo, hi) = self.slice_range(start, len);
        str_from_range(self.source, lo, hi)
    }

    /// Bounds used by `slice_str`.
    pub open spec fn slice_bounds(&self, start: u32, len: u32) -> (int, int) {
        if start as int >= self.source@.len() {
            (0, 0)
        } else if start + len < self.source@.len() {
            (start as int, start + len)
        } else {
            (start as int, self.source@.len() as int)
        }
    }

    /// Get the source bytes.
    pub fn source(&self) -> (s: &'a [u8])
        ensures
            s@ == self.src(),
    {
        self.source
    }
}

} // verus!
