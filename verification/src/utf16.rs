//! UTF-8 to UTF-16 offset mapping.
//!
//! NSTextStorage counts text in UTF-16 code units, while the parser scans
//! UTF-8 bytes. `Utf16Map` records, for every line, the byte offset and the
//! UTF-16 offset of its first character, so that a byte offset converts to a
//! UTF-16 offset by walking only the bytes of one line. ASCII-only sources
//! take an O(1) path where both offsets coincide.
//!
//! The walk is described by `step_len` / `step_units`: a lead byte below 0x80
//! (or a stray continuation byte) is one byte and one unit, 0xC0..0xDF two
//! bytes and one unit, 0xE0..0xEF three bytes and one unit, and 0xF0.. four
//! bytes and two units (a surrogate pair).
use vstd::prelude::*;

verus! {

/// Largest source (in bytes) the `u32` offsets cover: byte and UTF-16
/// offsets are `u32`, and the UTF-8 walk may step up to three bytes past the
/// end of the source when it ends inside a multi-byte sequence, so every
/// position it reaches, up to `MAX_SOURCE_LEN + 3`, is a `u32`.
pub const MAX_SOURCE_LEN: usize = 0xffff_fffc;

/// Bytes consumed by one step of the UTF-8 walk starting at lead byte `b`.
pub open spec fn step_len(b: u8) -> int {
    if b < 0x80 {
        1
    } else if b < 0xC0 {
        1
    } else if b < 0xE0 {
        2
    } else if b < 0xF0 {
        3
    } else {
        4
    }
}

/// UTF-16 code units produced by one step of the walk starting at lead byte `b`.
pub open spec fn step_units(b: u8) -> int {
    if b >= 0xF0 {
        2
    } else {
        1
    }
}

/// UTF-16 units counted while walking from byte `p` for as long as the
/// position is below both `target` and the end of `s`.
pub open spec fn units_between(s: Seq<u8>, p: int, target: int) -> int
    decreases target + 4 - p,
{
    if p < 0 || p >= target || p >= s.len() {
        0
    } else {
        step_units(s[p]) + units_between(s, p + step_len(s[p]), target)
    }
}

/// The walk started at `p` lands exactly on `q`.
pub open spec fn reaches(s: Seq<u8>, p: int, q: int) -> bool
    decreases q + 4 - p,
{
    p == q || (0 <= p && p < q && p < s.len() && reaches(s, p + step_len(s[p]), q))
}

/// UTF-16 offset of byte offset `off`: the units of the walk from the start of
/// the document up to `off` (offsets past the end give the total length).
pub open spec fn utf16_offset(s: Seq<u8>, off: int) -> int {
    units_between(s, 0, off)
}

/// UTF-16 length of the whole document.
pub open spec fn utf16_total(s: Seq<u8>) -> int {
    units_between(s, 0, s.len() as int)
}

/// Byte position where the walk from `p` (having counted `acc` units) first
/// has counted at least `target` units, or reaches the end of `s`.
pub open spec fn walk_to_units(s: Seq<u8>, p: int, acc: int, target: int) -> int
    decreases s.len() + 4 - p,
{
    if p < 0 || acc >= target || p >= s.len() {
        p
    } else {
        walk_to_units(s, p + step_len(s[p]), acc + step_units(s[p]), target)
    }
}

/// True when every byte of `s` is ASCII.
pub open spec fn all_ascii(s: Seq<u8>) -> bool {
    forall|i: int| 0 <= i < s.len() ==> #[trigger] s[i] < 0x80
}

/// Byte offset for UTF-16 offset `u`, as `utf16_to_byte` computes it: on an
/// ASCII document the offsets coincide; otherwise the walk from the start is
/// followed until it has counted `u` units.
pub open spec fn byte_offset_of_utf16(s: Seq<u8>, u: int) -> int {
    if all_ascii(s) {
        u
    } else {
        walk_to_units(s, 0, 0, u)
    }
}

/// Number of lines: one more than the number of newlines the walk lands on.
pub open spec fn landing_newline(s: Seq<u8>, j: int) -> bool {
    0 <= j < s.len() && reaches(s, 0, j) && s[j] == 10u8
}

/// A walk only lands at or after its start.
pub proof fn lemma_reaches_le(s: Seq<u8>, p: int, q: int)
    requires
        reaches(s, p, q),
    ensures
        p <= q,
{
}

pub proof fn lemma_step_pos(b: u8)
    ensures
        1 <= step_len(b) <= 4,
        1 <= step_units(b) <= 2,
        step_units(b) <= step_len(b),
{
}

/// Units counted by a walk never exceed the bytes it covers, plus one for a
/// truncated final sequence.
pub proof fn lemma_units_bound(s: Seq<u8>, p: int, target: int)
    requires
        0 <= p,
    ensures
        units_between(s, p, target) >= 0,
        units_between(s, p, target) <= ({
            let m = if target < s.len() { target } else { s.len() as int };
            if p <= m { m - p + 1 } else { 0 }
        }),
        p >= target || p >= s.len() ==> units_between(s, p, target) == 0,
    decreases target + 4 - p,
{
    if p < target && p < s.len() {
        lemma_step_pos(s[p]);
        lemma_units_bound(s, p + step_len(s[p]), target);
    }
}

/// A walk counts no more units towards an earlier target.
pub proof fn lemma_units_mono(s: Seq<u8>, p: int, a: int, b: int)
    requires
        0 <= p,
        a <= b,
    ensures
        units_between(s, p, a) <= units_between(s, p, b),
    decreases b + 4 - p,
{
    lemma_units_bound(s, p, b);
    if p < a && p < s.len() {
        lemma_step_pos(s[p]);
        lemma_units_mono(s, p + step_len(s[p]), a, b);
    }
}

/// UTF-16 offsets grow with byte offsets.
pub proof fn lemma_utf16_offset_mono(s: Seq<u8>, a: int, b: int)
    requires
        a <= b,
    ensures
        utf16_offset(s, a) <= utf16_offset(s, b),
{
    lemma_units_mono(s, 0, a, b);
}

/// Splitting a walk at a landing point.
pub proof fn lemma_units_split(s: Seq<u8>, p: int, q: int, t: int)
    requires
        0 <= p,
        reaches(s, p, q),
        q <= t,
    ensures
        units_between(s, p, t) == units_between(s, p, q) + units_between(s, q, t),
    decreases q + 4 - p,
{
    if p != q {
        lemma_step_pos(s[p]);
        lemma_reaches_le(s, p + step_len(s[p]), q);
        lemma_units_split(s, p + step_len(s[p]), q, t);
    }
}

/// A walk landing on `q` extends by one step.
pub proof fn lemma_reaches_step(s: Seq<u8>, p: int, q: int)
    requires
        0 <= p <= q,
        reaches(s, p, q),
        q < s.len(),
    ensures
        reaches(s, p, q + step_len(s[q])),
    decreases q + 4 - p,
{
    lemma_step_pos(s[q]);
    assert(reaches(s, q + step_len(s[q]), q + step_len(s[q])));
    if p != q {
        lemma_step_pos(s[p]);
        lemma_reaches_le(s, p + step_len(s[p]), q);
        lemma_reaches_step(s, p + step_len(s[p]), q);
    }
}

/// Landing points of one walk are ordered along the walk.
pub proof fn lemma_reaches_between(s: Seq<u8>, p: int, i: int, j: int)
    requires
        0 <= p,
        reaches(s, p, i),
        reaches(s, p, j),
        i < j,
    ensures
        reaches(s, i, j),
        j >= i + step_len(s[i]),
        i < s.len(),
    decreases j + 4 - p,
{
    if p == i {
        lemma_step_pos(s[p]);
        assert(reaches(s, p + step_len(s[p]), j));
        lemma_reaches_le(s, p + step_len(s[p]), j);
    } else {
        lemma_step_pos(s[p]);
        lemma_reaches_le(s, p + step_len(s[p]), i);
        lemma_reaches_between(s, p + step_len(s[p]), i, j);
    }
}

/// Walking units from a landing point: the unit-driven walk from the start
/// passes through every landing point that has counted fewer units than the
/// target.
pub proof fn lemma_walk_through(s: Seq<u8>, p: int, q: int, t: int)
    requires
        0 <= p,
        reaches(s, p, q),
        units_between(s, p, q) <= t,
    ensures
        walk_to_units(s, p, 0, t) == walk_to_units(s, q, units_between(s, p, q), t),
{
    if p != q {
        lemma_step_pos(s[p]);
        let p2 = p + step_len(s[p]);
        lemma_reaches_le(s, p2, q);
        lemma_units_bound(s, p2, q);
        lemma_units_shift(s, p2, q, t, step_units(s[p]));
    }
}

proof fn lemma_units_shift(s: Seq<u8>, p: int, q: int, t: int, acc: int)
    requires
        0 <= p,
        reaches(s, p, q),
        acc >= 1,
        acc + units_between(s, p, q) <= t,
    ensures
        walk_to_units(s, p, acc, t) == walk_to_units(s, q, acc + units_between(s, p, q), t),
    decreases q + 4 - p,
{
    if p != q {
        lemma_step_pos(s[p]);
        lemma_reaches_le(s, p + step_len(s[p]), q);
        lemma_units_bound(s, p + step_len(s[p]), q);
        lemma_units_shift(s, p + step_len(s[p]), q, t, acc + step_units(s[p]));
    }
}

/// On an ASCII document the UTF-16 offset of a byte offset is the offset itself.
pub proof fn lemma_ascii_units(s: Seq<u8>, p: int, t: int)
    requires
        all_ascii(s),
        0 <= p <= t,
        t <= s.len(),
    ensures
        units_between(s, p, t) == t - p,
    decreases t - p,
{
    if p < t {
        lemma_ascii_units(s, p + 1, t);
    }
}

/// Every position of an ASCII document is a landing point.
pub proof fn lemma_ascii_reaches(s: Seq<u8>, p: int, q: int)
    requires
        all_ascii(s),
        0 <= p <= q,
        q <= s.len(),
    ensures
        reaches(s, p, q),
    decreases q - p,
{
    if p < q {
        lemma_ascii_reaches(s, p + 1, q);
    }
}

/// Maps between UTF-8 byte offsets and UTF-16 code unit offsets.
#[derive(Debug, Clone)]
pub struct Utf16Map {
    /// UTF-16 offset of the first character of each line.
    pub line_utf16_starts: Vec<u32>,
    /// Byte offset of the first character of each line.
    pub line_byte_starts: Vec<u32>,
    /// True if the entire document is ASCII (byte offset == UTF-16 offset).
    pub is_ascii: bool,
    /// Total UTF-16 length of the document.
    pub total_utf16_len: u32,
}

impl Utf16Map {
    /// Byte offsets of the line starts.
    pub open spec fn byte_starts(&self) -> Seq<u32> {
        self.line_byte_starts@
    }

    /// UTF-16 offsets of the line starts.
    pub open spec fn utf16_starts(&self) -> Seq<u32> {
        self.line_utf16_starts@
    }

    /// The map describes source bytes `s`: line starts are exactly the landing
    /// points after newlines (in order, starting at 0), each paired with its
    /// UTF-16 offset, and the ASCII flag and total length match `s`.
    pub open spec fn wf_for(&self, s: Seq<u8>) -> bool {
        let bs = self.line_byte_starts@;
        let us = self.line_utf16_starts@;
        &&& s.len() <= MAX_SOURCE_LEN
        &&& bs.len() == us.len()
        &&& bs.len() >= 1
        &&& bs[0] == 0
        &&& forall|k: int| 0 <= k < bs.len() ==> #[trigger] bs[k] <= s.len()
        &&& forall|k: int| 0 <= k < bs.len() ==> reaches(s, 0, #[trigger] bs[k] as int)
        &&& forall|k: int| 0 <= k < bs.len() ==> #[trigger] us[k] == utf16_offset(s, bs[k] as int)
        &&& forall|k: int, l: int| 0 <= k < l < bs.len() ==> #[trigger] bs[k] < #[trigger] bs[l]
        &&& forall|k: int, l: int| 0 <= k < l < us.len() ==> #[trigger] us[k] < #[trigger] us[l]
        &&& forall|k: int| 1 <= k < bs.len() ==> landing_newline(s, #[trigger] bs[k] - 1)
        &&& forall|j: int| #[trigger] landing_newline(s, j) ==> bs.contains((j + 1) as u32)
        &&& self.is_ascii == all_ascii(s)
        &&& self.total_utf16_len == utf16_total(s)
    }

    /// Build the offset map from source bytes.
    pub fn build(source: &[u8]) -> (map: Self)
        requires
            source@.len() <= MAX_SOURCE_LEN,
        ensures
            map.wf_for(source@),
    {
        let ghost s = source@;
        let mut line_utf16_starts: Vec<u32> = Vec::new();
        let mut line_byte_starts: Vec<u32> = Vec::new();
        let mut is_ascii = true;
        line_utf16_starts.push(0);
        line_byte_starts.push(0);
        let mut utf16_pos: u32 = 0;
        let mut i: usize = 0;
        proof {
            lemma_units_bound(s, 0, 0);
        }
        while i < source.len()
            invariant
                s == source@,
                s.len() <= MAX_SOURCE_LEN,
                reaches(s, 0, i as int),
                utf16_pos == units_between(s, 0, i as int),
                i <= s.len() + 3,
                line_byte_starts@.len() == line_utf16_starts@.len(),
                line_byte_starts@.len() >= 1,
                line_byte_starts@[0] == 0,
                line_utf16_starts@[0] == 0,
                forall|k: int|
                    0 <= k < line_byte_starts@.len() ==> #[trigger] line_byte_starts@[k] <= i,
                forall|k: int|
                    0 <= k < line_byte_starts@.len() ==> #[trigger] line_byte_starts@[k] <= s.len(),
                forall|k: int|
                    0 <= k < line_byte_starts@.len() ==> reaches(
                        s,
                        0,
                        #[trigger] line_byte_starts@[k] as int,
                    ),
                forall|k: int|
                    0 <= k < line_byte_starts@.len() ==> #[trigger] line_utf16_starts@[k]
                        == utf16_offset(s, line_byte_starts@[k] as int),
                forall|k: int, l: int|
                    0 <= k < l < line_byte_starts@.len() ==> #[trigger] line_byte_starts@[k]
                        < #[trigger] line_byte_starts@[l],
                forall|k: int, l: int|
                    0 <= k < l < line_utf16_starts@.len() ==> #[trigger] line_utf16_starts@[k]
                        < #[trigger] line_utf16_starts@[l],
                forall|k: int|
                    0 <= k < line_utf16_starts@.len() ==> #[trigger] line_utf16_starts@[k]
                        <= utf16_pos,
                forall|k: int|
                    1 <= k < line_byte_starts@.len() ==> landing_newline(
                        s,
                        #[trigger] line_byte_starts@[k] - 1,
                    ),
                forall|j: int|
                    #![trigger landing_newline(s, j)]
                    0 <= j < i && landing_newline(s, j) ==> line_byte_starts@.contains(
                        (j + 1) as u32,
                    ),
                is_ascii == (forall|j: int| 0 <= j < i && j < s.len() ==> #[trigger] s[j] < 0x80),
            decreases s.len() + 4 - i,
        {
            let b = source[i];
            let ghost old_i = i as int;
            let ghost old_starts = line_byte_starts@;
            proof {
                lemma_step_pos(b);
                lemma_units_bound(s, 0, old_i);
                lemma_units_split(s, 0, old_i, old_i + step_len(b));
                lemma_reaches_step(s, 0, old_i);
                assert(units_between(s, old_i, old_i + step_len(b)) == step_units(b)) by {
                    assert(units_between(s, old_i + step_len(b), old_i + step_len(b)) == 0);
                }
            }
            if b == 10u8 {
                utf16_pos = utf16_pos + 1;
                i = i + 1;
                line_utf16_starts.push(utf16_pos);
                line_byte_starts.push(i as u32);
            } else if b < 0x80 {
                utf16_pos = utf16_pos + 1;
                i = i + 1;
            } else if b < 0xC0 {
                utf16_pos = utf16_pos + 1;
                i = i + 1;
                is_ascii = false;
            } else if b < 0xE0 {
                utf16_pos = utf16_pos + 1;
                i = i + 2;
                is_ascii = false;
            } else if b < 0xF0 {
                utf16_pos = utf16_pos + 1;
                i = i + 3;
                is_ascii = false;
            } else {
                utf16_pos = utf16_pos + 2;
                i = i + 4;
                is_ascii = false;
            }
            proof {
                assert(i == old_i + step_len(b));
                assert forall|j: int|
                    #![trigger landing_newline(s, j)]
                    0 <= j < i && landing_newline(s, j) implies line_byte_starts@.contains(
                    (j + 1) as u32,
                ) by {
                    if j < old_i {
                        assert(old_starts.contains((j + 1) as u32));
                        let w = choose|w: int|
                            0 <= w < old_starts.len() && old_starts[w] == (j + 1) as u32;
                        assert(line_byte_starts@[w] == (j + 1) as u32);
                    } else if j == old_i {
                        assert(line_byte_starts@[line_byte_starts@.len() - 1] == (j + 1) as u32);
                    } else {
                        lemma_reaches_between(s, 0, old_i, j);
                    }
                }
                if b == 10u8 {
                    assert(landing_newline(s, old_i));
                }
            }
        }
        proof {
            lemma_units_bound(s, 0, s.len() as int);
            lemma_units_same_end(s, 0, i as int, s.len() as int);
            assert forall|j: int| #[trigger] landing_newline(s, j) implies line_byte_starts@.contains(
                (j + 1) as u32,
            ) by {}
            assert(is_ascii == all_ascii(s));
        }
        Utf16Map { line_utf16_starts, line_byte_starts, is_ascii, total_utf16_len: utf16_pos }
    }

    /// Index of the last line start that is at most `byte_offset` (binary search).
    fn last_start_at_or_before(starts: &Vec<u32>, value: u32) -> (k: usize)
        requires
            starts@.len() >= 1,
            starts@[0] <= value,
            forall|a: int, b: int| 0 <= a < b < starts@.len() ==> #[trigger] starts@[a] < #[trigger] starts@[b],
        ensures
            k < starts@.len(),
            starts@[k as int] <= value,
            k + 1 < starts@.len() ==> starts@[k + 1] > value,
    {
        let mut lo: usize = 0;
        let mut hi: usize = starts.len();
        while lo + 1 < hi
            invariant
                0 <= lo < hi <= starts@.len(),
                starts@[lo as int] <= value,
                hi < starts@.len() ==> starts@[hi as int] > value,
                forall|a: int, b: int| 0 <= a < b < starts@.len() ==> #[trigger] starts@[a] < #[trigger] starts@[b],
            decreases hi - lo,
        {
            let mid = lo + (hi - lo) / 2;
            if starts[mid] <= value {
                lo = mid;
            } else {
                hi = mid;
            }
        }
        lo
    }

    /// Convert a byte offset to a UTF-16 offset. Byte offsets past the end of
    /// the source are clamped to `total_utf16_len`.
    pub fn byte_to_utf16(&self, byte_offset: u32, source: &[u8]) -> (u: u32)
        requires
            self.wf_for(source@),
        ensures
            u == utf16_offset(source@, byte_offset as int),
    {
        let ghost s = source@;
        if byte_offset as usize >= source.len() {
            proof {
                lemma_units_split(s, 0, 0, 0);
                lemma_units_bound(s, 0, byte_offset as int);
                assert(units_between(s, 0, byte_offset as int) == units_between(s, 0, s.len() as int))
                    by {
                    lemma_units_same_end(s, 0, byte_offset as int, s.len() as int);
                }
            }
            return self.total_utf16_len;
        }
        if self.is_ascii {
            proof {
                lemma_ascii_units(s, 0, byte_offset as int);
            }
            return byte_offset;
        }
        let line = Self::last_start_at_or_before(&self.line_byte_starts, byte_offset);
        let line_byte_start = self.line_byte_starts[line] as usize;
        let line_utf16_start = self.line_utf16_starts[line];
        let target = byte_offset as usize;
        let mut acc: u32 = line_utf16_start;
        let mut pos: usize = line_byte_start;
        proof {
            lemma_units_split(s, 0, line_byte_start as int, target as int);
            lemma_units_bound(s, 0, target as int);
            lemma_units_bound(s, line_byte_start as int, target as int);
        }
        while pos < target && pos < source.len()
            invariant
                s == source@,
                s.len() <= MAX_SOURCE_LEN,
                target < s.len(),
                pos <= target + 3,
                acc + units_between(s, pos as int, target as int) == utf16_offset(
                    s,
                    target as int,
                ),
                utf16_offset(s, target as int) <= target + 1,
            decreases target + 4 - pos,
        {
            let b = source[pos];
            proof {
                lemma_step_pos(b);
                lemma_units_bound(s, pos + step_len(b), target as int);
            }
            if b < 0x80 {
                acc = acc + 1;
                pos = pos + 1;
            } else if b < 0xC0 {
                acc = acc + 1;
                pos = pos + 1;
            } else if b < 0xE0 {
                acc = acc + 1;
                pos = pos + 2;
            } else if b < 0xF0 {
                acc = acc + 1;
                pos = pos + 3;
            } else {
                acc = acc + 2;
                pos = pos + 4;
            }
        }
        acc
    }

    /// Convert a UTF-16 offset to a byte offset.
    pub fn utf16_to_byte(&self, utf16_offset: u32, source: &[u8]) -> (b: u32)
        requires
            self.wf_for(source@),
        ensures
            b == byte_offset_of_utf16(source@, utf16_offset as int),
    {
        let ghost s = source@;
        if self.is_ascii {
            return utf16_offset;
        }
        let line = Self::last_start_at_or_before(&self.line_utf16_starts, utf16_offset);
        proof {
            assert(self.line_utf16_starts@[0] == 0);
        }
        let line_byte_start = self.line_byte_starts[line] as usize;
        let line_utf16_start = self.line_utf16_starts[line];
        let target = utf16_offset;
        let mut current_utf16: u32 = line_utf16_start;
        let mut pos: usize = line_byte_start;
        proof {
            lemma_walk_through(s, 0, pos as int, target as int);
            lemma_units_bound(s, 0, pos as int);
        }
        while current_utf16 < target && pos < source.len()
            invariant
                s == source@,
                s.len() <= MAX_SOURCE_LEN,
                pos <= s.len() + 3,
                current_utf16 <= pos + 1,
                walk_to_units(s, 0, 0, target as int) == walk_to_units(
                    s,
                    pos as int,
                    current_utf16 as int,
                    target as int,
                ),
            decreases s.len() + 4 - pos,
        {
            let b = source[pos];
            proof {
                lemma_step_pos(b);
            }
            if b < 0x80 {
                current_utf16 = current_utf16 + 1;
                pos = pos + 1;
            } else if b < 0xC0 {
                current_utf16 = current_utf16 + 1;
                pos = pos + 1;
            } else if b < 0xE0 {
                current_utf16 = current_utf16 + 1;
                pos = pos + 2;
            } else if b < 0xF0 {
                current_utf16 = current_utf16 + 1;
                pos = pos + 3;
            } else {
                current_utf16 = current_utf16 + 2;
                pos = pos + 4;
            }
        }
        pos as u32
    }

    /// Get the line index for a byte offset: the last line whose start is at
    /// most `byte_offset`.
    pub fn line_at_byte(&self, byte_offset: u32) -> (line: u32)
        requires
            self.byte_starts().len() >= 1,
            self.byte_starts()[0] == 0,
            self.byte_starts().len() <= u32::MAX,
            forall|a: int, b: int|
                0 <= a < b < self.byte_starts().len() ==> #[trigger] self.byte_starts()[a]
                    < #[trigger] self.byte_starts()[b],
        ensures
            line < self.byte_starts().len(),
            self.byte_starts()[line as int] <= byte_offset,
            line + 1 < self.byte_starts().len() ==> self.byte_starts()[line + 1] > byte_offset,
    {
        let k = Self::last_start_at_or_before(&self.line_byte_starts, byte_offset);
        k as u32
    }

    /// Get the byte offset of a line start (0 for lines past the end).
    pub fn line_byte_start(&self, line: u32) -> (b: u32)
        ensures
            b == (if (line as int) < self.byte_starts().len() {
                self.byte_starts()[line as int]
            } else {
                0u32
            }),
    {
        if (line as usize) < self.line_byte_starts.len() {
            self.line_byte_starts[line as usize]
        } else {
            0
        }
    }

    /// Get the UTF-16 offset of a line start (0 for lines past the end).
    pub fn line_utf16_start(&self, line: u32) -> (u: u32)
        ensures
            u == (if (line as int) < self.utf16_starts().len() {
                self.utf16_starts()[line as int]
            } else {
                0u32
            }),
    {
        if (line as usize) < self.line_utf16_starts.len() {
            self.line_utf16_starts[line as usize]
        } else {
            0
        }
    }

    /// Total number of lines.
    pub fn line_count(&self) -> (n: u32)
        requires
            self.byte_starts().len() <= u32::MAX,
        ensures
            n == self.byte_starts().len(),
    {
        self.line_byte_starts.len() as u32
    }

    /// Facts about a well-formed map that callers need.
    pub proof fn lemma_wf_facts(&self, s: Seq<u8>)
        requires
            self.wf_for(s),
        ensures
            self.byte_starts().len() >= 1,
            self.byte_starts()[0] == 0,
            self.byte_starts().len() <= s.len() + 1,
            forall|a: int, b: int|
                0 <= a < b < self.byte_starts().len() ==> #[trigger] self.byte_starts()[a]
                    < #[trigger] self.byte_starts()[b],
            self.total_utf16_len <= s.len() + 1,
    {
        lemma_units_bound(s, 0, s.len() as int);
        let bs = self.line_byte_starts@;
        assert forall|k: int| 0 <= k < bs.len() implies #[trigger] bs[k] >= k by {
            lemma_strict_increasing_ge(bs, k);
        }
        assert(bs[bs.len() - 1] >= bs.len() - 1);
    }
}

proof fn lemma_strict_increasing_ge(bs: Seq<u32>, k: int)
    requires
        0 <= k < bs.len(),
        forall|a: int, b: int| 0 <= a < b < bs.len() ==> #[trigger] bs[a] < #[trigger] bs[b],
    ensures
        bs[k] >= k,
    decreases k,
{
    if k > 0 {
        lemma_strict_increasing_ge(bs, k - 1);
        assert(bs[k - 1] < bs[k]);
    }
}

/// Walks that stop at the end of the source count the same units for every
/// target at or past the end.
pub proof fn lemma_units_same_end(s: Seq<u8>, p: int, t1: int, t2: int)
    requires
        0 <= p,
        t1 >= s.len(),
        t2 >= s.len(),
    ensures
        units_between(s, p, t1) == units_between(s, p, t2),
    decreases s.len() + 4 - p,
{
    if p < s.len() {
        lemma_step_pos(s[p]);
        lemma_units_same_end(s, p + step_len(s[p]), t1, t2);
    }
}

/// Round trip: converting a landing byte offset to UTF-16 and back gives the
/// same byte offset.
pub proof fn lemma_utf16_roundtrip(s: Seq<u8>, off: int)
    requires
        0 <= off <= s.len(),
        reaches(s, 0, off),
    ensures
        byte_offset_of_utf16(s, utf16_offset(s, off)) == off,
{
    if all_ascii(s) {
        lemma_ascii_units(s, 0, off);
    } else {
        lemma_walk_through(s, 0, off, utf16_offset(s, off));
    }
}

/// A walk over a suffix of `s` is a walk over `s`, moved by the suffix's
/// start.
proof fn lemma_reaches_shift(s: Seq<u8>, l: int, p: int, q: int)
    requires
        0 <= l <= s.len(),
        reaches(s.subrange(l, s.len() as int), p, q),
    ensures
        reaches(s, p + l, q + l),
    decreases q + 4 - p,
{
    let u = s.subrange(l, s.len() as int);
    if p != q {
        assert(u[p] == s[p + l]);
        lemma_reaches_shift(s, l, p + step_len(u[p]), q);
    }
}

/// In valid UTF-8, the walk lands on every character boundary.
pub proof fn lemma_boundary_reached(s: Seq<u8>, off: int)
    requires
        vstd::utf8::valid_utf8(s),
        vstd::utf8::is_char_boundary(s, off),
    ensures
        reaches(s, 0, off),
    decreases s.len(),
{
    if off != 0 {
        let l = vstd::utf8::length_of_first_scalar(s);
        let u = vstd::utf8::pop_first_scalar(s);
        assert(s.len() > 0);
        assert(l == step_len(s[0]));
        lemma_boundary_reached(u, off - l);
        lemma_reaches_shift(s, l, 0, off - l);
    }
}

/// Round trip on every character boundary of valid UTF-8: converting the
/// byte offset to UTF-16 and back gives it again.
pub proof fn lemma_utf16_roundtrip_boundary(s: Seq<u8>, off: int)
    requires
        vstd::utf8::valid_utf8(s),
        vstd::utf8::is_char_boundary(s, off),
    ensures
        byte_offset_of_utf16(s, utf16_offset(s, off)) == off,
{
    lemma_boundary_reached(s, off);
    lemma_boundary_bounds(s, off);
    lemma_utf16_roundtrip(s, off);
}

/// A character boundary lies in the bytes.
proof fn lemma_boundary_bounds(s: Seq<u8>, off: int)
    requires
        vstd::utf8::valid_utf8(s),
        vstd::utf8::is_char_boundary(s, off),
    ensures
        0 <= off <= s.len(),
    decreases s.len(),
{
    if off != 0 {
        let l = vstd::utf8::length_of_first_scalar(s);
        lemma_boundary_bounds(vstd::utf8::pop_first_scalar(s), off - l);
    }
}

} // verus!
