//! AST node types for the Cindermark Markdown parser.
//!
//! A `Document` is a list of `BlockNode`s; each block carries its line range,
//! byte range and UTF-16 range in the source, optional list-marker metadata
//! and the inline formatting spans found in its text.
use vstd::prelude::*;
use vstd::string::StringSliceAdditionalSpecFns;
use crate::text::{lemma_find_byte_pos, find_byte, find_byte_pos, lower_seq, range_eq, range_eq_ignore_case, trim_end, trim_end_pos, trim_start, trim_start_pos, ws_len, ws_len_at};

verus! {

/// A parsed markdown document.
#[derive(Debug, Clone)]
pub struct Document {
    pub blocks: Vec<BlockNode>,
    pub line_count: u32,
}

/// A single block-level node in the AST.
#[derive(Debug, Clone)]
pub struct BlockNode {
    pub kind: BlockKind,
    /// First line index (0-based).
    pub line_start: u32,
    /// Last line index (exclusive).
    pub line_end: u32,
    /// UTF-16 offset of the block start in the document.
    pub utf16_start: u32,
    /// UTF-16 offset of the block end (exclusive).
    pub utf16_end: u32,
    /// Byte range in source (for incremental diffing).
    pub byte_start: u32,
    pub byte_end: u32,
    /// Source metadata for list-like blocks.
    pub list_marker: Option<ListMarkerMeta>,
    /// Inline formatting spans within this block.
    pub inline_spans: Vec<InlineSpan>,
}

/// Source metadata for a list marker or checklist marker.
#[derive(Debug, Clone, PartialEq, Eq)]
pub struct ListMarkerMeta {
    /// Column of the marker: its leading spaces and tabs, a tab counting to
    /// the next multiple of 4.
    pub indent: u32,
    /// UTF-16 range of the marker prefix, excluding indentation and including
    /// the following marker whitespace (and `[ ]` / `[x]` for checklists).
    pub marker_utf16_start: u32,
    pub marker_utf16_end: u32,
    /// Byte positions matching the marker/content boundaries.
    pub marker_byte_start: u32,
    pub marker_byte_end: u32,
    pub content_byte_start: u32,
    /// Exact marker prefix excluding indentation, e.g. `* `, `003)  `.
    pub marker_source: String,
    /// Bullet/checklist source marker (`-`, `*`, `+`) when applicable.
    pub unordered_marker: String,
    /// Ordered delimiter (`.` or `)`) when applicable.
    pub ordered_delimiter: String,
    /// Ordered number exactly as typed, preserving leading zeroes.
    pub ordered_raw_number: String,
}

/// Block-level node kind with associated metadata.
#[derive(Debug, Clone, PartialEq)]
pub enum BlockKind {
    Heading { level: u8, text: String },
    Paragraph { text: String },
    CodeBlock { language: Option<String>, code: String },
    /// A fenced code block whose info string is `mermaid` (any case).
    MermaidDiagram { diagram_type: MermaidDiagramType, source: String },
    Blockquote { text: String },
    BulletList { items: Vec<ListItem> },
    OrderedList { start: u32, items: Vec<ListItem> },
    Checkbox { checked: bool, text: String },
    Table { headers: Vec<String>, rows: Vec<Vec<String>>, alignments: Vec<ColumnAlignment> },
    HorizontalRule,
    Empty,
    FootnoteDefinition { label: String, text: String },
    ImageMarker { uuid: String },
    /// A blockquote whose first line is `[!<kind>]` with an optional title.
    Callout { kind: CalloutKind, title: Option<String>, text: String },
    /// Editable mode: a single bullet item.
    BulletItem { text: String },
    /// Editable mode: a single numbered item.
    NumberedItem { number: u32, text: String },
}

/// Mermaid diagram type, classified from the first non-blank content line of
/// a mermaid fenced block. Wire values (see `as_u8`) are stable.
#[derive(Debug, Clone, Copy, PartialEq, Eq)]
pub enum MermaidDiagramType {
    Unknown,
    Flowchart,
    Graph,
    SequenceDiagram,
    ClassDiagram,
    StateDiagram,
    ErDiagram,
    Gantt,
    Mindmap,
    Pie,
    Journey,
    Timeline,
    GitGraph,
    C4,
    RequirementDiagram,
    Quadrant,
    Sankey,
    XYChart,
    Block,
    Packet,
    Architecture,
    Kanban,
    Radar,
}

/// End of the line starting at `p` (position of its `\n`, or the end).
pub open spec fn line_end_at(s: Seq<u8>, p: int) -> int {
    find_byte_pos(s, p, s.len() as int, 10u8)
}

/// Start of the line after the line starting at `p`.
pub open spec fn next_line_at(s: Seq<u8>, p: int) -> int {
    if line_end_at(s, p) < s.len() {
        line_end_at(s, p) + 1
    } else {
        s.len() as int
    }
}

/// The line starting at `p` is empty after trimming.
pub open spec fn line_blank_at(s: Seq<u8>, p: int) -> bool {
    trim_start_pos(s, p, line_end_at(s, p)) == line_end_at(s, p)
}

/// The line starting at `p` trims to `---`.
pub open spec fn line_is_frontmatter_fence(s: Seq<u8>, p: int) -> bool {
    let e = line_end_at(s, p);
    let a = trim_start_pos(s, p, e);
    let z = trim_end_pos(s, a, e);
    s.subrange(a, z) == "---".spec_bytes()
}

/// Skip lines up to and including the closing frontmatter fence.
pub open spec fn skip_frontmatter_body(s: Seq<u8>, p: int) -> int
    decreases s.len() - p,
{
    if p < 0 || p >= s.len() {
        p
    } else if line_is_frontmatter_fence(s, p) {
        next_line_at(s, p)
    } else {
        proof {
            lemma_find_byte_pos(s, p, s.len() as int, 10u8);
        }
        skip_frontmatter_body(s, next_line_at(s, p))
    }
}

/// Start of the first line that is neither blank nor part of a leading
/// frontmatter block.
pub open spec fn mermaid_first_line(s: Seq<u8>, p: int) -> int
    decreases s.len() - p,
{
    if p < 0 || p >= s.len() {
        p
    } else if line_blank_at(s, p) {
        proof {
            lemma_find_byte_pos(s, p, s.len() as int, 10u8);
        }
        mermaid_first_line(s, next_line_at(s, p))
    } else if line_is_frontmatter_fence(s, p) {
        let q = skip_frontmatter_body(s, next_line_at(s, p));
        if q <= p || q > s.len() {
            p
        } else {
            mermaid_first_line(s, q)
        }
    } else {
        p
    }
}

/// End of the first whitespace-delimited token starting at `p`, bounded by `e`.
pub open spec fn token_end(s: Seq<u8>, p: int, e: int) -> int
    decreases e - p,
{
    if p >= e || ws_len(s, p) > 0 {
        p
    } else {
        token_end(s, p + 1, e)
    }
}

/// The keyword of a mermaid source: the first token of its first meaningful line.
pub open spec fn mermaid_keyword(s: Seq<u8>) -> Seq<u8> {
    let p = mermaid_first_line(s, 0);
    if p < 0 || p >= s.len() {
        Seq::empty()
    } else {
        let e = line_end_at(s, p);
        let a = trim_start_pos(s, p, e);
        s.subrange(a, token_end(s, a, e))
    }
}

/// The keyword matches the literal ignoring ASCII case.
pub open spec fn kw_is(k: Seq<u8>, lit: Seq<u8>) -> bool {
    lower_seq(k) == lower_seq(lit)
}

/// Diagram type named by a keyword.
#[verifier::opaque]
pub open spec fn mermaid_type_of(k: Seq<u8>) -> MermaidDiagramType {
    if kw_is(k, "flowchart".spec_bytes()) {
        MermaidDiagramType::Flowchart
    } else if kw_is(k, "graph".spec_bytes()) {
        MermaidDiagramType::Graph
    } else if kw_is(k, "sequencediagram".spec_bytes()) {
        MermaidDiagramType::SequenceDiagram
    } else if kw_is(k, "classdiagram".spec_bytes()) || kw_is(k, "classdiagram-v2".spec_bytes()) {
        MermaidDiagramType::ClassDiagram
    } else if kw_is(k, "statediagram".spec_bytes()) || kw_is(k, "statediagram-v2".spec_bytes()) {
        MermaidDiagramType::StateDiagram
    } else if kw_is(k, "erdiagram".spec_bytes()) {
        MermaidDiagramType::ErDiagram
    } else if kw_is(k, "gantt".spec_bytes()) {
        MermaidDiagramType::Gantt
    } else if kw_is(k, "mindmap".spec_bytes()) {
        MermaidDiagramType::Mindmap
    } else if kw_is(k, "pie".spec_bytes()) {
        MermaidDiagramType::Pie
    } else if kw_is(k, "journey".spec_bytes()) {
        MermaidDiagramType::Journey
    } else if kw_is(k, "timeline".spec_bytes()) {
        MermaidDiagramType::Timeline
    } else if kw_is(k, "gitgraph".spec_bytes()) {
        MermaidDiagramType::GitGraph
    } else if kw_is(k, "c4context".spec_bytes()) || kw_is(k, "c4container".spec_bytes()) || kw_is(
        k,
        "c4component".spec_bytes(),
    ) || kw_is(k, "c4dynamic".spec_bytes()) || kw_is(k, "c4deployment".spec_bytes()) {
        MermaidDiagramType::C4
    } else if kw_is(k, "requirementdiagram".spec_bytes()) {
        MermaidDiagramType::RequirementDiagram
    } else if kw_is(k, "quadrantchart".spec_bytes()) {
        MermaidDiagramType::Quadrant
    } else if kw_is(k, "sankey".spec_bytes()) || kw_is(k, "sankey-beta".spec_bytes()) {
        MermaidDiagramType::Sankey
    } else if kw_is(k, "xychart".spec_bytes()) || kw_is(k, "xychart-beta".spec_bytes()) {
        MermaidDiagramType::XYChart
    } else if kw_is(k, "block".spec_bytes()) || kw_is(k, "block-beta".spec_bytes()) {
        MermaidDiagramType::Block
    } else if kw_is(k, "packet".spec_bytes()) || kw_is(k, "packet-beta".spec_bytes()) {
        MermaidDiagramType::Packet
    } else if kw_is(k, "architecture".spec_bytes()) || kw_is(k, "architecture-beta".spec_bytes()) {
        MermaidDiagramType::Architecture
    } else if kw_is(k, "kanban".spec_bytes()) {
        MermaidDiagramType::Kanban
    } else if kw_is(k, "radar".spec_bytes()) || kw_is(k, "radar-beta".spec_bytes()) {
        MermaidDiagramType::Radar
    } else {
        MermaidDiagramType::Unknown
    }
}

/// Whether `b[lo..hi]` equals the literal ignoring ASCII case.
fn kw(b: &[u8], lo: usize, hi: usize, lit: &str) -> (r: bool)
    requires
        lo <= hi <= b@.len(),
    ensures
        r == kw_is(b@.subrange(lo as int, hi as int), lit.spec_bytes()),
{
    range_eq_ignore_case(b, lo, hi, lit.as_bytes())
}

/// End of the line starting at `p`.
fn line_end(b: &[u8], p: usize) -> (e: usize)
    requires
        p <= b@.len(),
    ensures
        e == line_end_at(b@, p as int),
        p <= e <= b@.len(),
{
    find_byte(b, p, b.len(), 10u8)
}

fn line_blank(b: &[u8], p: usize) -> (r: bool)
    requires
        p <= b@.len(),
    ensures
        r == line_blank_at(b@, p as int),
{
    let e = line_end(b, p);
    trim_start(b, p, e) == e
}

fn line_fence(b: &[u8], p: usize) -> (r: bool)
    requires
        p <= b@.len(),
    ensures
        r == line_is_frontmatter_fence(b@, p as int),
{
    let e = line_end(b, p);
    let a = trim_start(b, p, e);
    let z = trim_end(b, a, e);
    range_eq(b, a, z, "---".as_bytes())
}

pub proof fn lemma_next_line(s: Seq<u8>, p: int)
    requires
        0 <= p < s.len(),
    ensures
        p < next_line_at(s, p) <= s.len(),
{
    lemma_find_byte_pos(s, p, s.len() as int, 10u8);
}

pub proof fn lemma_skip_body_bounds(s: Seq<u8>, p: int)
    requires
        0 <= p <= s.len(),
    ensures
        p <= skip_frontmatter_body(s, p) <= s.len(),
    decreases s.len() - p,
{
    if p < s.len() {
        lemma_next_line(s, p);
        if !line_is_frontmatter_fence(s, p) {
            lemma_skip_body_bounds(s, next_line_at(s, p));
        }
    }
}

/// Start of the next line after the one starting at `p` (clamped to the end).
fn next_line(b: &[u8], p: usize) -> (q: usize)
    requires
        p < b@.len(),
    ensures
        q == next_line_at(b@, p as int),
        p < q <= b@.len(),
{
    proof {
        lemma_next_line(b@, p as int);
    }
    let e = line_end(b, p);
    if e < b.len() {
        e + 1
    } else {
        b.len()
    }
}

/// Skip the body of a frontmatter block up to and including its closing fence.
fn skip_frontmatter(b: &[u8], q0: usize) -> (q: usize)
    requires
        q0 <= b@.len(),
    ensures
        q == skip_frontmatter_body(b@, q0 as int),
{
    let mut q = q0;
    while q < b.len() && !line_fence(b, q)
        invariant
            q0 <= q <= b@.len(),
            skip_frontmatter_body(b@, q0 as int) == skip_frontmatter_body(b@, q as int),
        decreases b@.len() - q,
    {
        q = next_line(b, q);
    }
    if q < b.len() {
        next_line(b, q)
    } else {
        q
    }
}

/// Start of the first line that is neither blank nor in a leading frontmatter block.
fn first_meaningful_line(b: &[u8]) -> (p: usize)
    ensures
        p == mermaid_first_line(b@, 0),
{
    let mut p: usize = 0;
    while p < b.len() && (line_blank(b, p) || line_fence(b, p))
        invariant
            p <= b@.len(),
            mermaid_first_line(b@, 0) == mermaid_first_line(b@, p as int),
        decreases b@.len() - p,
    {
        if line_blank(b, p) {
            p = next_line(b, p);
        } else {
            let q0 = next_line(b, p);
            proof {
                lemma_skip_body_bounds(b@, q0 as int);
            }
            p = skip_frontmatter(b, q0);
        }
    }
    p
}

impl MermaidDiagramType {
    /// Classify the diagram type from the raw source inside the fence:
    /// skip blank lines and an optional YAML frontmatter block (`---` ...
    /// `---`), then match the first whitespace-separated token of the first
    /// remaining line case-insensitively.
    pub fn from_source(source: &str) -> (t: Self)
        ensures
            t == mermaid_type_of(mermaid_keyword(source.spec_bytes())),
    {
        let b = source.as_bytes();
        let p = first_meaningful_line(b);
        if p >= b.len() {
            proof {
                assert(mermaid_keyword(b@) =~= Seq::<u8>::empty());
                assert(b@.subrange(0, 0) =~= Seq::<u8>::empty());
            }
            return Self::classify(b, 0, 0);
        }
        let e = line_end(b, p);
        let a = trim_start(b, p, e);
        let mut z = a;
        while z < e && ws_len_at(b, z) == 0
            invariant
                a <= z <= e <= b@.len(),
                token_end(b@, a as int, e as int) == token_end(b@, z as int, e as int),
            decreases e - z,
        {
            z = z + 1;
        }
        Self::classify(b, a, z)
    }

    /// Diagram type named by the keyword `b[a..z]`.
    fn classify(b: &[u8], a: usize, z: usize) -> (t: Self)
        requires
            a <= z <= b@.len(),
        ensures
            t == mermaid_type_of(b@.subrange(a as int, z as int)),
    {
        proof {
            reveal(mermaid_type_of);
        }
        if kw(b, a, z, "flowchart") {
            MermaidDiagramType::Flowchart
        } else if kw(b, a, z, "graph") {
            MermaidDiagramType::Graph
        } else if kw(b, a, z, "sequencediagram") {
            MermaidDiagramType::SequenceDiagram
        } else if kw(b, a, z, "classdiagram") || kw(b, a, z, "classdiagram-v2") {
            MermaidDiagramType::ClassDiagram
        } else if kw(b, a, z, "statediagram") || kw(b, a, z, "statediagram-v2") {
            MermaidDiagramType::StateDiagram
        } else if kw(b, a, z, "erdiagram") {
            MermaidDiagramType::ErDiagram
        } else if kw(b, a, z, "gantt") {
            MermaidDiagramType::Gantt
        } else if kw(b, a, z, "mindmap") {
            MermaidDiagramType::Mindmap
        } else if kw(b, a, z, "pie") {
            MermaidDiagramType::Pie
        } else if kw(b, a, z, "journey") {
            MermaidDiagramType::Journey
        } else if kw(b, a, z, "timeline") {
            MermaidDiagramType::Timeline
        } else if kw(b, a, z, "gitgraph") {
            MermaidDiagramType::GitGraph
        } else if kw(b, a, z, "c4context") || kw(b, a, z, "c4container") || kw(
            b,
            a,
            z,
            "c4component",
        ) || kw(b, a, z, "c4dynamic") || kw(b, a, z, "c4deployment") {
            MermaidDiagramType::C4
        } else if kw(b, a, z, "requirementdiagram") {
            MermaidDiagramType::RequirementDiagram
        } else if kw(b, a, z, "quadrantchart") {
            MermaidDiagramType::Quadrant
        } else if kw(b, a, z, "sankey") || kw(b, a, z, "sankey-beta") {
            MermaidDiagramType::Sankey
        } else if kw(b, a, z, "xychart") || kw(b, a, z, "xychart-beta") {
            MermaidDiagramType::XYChart
        } else if kw(b, a, z, "block") || kw(b, a, z, "block-beta") {
            MermaidDiagramType::Block
        } else if kw(b, a, z, "packet") || kw(b, a, z, "packet-beta") {
            MermaidDiagramType::Packet
        } else if kw(b, a, z, "architecture") || kw(b, a, z, "architecture-beta") {
            MermaidDiagramType::Architecture
        } else if kw(b, a, z, "kanban") {
            MermaidDiagramType::Kanban
        } else if kw(b, a, z, "radar") || kw(b, a, z, "radar-beta") {
            MermaidDiagramType::Radar
        } else {
            MermaidDiagramType::Unknown
        }
    }

    /// Stable wire value of the diagram type.
    pub open spec fn wire(self) -> u8 {
        match self {
            MermaidDiagramType::Unknown => 0,
            MermaidDiagramType::Flowchart => 1,
            MermaidDiagramType::Graph => 2,
            MermaidDiagramType::SequenceDiagram => 3,
            MermaidDiagramType::ClassDiagram => 4,
            MermaidDiagramType::StateDiagram => 5,
            MermaidDiagramType::ErDiagram => 6,
            MermaidDiagramType::Gantt => 7,
            MermaidDiagramType::Mindmap => 8,
            MermaidDiagramType::Pie => 9,
            MermaidDiagramType::Journey => 10,
            MermaidDiagramType::Timeline => 11,
            MermaidDiagramType::GitGraph => 12,
            MermaidDiagramType::C4 => 13,
            MermaidDiagramType::RequirementDiagram => 14,
            MermaidDiagramType::Quadrant => 15,
            MermaidDiagramType::Sankey => 16,
            MermaidDiagramType::XYChart => 17,
            MermaidDiagramType::Block => 18,
            MermaidDiagramType::Packet => 19,
            MermaidDiagramType::Architecture => 20,
            MermaidDiagramType::Kanban => 21,
            MermaidDiagramType::Radar => 22,
        }
    }

    /// Stable wire value of the diagram type.
    pub fn as_u8(self) -> (v: u8)
        ensures
            v == self.wire(),
    {
        match self {
            MermaidDiagramType::Unknown => 0,
            MermaidDiagramType::Flowchart => 1,
            MermaidDiagramType::Graph => 2,
            MermaidDiagramType::SequenceDiagram => 3,
            MermaidDiagramType::ClassDiagram => 4,
            MermaidDiagramType::StateDiagram => 5,
            MermaidDiagramType::ErDiagram => 6,
            MermaidDiagramType::Gantt => 7,
            MermaidDiagramType::Mindmap => 8,
            MermaidDiagramType::Pie => 9,
            MermaidDiagramType::Journey => 10,
            MermaidDiagramType::Timeline => 11,
            MermaidDiagramType::GitGraph => 12,
            MermaidDiagramType::C4 => 13,
            MermaidDiagramType::RequirementDiagram => 14,
            MermaidDiagramType::Quadrant => 15,
            MermaidDiagramType::Sankey => 16,
            MermaidDiagramType::XYChart => 17,
            MermaidDiagramType::Block => 18,
            MermaidDiagramType::Packet => 19,
            MermaidDiagramType::Architecture => 20,
            MermaidDiagramType::Kanban => 21,
            MermaidDiagramType::Radar => 22,
        }
    }
}

/// Distinct diagram types have distinct wire values.
pub proof fn lemma_mermaid_wire_injective(a: MermaidDiagramType, b: MermaidDiagramType)
    ensures
        a.wire() == b.wire() ==> a == b,
{
}

/// Case-insensitive check for the `mermaid` info string on a fenced code block.
pub fn is_mermaid_info_string(info: &str) -> (r: bool)
    ensures
        r == kw_is(info.spec_bytes(), "mermaid".spec_bytes()),
{
    let b = info.as_bytes();
    let r = kw(b, 0, b.len(), "mermaid");
    proof {
        assert(b@.subrange(0, b@.len() as int) =~= b@);
    }
    r
}

/// Callout kind (`[!note]`, `[!tip]`, ...).
#[derive(Debug, Clone, Copy, PartialEq, Eq)]
pub enum CalloutKind {
    Note,
    Tip,
    Warning,
    Important,
    Caution,
}

/// Callout kind named (case-insensitively) by `name`.
pub open spec fn callout_kind_of(name: Seq<u8>) -> Option<CalloutKind> {
    if kw_is(name, "note".spec_bytes()) {
        Some(CalloutKind::Note)
    } else if kw_is(name, "tip".spec_bytes()) {
        Some(CalloutKind::Tip)
    } else if kw_is(name, "warning".spec_bytes()) {
        Some(CalloutKind::Warning)
    } else if kw_is(name, "important".spec_bytes()) {
        Some(CalloutKind::Important)
    } else if kw_is(name, "caution".spec_bytes()) {
        Some(CalloutKind::Caution)
    } else {
        None
    }
}

impl CalloutKind {
    /// Kind for the bytes `b[lo..hi]`.
    pub fn from_name_bytes(b: &[u8], lo: usize, hi: usize) -> (k: Option<Self>)
        requires
            lo <= hi <= b@.len(),
        ensures
            k == callout_kind_of(b@.subrange(lo as int, hi as int)),
    {
        if kw(b, lo, hi, "note") {
            Some(CalloutKind::Note)
        } else if kw(b, lo, hi, "tip") {
            Some(CalloutKind::Tip)
        } else if kw(b, lo, hi, "warning") {
            Some(CalloutKind::Warning)
        } else if kw(b, lo, hi, "important") {
            Some(CalloutKind::Important)
        } else if kw(b, lo, hi, "caution") {
            Some(CalloutKind::Caution)
        } else {
            None
        }
    }

    /// Kind named by `s` (case-insensitive), or `None` for unknown names.
    pub fn from_name(s: &str) -> (k: Option<Self>)
        ensures
            k == callout_kind_of(s.spec_bytes()),
    {
        let b = s.as_bytes();
        proof {
            assert(b@.subrange(0, b@.len() as int) =~= b@);
        }
        Self::from_name_bytes(b, 0, b.len())
    }

    /// Stable wire value of the kind.
    pub open spec fn wire(self) -> u8 {
        match self {
            CalloutKind::Note => 0,
            CalloutKind::Tip => 1,
            CalloutKind::Warning => 2,
            CalloutKind::Important => 3,
            CalloutKind::Caution => 4,
        }
    }

    /// Stable wire value of the kind.
    pub fn as_u8(self) -> (v: u8)
        ensures
            v == self.wire(),
    {
        match self {
            CalloutKind::Note => 0,
            CalloutKind::Tip => 1,
            CalloutKind::Warning => 2,
            CalloutKind::Important => 3,
            CalloutKind::Caution => 4,
        }
    }
}

/// A single list item (used inside BulletList/OrderedList).
#[derive(Debug, Clone, PartialEq)]
pub struct ListItem {
    pub text: String,
    /// Inline spans within this list item (offsets relative to document).
    pub inline_spans: Vec<InlineSpan>,
}

/// An inline formatting span.
#[derive(Debug, Clone, PartialEq)]
pub struct InlineSpan {
    pub kind: InlineKind,
    /// UTF-16 offset of the full span (including markers).
    pub utf16_start: u32,
    /// UTF-16 end offset (exclusive).
    pub utf16_end: u32,
    /// UTF-16 offset of inner content (after opening marker).
    pub content_utf16_start: u32,
    /// UTF-16 end of inner content (before closing marker).
    pub content_utf16_end: u32,
}

impl InlineSpan {
    /// The content range lies inside the span range.
    pub open spec fn nested(&self) -> bool {
        self.utf16_start <= self.content_utf16_start <= self.content_utf16_end <= self.utf16_end
    }
}

/// Inline formatting kind.
#[derive(Debug, Clone, PartialEq)]
pub enum InlineKind {
    Bold,
    Italic,
    BoldItalic,
    Strikethrough,
    UnderlineTilde,
    UnderlineHtml,
    InlineCode,
    Highlight,
    /// Colored highlight: 0=red, 1=orange, 2=yellow, 3=green, 4=blue, 5=purple.
    HighlightColor(u8),
    /// Highlight with an arbitrary hex color, normalized to 6 lowercase digits.
    HighlightHex { hex: String },
    Link { url: String },
    /// Bare URL detected in text.
    AutoLink { url: String },
    WikiLink,
    FootnoteRef,
    /// `%%hidden%%` drafting comment.
    Comment,
    /// `#RGB`, `#RGBA`, `#RRGGBB`, `#RRGGBBAA` literal, normalized to 6 digits.
    HexColor { hex: String },
}

/// Column alignment for markdown tables.
#[derive(Debug, Clone, Copy, PartialEq, Eq)]
pub enum ColumnAlignment {
    Default,
    Left,
    Center,
    Right,
}

/// Parse mode controls whether list items are grouped or individual.
#[derive(Debug, Clone, Copy, PartialEq, Eq)]
pub enum ParseMode {
    /// Groups consecutive list items into BulletList/OrderedList (for rendering).
    Grouped,
    /// Each list item is its own block (for the block editor).
    Editable,
}

} // verus!
