//! Inline resource references (links and images) of a document, in source
//! order, for attachment management.
use vstd::prelude::*;
use vstd::string::StringSliceAdditionalSpecFns;
use crate::ast::{BlockKind, BlockNode, Document, InlineKind, InlineSpan, ListItem, ParseMode};
use crate::parser::{ParseOptions, parse_with_options, document_of, blocks_follow_rules};
use crate::utf16::{Utf16Map, MAX_SOURCE_LEN, byte_offset_of_utf16};

verus! {

/// A markdown link or image in the source, in UTF-16 units.
#[derive(Debug, Clone, PartialEq, Eq)]
pub struct ResourceReference {
    /// Start of the reference (the `!` of an image).
    pub utf16_start: u32,
    pub utf16_end: u32,
    pub label_utf16_start: u32,
    pub label_utf16_end: u32,
    pub destination: String,
    pub is_image: bool,
}

/// References ordered by start.
pub open spec fn refs_sorted(r: Seq<ResourceReference>) -> bool {
    forall|i: int, j: int| 0 <= i < j < r.len() ==> #[trigger] r[i].utf16_start <= #[trigger] r[j].utf16_start
}

/// Number of `\` bytes right before position `c`.
pub open spec fn backslashes_before(s: Seq<u8>, c: int) -> nat
    decreases c,
{
    if 0 < c <= s.len() && s[c - 1] == 92u8 {
        1 + backslashes_before(s, c - 1)
    } else {
        0
    }
}

/// An unescaped `!` right before byte `bs`.
pub open spec fn image_bang(s: Seq<u8>, bs: int) -> bool {
    0 < bs <= s.len() && s[bs - 1] == 33u8 && backslashes_before(s, bs - 1) % 2 == 0
}

/// The reference a span of `s` gives: a link gives one, an image when an
/// unescaped `!` precedes it (the reference then starts at the `!`).
pub open spec fn reference_spec(s: Seq<u8>, sp: InlineSpan) -> Option<ResourceReference> {
    match sp.kind {
        InlineKind::Link { url } => {
            let bo = byte_offset_of_utf16(s, sp.utf16_start as int);
            let bs = if bo < s.len() {
                bo
            } else {
                s.len() as int
            };
            let img = sp.utf16_start > 0 && image_bang(s, bs);
            Some(
                ResourceReference {
                    utf16_start: (if img {
                        sp.utf16_start - 1
                    } else {
                        sp.utf16_start as int
                    }) as u32,
                    utf16_end: sp.utf16_end,
                    label_utf16_start: sp.content_utf16_start,
                    label_utf16_end: sp.content_utf16_end,
                    destination: url,
                    is_image: img,
                },
            )
        },
        _ => None,
    }
}

/// The references of the spans, in order.
pub open spec fn span_refs(s: Seq<u8>, sps: Seq<InlineSpan>) -> Seq<ResourceReference>
    decreases sps.len(),
{
    if sps.len() == 0 {
        Seq::empty()
    } else {
        span_refs(s, sps.drop_last()) + match reference_spec(s, sps.last()) {
            Some(r) => seq![r],
            None => Seq::empty(),
        }
    }
}

/// The references of the list items, in order.
pub open spec fn item_refs(s: Seq<u8>, items: Seq<ListItem>) -> Seq<ResourceReference>
    decreases items.len(),
{
    if items.len() == 0 {
        Seq::empty()
    } else {
        item_refs(s, items.drop_last()) + span_refs(s, items.last().inline_spans@)
    }
}

/// The references of one block: its spans, then those of its list items.
pub open spec fn block_refs(s: Seq<u8>, b: BlockNode) -> Seq<ResourceReference> {
    span_refs(s, b.inline_spans@) + match b.kind {
        BlockKind::BulletList { items } => item_refs(s, items@),
        BlockKind::OrderedList { items, .. } => item_refs(s, items@),
        _ => Seq::empty(),
    }
}

/// The references of the blocks, in order.
pub open spec fn blocks_refs(s: Seq<u8>, bs: Seq<BlockNode>) -> Seq<ResourceReference>
    decreases bs.len(),
{
    if bs.len() == 0 {
        Seq::empty()
    } else {
        blocks_refs(s, bs.drop_last()) + block_refs(s, bs.last())
    }
}

/// Where `x` goes into `out` (sorted by start), searching back from `p`:
/// after every reference that starts no later than it.
pub open spec fn insert_pos(out: Seq<ResourceReference>, x: ResourceReference, p: int) -> int
    decreases p,
{
    if p > 0 && out[p - 1].utf16_start > x.utf16_start {
        insert_pos(out, x, p - 1)
    } else {
        p
    }
}

/// The references stably sorted by start (insertion in order).
pub open spec fn sorted_refs(v: Seq<ResourceReference>) -> Seq<ResourceReference>
    decreases v.len(),
{
    if v.len() == 0 {
        Seq::empty()
    } else {
        let out = sorted_refs(v.drop_last());
        out.insert(insert_pos(out, v.last(), out.len() as int), v.last())
    }
}

/// The references with each run of the same range kept once (the first).
pub open spec fn dedup_refs(v: Seq<ResourceReference>) -> Seq<ResourceReference>
    decreases v.len(),
{
    if v.len() == 0 {
        Seq::empty()
    } else {
        let d = dedup_refs(v.drop_last());
        let x = v.last();
        if d.len() > 0 && d.last().utf16_start == x.utf16_start && d.last().utf16_end
            == x.utf16_end {
            d
        } else {
            d.push(x)
        }
    }
}

/// Whether the link span starting at byte `bs` is an image: an unescaped
/// `!` right before it.
fn is_image_at(b: &[u8], bs: usize) -> (r: bool)
    requires
        bs <= b@.len(),
    ensures
        r == image_bang(b@, bs as int),
{
    if bs == 0 || b[bs - 1] != 33u8 {
        return false;
    }
    let mut escapes: usize = 0;
    let mut cursor = bs - 1;
    while cursor > 0 && b[cursor - 1] == 92u8
        invariant
            cursor < bs <= b@.len(),
            escapes + cursor == bs - 1,
            backslashes_before(b@, bs - 1) == escapes + backslashes_before(b@, cursor as int),
        decreases cursor,
    {
        escapes = escapes + 1;
        cursor = cursor - 1;
    }
    escapes % 2 == 0
}

/// The reference of a link span, if the span is a link.
fn reference_of(sp: &InlineSpan, b: &[u8], map: &Utf16Map) -> (r: Option<ResourceReference>)
    requires
        map.wf_for(b@),
    ensures
        r == reference_spec(b@, *sp),
{
    match &sp.kind {
        InlineKind::Link { url } => {
            let bs0 = map.utf16_to_byte(sp.utf16_start, b) as usize;
            let bs = if bs0 < b.len() {
                bs0
            } else {
                b.len()
            };
            let img = sp.utf16_start > 0 && is_image_at(b, bs);
            Some(
                ResourceReference {
                    utf16_start: if img {
                        sp.utf16_start - 1
                    } else {
                        sp.utf16_start
                    },
                    utf16_end: sp.utf16_end,
                    label_utf16_start: sp.content_utf16_start,
                    label_utf16_end: sp.content_utf16_end,
                    destination: url.clone(),
                    is_image: img,
                },
            )
        },
        _ => None,
    }
}

/// Collect the references of a list of spans.
fn collect_refs(out: &mut Vec<ResourceReference>, spans: &Vec<InlineSpan>, b: &[u8], map: &Utf16Map)
    requires
        map.wf_for(b@),
    ensures
        final(out)@ == old(out)@ + span_refs(b@, spans@),
{
    let ghost start = out@;
    let mut k: usize = 0;
    while k < spans.len()
        invariant
            k <= spans@.len(),
            map.wf_for(b@),
            out@ == start + span_refs(b@, spans@.subrange(0, k as int)),
        decreases spans@.len() - k,
    {
        let r = reference_of(&spans[k], b, map);
        proof {
            assert(spans@.subrange(0, k + 1).drop_last() =~= spans@.subrange(0, k as int));
        }
        if let Some(x) = r {
            out.push(x);
        }
        proof {
            assert(out@ =~= start + span_refs(b@, spans@.subrange(0, k + 1)));
        }
        k = k + 1;
    }
    proof {
        assert(spans@.subrange(0, spans@.len() as int) =~= spans@);
    }
}

/// Stable sort of references by start.
fn sort_refs(v: Vec<ResourceReference>) -> (out: Vec<ResourceReference>)
    ensures
        out@ == sorted_refs(v@),
        refs_sorted(out@),
{
    let n = v.len();
    let ghost sv = v@;
    let mut rest = v;
    let mut front: Vec<ResourceReference> = Vec::new();
    while rest.len() > 0
        invariant
            front@.len() + rest@.len() == n,
            n == sv.len(),
            rest@ == sv.subrange(0, rest@.len() as int),
            forall|m: int| 0 <= m < front@.len() ==> #[trigger] front@[m] == sv[n - 1 - m],
        decreases rest@.len(),
    {
        let x = rest.pop().unwrap();
        front.push(x);
    }
    let mut out: Vec<ResourceReference> = Vec::new();
    while front.len() > 0
        invariant
            out@.len() + front@.len() == n,
            n == sv.len(),
            forall|m: int| 0 <= m < front@.len() ==> #[trigger] front@[m] == sv[n - 1 - m],
            out@ == sorted_refs(sv.subrange(0, n - front@.len())),
            refs_sorted(out@),
        decreases front@.len(),
    {
        let ghost done = (n - front@.len()) as int;
        let x = front.pop().unwrap();
        proof {
            assert(x == sv[done]);
            assert(sv.subrange(0, done + 1).drop_last() =~= sv.subrange(0, done));
        }
        let mut p = out.len();
        let mut go = true;
        while p > 0 && go
            invariant
                p <= out@.len(),
                forall|m: int| p <= m < out@.len() ==> x.utf16_start < (#[trigger] out@[m]).utf16_start,
                !go ==> p > 0 && out@[p - 1].utf16_start <= x.utf16_start,
                insert_pos(out@, x, out@.len() as int) == (if go {
                    insert_pos(out@, x, p as int)
                } else {
                    p as int
                }),
            decreases p + (if go { 1int } else { 0int }),
        {
            if out[p - 1].utf16_start > x.utf16_start {
                p = p - 1;
            } else {
                go = false;
            }
        }
        let ghost o = out@;
        out.insert(p, x);
        proof {
            assert forall|i: int, j: int| 0 <= i < j < out@.len() implies #[trigger] out@[i].utf16_start
                <= #[trigger] out@[j].utf16_start by {
                if j < p {
                    assert(out@[i] == o[i] && out@[j] == o[j]);
                } else if i > p {
                    assert(out@[i] == o[i - 1] && out@[j] == o[j - 1]);
                } else if i == p {
                    assert(out@[j] == o[j - 1]);
                } else if j == p {
                    assert(out@[i] == o[i]);
                    if i < p - 1 {
                        assert(o[i].utf16_start <= o[p - 1].utf16_start);
                    }
                } else {
                    assert(out@[i] == o[i] && out@[j] == o[j - 1]);
                }
            }
            assert(out@ == sorted_refs(sv.subrange(0, done + 1)));
        }
    }
    proof {
        assert(sv.subrange(0, n as int) =~= sv);
    }
    out
}

/// Links and images of the document (editable parse), ordered by start,
/// with consecutive references of the same range kept once. The parser's
/// snapshot is not involved.
#[verifier::rlimit(50)]
pub fn resource_references(source: &str, options: &ParseOptions) -> (refs: Vec<ResourceReference>)
    requires
        source.spec_bytes().len() <= MAX_SOURCE_LEN,
    ensures
        exists|doc: Document|
            #![trigger document_of(source.spec_bytes(), ParseMode::Editable, doc)]
            document_of(source.spec_bytes(), ParseMode::Editable, doc) && blocks_follow_rules(
                source.spec_bytes(),
                ParseMode::Editable,
                options.scheme_bytes(),
                doc.blocks@,
            ) && refs@ == dedup_refs(sorted_refs(blocks_refs(source.spec_bytes(), doc.blocks@))),
        refs_sorted(refs@),
        forall|k: int|
            0 <= k < refs@.len() - 1 ==> !((#[trigger] refs@[k]).utf16_start == refs@[k + 1].utf16_start
                && refs@[k].utf16_end == refs@[k + 1].utf16_end),
{
    let doc = parse_with_options(source, ParseMode::Editable, options);
    let b = source.as_bytes();
    let map = Utf16Map::build(b);
    let mut found: Vec<ResourceReference> = Vec::new();
    let mut k: usize = 0;
    while k < doc.blocks.len()
        invariant
            k <= doc.blocks@.len(),
            map.wf_for(b@),
            found@ == blocks_refs(b@, doc.blocks@.subrange(0, k as int)),
        decreases doc.blocks@.len() - k,
    {
        let blk = &doc.blocks[k];
        let ghost before = found@;
        collect_refs(&mut found, &blk.inline_spans, b, &map);
        let ghost mid = found@;
        match &blk.kind {
            BlockKind::BulletList { items } | BlockKind::OrderedList { items, .. } => {
                let mut j: usize = 0;
                while j < items.len()
                    invariant
                        j <= items@.len(),
                        map.wf_for(b@),
                        found@ == mid + item_refs(b@, items@.subrange(0, j as int)),
                    decreases items@.len() - j,
                {
                    collect_refs(&mut found, &items[j].inline_spans, b, &map);
                    proof {
                        assert(items@.subrange(0, j + 1).drop_last() =~= items@.subrange(0, j as int));
                        assert(found@ =~= mid + item_refs(b@, items@.subrange(0, j + 1)));
                    }
                    j = j + 1;
                }
                proof {
                    assert(items@.subrange(0, items@.len() as int) =~= items@);
                }
            },
            _ => {},
        }
        proof {
            assert(doc.blocks@.subrange(0, k + 1).drop_last() =~= doc.blocks@.subrange(0, k as int));
            assert(found@ =~= blocks_refs(b@, doc.blocks@.subrange(0, k + 1)));
        }
        k = k + 1;
    }
    proof {
        assert(doc.blocks@.subrange(0, doc.blocks@.len() as int) =~= doc.blocks@);
    }
    let sorted = sort_refs(found);
    // Keep the first of each run of references with the same range.
    let mut out: Vec<ResourceReference> = Vec::new();
    let mut i: usize = 0;
    let mut rest = sorted;
    let mut front: Vec<ResourceReference> = Vec::new();
    let n = rest.len();
    let ghost sv = rest@;
    while rest.len() > 0
        invariant
            front@.len() + rest@.len() == n,
            rest@ == sv.subrange(0, rest@.len() as int),
            forall|m: int| 0 <= m < front@.len() ==> #[trigger] front@[m] == sv[n - 1 - m],
            n == sv.len(),
        decreases rest@.len(),
    {
        let x = rest.pop().unwrap();
        front.push(x);
    }
    while front.len() > 0
        invariant
            i + front@.len() == n,
            n == sv.len(),
            refs_sorted(sv),
            forall|m: int| 0 <= m < front@.len() ==> #[trigger] front@[m] == sv[n - 1 - m],
            out@ == dedup_refs(sv.subrange(0, i as int)),
            out@.len() <= i,
            out@.len() > 0 ==> out@[out@.len() - 1].utf16_start <= (if i < n {
                sv[i as int].utf16_start
            } else {
                u32::MAX
            }),
            refs_sorted(out@),
            forall|m: int|
                0 <= m < out@.len() - 1 ==> !((#[trigger] out@[m]).utf16_start == out@[m
                    + 1].utf16_start && out@[m].utf16_end == out@[m + 1].utf16_end),
        decreases front@.len(),
    {
        let x = front.pop().unwrap();
        proof {
            assert(x == sv[i as int]);
            assert(sv.subrange(0, i + 1).drop_last() =~= sv.subrange(0, i as int));
        }
        let dup = out.len() > 0 && out[out.len() - 1].utf16_start == x.utf16_start
            && out[out.len() - 1].utf16_end == x.utf16_end;
        if !dup {
            let ghost o = out@;
            out.push(x);
            proof {
                assert forall|a: int, c: int| 0 <= a < c < out@.len() implies #[trigger] out@[a].utf16_start
                    <= #[trigger] out@[c].utf16_start by {
                    if c < o.len() {
                        assert(out@[a] == o[a] && out@[c] == o[c]);
                    } else {
                        assert(out@[a] == o[a]);
                        if a < o.len() - 1 {
                            assert(o[a].utf16_start <= o[o.len() - 1].utf16_start);
                        }
                    }
                }
            }
        }
        i = i + 1;
        proof {
            if out@.len() > 0 && i < n {
                assert(sv[i - 1].utf16_start <= sv[i as int].utf16_start);
            }
        }
    }
    proof {
        assert(sv.subrange(0, n as int) =~= sv);
    }
    out
}

} // verus!
