//! Writing the split of an autolinked text node into the arena: the text
//! node is replaced in its parent by text nodes and link nodes (each link
//! with one text child showing its displayed text), values copied into the
//! source, positions set where the split gives a source span.
use vstd::prelude::*;
use vstd::string::*;
use vstd::utf8::*;
use crate::arena::{Arena, keeps_children, keeps_data, lists_id, replaced, same_record};
use crate::autolink_plan::{AutolinkNode, NodeView, SourceSpan, node_views};
use crate::codec::{decode_string_ref_data, encode_string_ref_data, read_ref, ref_bytes};
use crate::label_nodes::text_bytes;
use crate::node::{ArenaNode, NodeType, StringRef};
use crate::text::{lemma_encode_concat, str_from_utf8};

verus! {

/// How link type data is laid out: the URL reference, then the title
/// reference (empty for autolinks).
pub open spec fn link_data(url: StringRef, title: StringRef) -> Seq<u8> {
    ref_bytes(url) + ref_bytes(title)
}

/// The arena nodes a split node takes: one for text, two for a link (the
/// link and its text child).
pub open spec fn node_width(v: NodeView) -> int {
    match v {
        NodeView::Text(..) => 1,
        NodeView::Link(..) => 2,
    }
}

/// The arena nodes the first nodes of a split take.
pub open spec fn width_total(vs: Seq<NodeView>) -> int
    decreases vs.len(),
{
    if vs.len() == 0 {
        0
    } else {
        width_total(vs.drop_last()) + node_width(vs.last())
    }
}

/// The id of the arena node of split node `k`, numbering from `base`.
#[verifier::opaque]
pub open spec fn view_id(vs: Seq<NodeView>, base: int, k: int) -> int {
    base + width_total(vs.subrange(0, k))
}

/// The ids of the arena nodes that replace the text node, in order.
pub open spec fn top_ids(vs: Seq<NodeView>, base: int) -> Seq<u32> {
    Seq::new(vs.len(), |k: int| view_id(vs, base, k) as u32)
}

/// A node's position: the source span shifted by `base` (the text node's
/// source offset), or no position (all zero) without a span.
pub open spec fn position_is(n: ArenaNode, pos: Option<SourceSpan>, base: u32) -> bool {
    match pos {
        Some(sp) => {
            &&& n.start_offset == base + sp.start
            &&& n.end_offset == base + sp.end
            &&& n.start_line == sp.start_line
            &&& n.start_column == sp.start_column
            &&& n.end_line == sp.end_line
            &&& n.end_column == sp.end_column
        },
        None => {
            &&& n.start_offset == 0
            &&& n.end_offset == 0
            &&& n.start_line == 0
            &&& n.start_column == 0
            &&& n.end_line == 0
            &&& n.end_column == 0
        },
    }
}

/// Node `id` is a text node with value `value` and position `pos`.
pub open spec fn text_node_is(a: Arena, id: int, value: Seq<char>, pos: Option<SourceSpan>, base: u32) -> bool {
    let n = a.nodes_view()[id];
    &&& a.has_node(id)
    &&& n.node_type == NodeType::Text.code()
    &&& position_is(n, pos, base)
    &&& a.data_in_bounds(id)
    &&& a.data_of(id).len() == 8
    &&& a.str_ok(read_ref(a.data_of(id), 0))
    &&& a.str_of(read_ref(a.data_of(id), 0)) == value
}

/// Node `id` is a link to `url` with an empty title and position `pos`,
/// whose one child, node `id + 1`, is a text node showing `display`.
pub open spec fn link_node_is(
    a: Arena,
    id: int,
    url: Seq<char>,
    display: Seq<char>,
    pos: Option<SourceSpan>,
    base: u32,
) -> bool {
    let n = a.nodes_view()[id];
    &&& a.has_node(id)
    &&& n.node_type == NodeType::Link.code()
    &&& position_is(n, pos, base)
    &&& a.data_in_bounds(id)
    &&& a.data_of(id).len() == 16
    &&& a.str_ok(read_ref(a.data_of(id), 0))
    &&& a.str_of(read_ref(a.data_of(id), 0)) == url
    &&& read_ref(a.data_of(id), 8) == StringRef { offset: 0, len: 0 }
    &&& a.children_in_bounds(id)
    &&& a.children_of(id) == seq![(id + 1) as u32]
    &&& text_node_is(a, id + 1, display, pos, base)
    &&& a.nodes_view()[id + 1].parent == id
}

/// The arena node `id` is what split node `v` of the text `tb` becomes.
#[verifier::opaque]
pub open spec fn view_node_is(a: Arena, id: int, v: NodeView, tb: Seq<u8>, base: u32) -> bool {
    match v {
        NodeView::Text(s, e, pos) => text_node_is(a, id, decode_utf8(tb.subrange(s, e)), pos, base),
        NodeView::Link(s, e, url, from_source, pos) => link_node_is(
            a,
            id,
            url,
            if from_source {
                url
            } else {
                decode_utf8(tb.subrange(s, e))
            },
            pos,
            base,
        ),
    }
}

/// A split node lies in the text, on whole characters where its text is
/// taken from it, and its position fits 32 bits from `base`.
pub open spec fn view_fits(v: NodeView, tb: Seq<u8>, base: u32) -> bool {
    let (s, e, pos, from_text) = match v {
        NodeView::Text(s, e, pos) => (s, e, pos, true),
        NodeView::Link(s, e, _, fs, pos) => (s, e, pos, !fs),
    };
    &&& 0 <= s <= e <= tb.len()
    &&& from_text ==> valid_utf8(tb.subrange(s, e))
    &&& pos matches Some(sp) ==> base + sp.start <= u32::MAX && base + sp.end <= u32::MAX
}

/// The source bytes a split node's values take.
pub open spec fn view_bytes(v: NodeView) -> int {
    match v {
        NodeView::Text(s, e, _) => e - s,
        NodeView::Link(s, e, url, fs, _) => encode_utf8(url).len() + if fs {
            encode_utf8(url).len() as int
        } else {
            e - s
        },
    }
}

/// The source bytes the values of the first split nodes take.
pub open spec fn bytes_total(vs: Seq<NodeView>) -> int
    decreases vs.len(),
{
    if vs.len() == 0 {
        0
    } else {
        bytes_total(vs.drop_last()) + view_bytes(vs.last())
    }
}

/// The arena has room, within 32-bit counts, for the split of text node
/// `text_id` into `vs`, which its parent lists.
#[verifier::opaque]
pub open spec fn autolink_room(a: Arena, text_id: u32, vs: Seq<NodeView>) -> bool {
    let p = a.nodes_view()[text_id as int].parent as int;
    &&& a.has_node(p)
    &&& lists_id(a.children_of(p), text_id as int)
    &&& a.nodes_view().len() + 2 * vs.len() < u32::MAX
    &&& a.type_data_view().len() + 24 * vs.len() <= u32::MAX
    &&& a.source_bytes().len() + bytes_total(vs) <= u32::MAX
    &&& a.children_view().len() + vs.len() + replaced(
        a.children_of(p),
        text_id,
        top_ids(vs, a.nodes_view().len() as int),
    ).len() <= u32::MAX
}

/// `b` is `a` with the text node `text_id` replaced in its parent by the
/// arena nodes of the split `vs` of its value, numbered after the nodes of
/// `a` in order (a link before its text child); everything else is kept.
pub open spec fn autolink_nodes_applied(a: Arena, b: Arena, text_id: u32, vs: Seq<NodeView>) -> bool {
    let n = a.nodes_view()[text_id as int];
    let p = n.parent as int;
    let tb = text_bytes(a, text_id);
    let n0 = a.nodes_view().len() as int;
    &&& b.well_formed()
    &&& b.nodes_view().len() == n0 + width_total(vs)
    &&& b.children_of(p) == replaced(a.children_of(p), text_id, top_ids(vs, n0))
    &&& forall|k: int|
        0 <= k < vs.len() ==> view_node_is(b, view_id(vs, n0, k), #[trigger] vs[k], tb, n.start_offset)
            && b.nodes_view()[view_id(vs, n0, k)].parent == p
    &&& keeps_data(a, b, -1)
    &&& keeps_children(a, b, p)
}

proof fn lemma_width_total_prefix(vs: Seq<NodeView>, k: int)
    requires
        0 <= k < vs.len(),
    ensures
        width_total(vs.subrange(0, k + 1)) == width_total(vs.subrange(0, k)) + node_width(vs[k]),
        width_total(vs.subrange(0, k)) <= 2 * k,
        0 <= width_total(vs.subrange(0, k)),
    decreases k,
{
    let s1 = vs.subrange(0, k + 1);
    assert(s1.drop_last() =~= vs.subrange(0, k));
    if k > 0 {
        lemma_width_total_prefix(vs, k - 1);
    }
}

proof fn lemma_bytes_total_prefix(vs: Seq<NodeView>, k: int)
    requires
        0 <= k < vs.len(),
    ensures
        bytes_total(vs.subrange(0, k + 1)) == bytes_total(vs.subrange(0, k)) + view_bytes(vs[k]),
{
    assert(vs.subrange(0, k + 1).drop_last() =~= vs.subrange(0, k));
}

proof fn lemma_bytes_total_nonneg(ws: Seq<NodeView>)
    requires
        forall|j: int| 0 <= j < ws.len() ==> view_bytes(#[trigger] ws[j]) >= 0,
    ensures
        bytes_total(ws) >= 0,
    decreases ws.len(),
{
    if ws.len() > 0 {
        assert forall|j: int| 0 <= j < ws.drop_last().len() implies view_bytes(#[trigger] ws.drop_last()[j]) >= 0 by {
            assert(ws.drop_last()[j] == ws[j]);
        }
        lemma_bytes_total_nonneg(ws.drop_last());
        assert(view_bytes(ws[ws.len() - 1]) >= 0);
    }
}

/// Every view's bytes count is non-negative, so prefixes count no more.
proof fn lemma_bytes_total_mono(vs: Seq<NodeView>, k: int)
    requires
        0 <= k <= vs.len(),
        forall|j: int| 0 <= j < vs.len() ==> view_bytes(#[trigger] vs[j]) >= 0,
    ensures
        0 <= bytes_total(vs.subrange(0, k)) <= bytes_total(vs),
    decreases vs.len() - k,
{
    assert forall|j: int| 0 <= j < vs.subrange(0, k).len() implies view_bytes(#[trigger] vs.subrange(0, k)[j]) >= 0 by {
        assert(vs.subrange(0, k)[j] == vs[j]);
    }
    lemma_bytes_total_nonneg(vs.subrange(0, k));
    if k < vs.len() {
        lemma_bytes_total_mono(vs, k + 1);
        lemma_bytes_total_prefix(vs, k);
    } else {
        assert(vs.subrange(0, k) =~= vs);
    }
}

proof fn lemma_view_id(vs: Seq<NodeView>, base: int, k: int)
    requires
        0 <= k < vs.len(),
    ensures
        view_id(vs, base, k + 1) == view_id(vs, base, k) + node_width(vs[k]),
        view_id(vs, base, 0) == base,
        base <= view_id(vs, base, k) <= base + 2 * k,
{
    reveal(view_id);
    lemma_width_total_prefix(vs, k);
    assert(vs.subrange(0, 0) =~= Seq::<NodeView>::empty());
}

proof fn lemma_view_id_total(vs: Seq<NodeView>, base: int)
    ensures
        view_id(vs, base, vs.len() as int) == base + width_total(vs),
{
    reveal(view_id);
    assert(vs.subrange(0, vs.len() as int) =~= vs);
}

proof fn lemma_view_id_zero(vs: Seq<NodeView>, base: int)
    ensures
        view_id(vs, base, 0) == base,
{
    reveal(view_id);
    assert(vs.subrange(0, 0) =~= Seq::<NodeView>::empty());
}

proof fn lemma_view_id_mono(vs: Seq<NodeView>, base: int, i: int, j: int)
    requires
        0 <= i < vs.len(),
        0 <= j < vs.len(),
    ensures
        i < j ==> view_id(vs, base, i) + node_width(vs[i]) <= view_id(vs, base, j),
    decreases j,
{
    reveal(view_id);
    if i < j {
        lemma_width_total_prefix(vs, j - 1);
        if i < j - 1 {
            lemma_view_id_mono(vs, base, i, j - 1);
        }
        lemma_width_total_prefix(vs, j - 1);
    }
}

pub(crate) proof fn lemma_replaced_member(kids: Seq<u32>, id: u32, new: Seq<u32>, x: int)
    requires
        lists_id(replaced(kids, id, new), x),
    ensures
        lists_id(kids, x) || lists_id(new, x),
    decreases kids.len(),
{
    if kids.len() > 0 {
        let pre = replaced(kids.drop_last(), id, new);
        let r = replaced(kids, id, new);
        let w = choose|w: int| 0 <= w < r.len() && r[w] as int == x;
        if w < pre.len() {
            assert(r[w] == pre[w]);
            lemma_replaced_member(kids.drop_last(), id, new, x);
            if lists_id(kids.drop_last(), x) {
                let v = choose|v: int| 0 <= v < kids.drop_last().len() && kids.drop_last()[v] as int == x;
                assert(kids[v] == kids.drop_last()[v]);
            }
        } else if kids.last() == id {
            assert(new[w - pre.len()] == r[w]);
        } else {
            assert(kids[kids.len() - 1] == r[w]);
        }
    }
}

/// Nodes written earlier stay what they are while later operations keep
/// their records, extend the type data and children arrays, and append to
/// the source.
proof fn lemma_view_node_kept(a: Arena, b: Arena, id: int, v: NodeView, tb: Seq<u8>, base: u32, t: Seq<char>)
    requires
        view_node_is(a, id, v, tb, base),
        a.nodes_view().len() <= b.nodes_view().len(),
        id + node_width(v) <= a.nodes_view().len(),
        forall|i: int| 0 <= i < a.nodes_view().len() ==> #[trigger] b.nodes_view()[i] == a.nodes_view()[i],
        a.type_data_view().len() <= b.type_data_view().len(),
        b.type_data_view().subrange(0, a.type_data_view().len() as int) == a.type_data_view(),
        a.children_view().len() <= b.children_view().len(),
        b.children_view().subrange(0, a.children_view().len() as int) == a.children_view(),
        b.source_view() == a.source_view() + t,
    ensures
        view_node_is(b, id, v, tb, base),
{
    reveal(view_node_is);
            assert forall|k: int| 0 <= k < a.type_data_view().len() implies b.type_data_view()[k]
            == a.type_data_view()[k] by {
            assert(b.type_data_view().subrange(0, a.type_data_view().len() as int)[k] == b.type_data_view()[k]);
        }
        assert forall|k: int| 0 <= k < a.children_view().len() implies b.children_view()[k]
            == a.children_view()[k] by {
            assert(b.children_view().subrange(0, a.children_view().len() as int)[k] == b.children_view()[k]);
        }
    crate::arena::lemma_keeps(a, b, -1, -1);
    crate::arena::law_data_kept(a, b, -1, id);
    crate::arena::lemma_str_kept(a.source_view(), t, read_ref(a.data_of(id), 0));
    if v is Link {
        crate::arena::law_data_kept(a, b, -1, id + 1);
        crate::arena::lemma_str_kept(a.source_view(), t, read_ref(a.data_of(id + 1), 0));
        crate::arena::law_children_kept(a, b, -1, id);
    }
}

/// Append a string to the source (as `alloc_string`), with the facts the
/// steps below need about the source's length.
pub(crate) fn alloc_value(arena: &mut Arena, s: &str) -> (r: StringRef)
    requires
        old(arena).source_bytes().len() + s.spec_bytes().len() <= u32::MAX,
    ensures
        final(arena).source_view() == old(arena).source_view() + s@,
        final(arena).source_bytes().len() == old(arena).source_bytes().len() + s.spec_bytes().len(),
        final(arena).str_ok(r),
        final(arena).str_of(r) == s@,
        final(arena).nodes_view() == old(arena).nodes_view(),
        final(arena).children_view() == old(arena).children_view(),
        final(arena).type_data_view() == old(arena).type_data_view(),
{
    proof {
        lemma_encode_concat(arena.source_view(), s@);
    }
    arena.alloc_string(s)
}

/// Allocate a text node with value `value` and position `pos`.
pub(crate) fn add_text(arena: &mut Arena, value: &str, pos: Option<SourceSpan>, base: u32) -> (id: u32)
    requires
        old(arena).well_formed(),
        old(arena).nodes_view().len() < u32::MAX,
        old(arena).type_data_view().len() + 8 <= u32::MAX,
        old(arena).source_bytes().len() + value.spec_bytes().len() <= u32::MAX,
        pos matches Some(sp) ==> base + sp.start <= u32::MAX && base + sp.end <= u32::MAX,
    ensures
        id == old(arena).nodes_view().len(),
        final(arena).nodes_view().len() == id + 1,
        final(arena).well_formed(),
        forall|i: int| 0 <= i < id ==> #[trigger] final(arena).nodes_view()[i] == old(arena).nodes_view()[i],
        final(arena).children_view() == old(arena).children_view(),
        final(arena).type_data_view() == old(arena).type_data_view() + ref_bytes(read_ref(final(arena).data_of(id as int), 0)),
        final(arena).source_view() == old(arena).source_view() + value@,
        final(arena).source_bytes().len() == old(arena).source_bytes().len() + value.spec_bytes().len(),
        text_node_is(*final(arena), id as int, value@, pos, base),
        final(arena).nodes_view()[id as int].children_count == 0,
{
    let ghost a0 = *arena;
    let sr = alloc_value(arena, value);
    let id = arena.alloc_node(NodeType::Text);
    let data = encode_string_ref_data(sr);
    arena.set_type_data(id, data.as_slice());
    if let Some(sp) = pos {
        arena.set_position(id, base + sp.start as u32, base + sp.end as u32, sp.start_line, sp.start_column, sp.end_line, sp.end_column);
    }
    proof {
        let a4 = *arena;
        crate::codec::lemma_ref_roundtrip(sr, Seq::empty(), Seq::empty());
        assert(Seq::<u8>::empty() + ref_bytes(sr) + Seq::<u8>::empty() =~= ref_bytes(sr));
        assert(a4.data_of(id as int) =~= ref_bytes(sr));
        assert(read_ref(a4.data_of(id as int), 0) == sr);
        assert forall|i: int| 0 <= i < a4.nodes_view().len() implies {
            &&& a4.children_in_bounds(i)
            &&& a4.data_in_bounds(i)
            &&& forall|k: int|
                0 <= k < a4.children_of(i).len() ==> i < #[trigger] a4.children_of(i)[k]
                    < a4.nodes_view().len()
        } by {
            if i < id {
                assert(a0.nodes_view()[i] == a0.nodes_view()[i]);
                assert(a4.children_of(i) == a0.children_of(i));
                assert(a4.data_of(i) =~= a0.data_of(i));
            } else {
                assert(a4.children_of(i) =~= Seq::<u32>::empty());
            }
        }
        assert(a4.well_formed());
    }
    id
}

/// Allocate a link to `url` (empty title) with position `pos` and its text
/// child showing `display`.
fn add_link(arena: &mut Arena, url: &str, display: &str, pos: Option<SourceSpan>, base: u32) -> (id: u32)
    requires
        old(arena).well_formed(),
        old(arena).nodes_view().len() + 2 < u32::MAX,
        old(arena).type_data_view().len() + 24 <= u32::MAX,
        old(arena).source_bytes().len() + url.spec_bytes().len() + display.spec_bytes().len() <= u32::MAX,
        old(arena).children_view().len() + 1 <= u32::MAX,
        pos matches Some(sp) ==> base + sp.start <= u32::MAX && base + sp.end <= u32::MAX,
    ensures
        id == old(arena).nodes_view().len(),
        final(arena).nodes_view().len() == id + 2,
        final(arena).well_formed(),
        forall|i: int| 0 <= i < id ==> #[trigger] final(arena).nodes_view()[i] == old(arena).nodes_view()[i],
        final(arena).children_view() == old(arena).children_view().push((id + 1) as u32),
        final(arena).type_data_view().len() == old(arena).type_data_view().len() + 24,
        final(arena).type_data_view().subrange(0, old(arena).type_data_view().len() as int)
            == old(arena).type_data_view(),
        final(arena).source_view() == old(arena).source_view() + url@ + display@,
        final(arena).source_bytes().len() == old(arena).source_bytes().len() + url.spec_bytes().len()
            + display.spec_bytes().len(),
        link_node_is(*final(arena), id as int, url@, display@, pos, base),
{
    let ghost a0 = *arena;
    let url_sr = alloc_value(arena, url);
    let id = arena.alloc_node(NodeType::Link);
    let mut data = encode_string_ref_data(url_sr);
    let mut title = encode_string_ref_data(StringRef::empty());
    data.append(&mut title);
    arena.set_type_data(id, data.as_slice());
    if let Some(sp) = pos {
        arena.set_position(id, base + sp.start as u32, base + sp.end as u32, sp.start_line, sp.start_column, sp.end_line, sp.end_column);
    }
    let ghost a1 = *arena;
    proof {
        assert forall|i: int| 0 <= i < a1.nodes_view().len() implies {
            &&& a1.children_in_bounds(i)
            &&& a1.data_in_bounds(i)
            &&& forall|k: int|
                0 <= k < a1.children_of(i).len() ==> i < #[trigger] a1.children_of(i)[k]
                    < a1.nodes_view().len()
        } by {
            if i < id {
                assert(a0.nodes_view()[i] == a0.nodes_view()[i]);
                assert(a1.children_of(i) == a0.children_of(i));
                assert(a1.data_of(i) =~= a0.data_of(i));
            } else {
                assert(a1.children_of(i) =~= Seq::<u32>::empty());
            }
        }
        assert(a1.well_formed());
    }
    let tid = add_text(arena, display, pos, base);
    let ghost a2 = *arena;
    let kids: [u32; 1] = [tid];
    assert(kids@ =~= seq![tid]);
    arena.set_children(id, &kids);
    proof {
        let a3 = *arena;
        assert(a2.nodes_view()[id as int] == a1.nodes_view()[id as int]);
        crate::arena::lemma_set_children_wf(a2, a3, id as int);
        crate::codec::lemma_ref_roundtrip(url_sr, Seq::empty(), ref_bytes(StringRef { offset: 0, len: 0 }));
        crate::codec::lemma_ref_roundtrip(StringRef { offset: 0, len: 0 }, ref_bytes(url_sr), Seq::empty());
        assert(a1.data_of(id as int) =~= ref_bytes(url_sr) + ref_bytes(StringRef { offset: 0, len: 0 }));
        assert(Seq::<u8>::empty() + ref_bytes(url_sr) + ref_bytes(StringRef { offset: 0, len: 0 })
            =~= a1.data_of(id as int));
        assert(ref_bytes(url_sr) + ref_bytes(StringRef { offset: 0, len: 0 }) + Seq::<u8>::empty()
            =~= a1.data_of(id as int));
                                    assert forall|k: int| 0 <= k < a1.type_data_view().len() implies a2.type_data_view()[k]
                    == a1.type_data_view()[k] by {}
                    crate::arena::lemma_keeps(a1, a2, -1, -1);
        crate::arena::law_data_kept(a1, a2, -1, id as int);
        crate::arena::law_data_kept(a2, a3, -1, id as int);
        crate::arena::law_data_kept(a2, a3, -1, tid as int);
        crate::arena::lemma_str_kept(a0.source_view() + url@, display@, url_sr);
        assert(a3.nodes_view()[tid as int] == crate::arena::after_set_children(
            a2.nodes_view()[tid as int],
            tid as int,
            id,
            a2.children_view().len() as u32,
            seq![tid],
        ));
        assert(lists_id(seq![tid], tid as int));
        assert(a3.children_of(id as int) =~= seq![tid]);
        assert forall|i: int| 0 <= i < id implies #[trigger] a3.nodes_view()[i] == a0.nodes_view()[i] by {
            assert(!lists_id(seq![tid], i));
            assert(a2.nodes_view()[i] == a0.nodes_view()[i]);
        }
        assert(a3.type_data_view().subrange(0, a0.type_data_view().len() as int) =~= a0.type_data_view());
    }
    id
}

/// The characters a split node's values append to the source.
pub open spec fn view_chars(v: NodeView, tb: Seq<u8>) -> Seq<char> {
    match v {
        NodeView::Text(s, e, _) => decode_utf8(tb.subrange(s, e)),
        NodeView::Link(s, e, url, fs, _) => url + if fs {
            url
        } else {
            decode_utf8(tb.subrange(s, e))
        },
    }
}

/// Write the arena nodes of one split node.
fn write_view(arena: &mut Arena, node: &AutolinkNode, tb: &[u8], base: u32) -> (id: u32)
    requires
        old(arena).well_formed(),
        view_fits(node@, tb@, base),
        old(arena).nodes_view().len() + 2 < u32::MAX,
        old(arena).type_data_view().len() + 24 <= u32::MAX,
        old(arena).source_bytes().len() + view_bytes(node@) <= u32::MAX,
        old(arena).children_view().len() + 1 <= u32::MAX,
    ensures
        id == old(arena).nodes_view().len(),
        final(arena).nodes_view().len() == id + node_width(node@),
        final(arena).well_formed(),
        forall|i: int| 0 <= i < id ==> #[trigger] final(arena).nodes_view()[i] == old(arena).nodes_view()[i],
        old(arena).children_view().len() <= final(arena).children_view().len() <= old(arena).children_view().len() + 1,
        final(arena).children_view().subrange(0, old(arena).children_view().len() as int) == old(arena).children_view(),
        old(arena).type_data_view().len() <= final(arena).type_data_view().len() <= old(arena).type_data_view().len() + 24,
        final(arena).type_data_view().subrange(0, old(arena).type_data_view().len() as int) == old(arena).type_data_view(),
        final(arena).source_view() == old(arena).source_view() + view_chars(node@, tb@),
        final(arena).source_bytes().len() == old(arena).source_bytes().len() + view_bytes(node@),
        view_node_is(*final(arena), id as int, node@, tb@, base),
{
    let ghost a0 = *arena;
    proof {
        reveal(view_node_is);
    }
    match node {
        AutolinkNode::Text { start, end, position } => {
            let value = match str_from_utf8(vstd::slice::slice_subrange(tb, *start, *end)) {
                Some(x) => x,
                None => {
                    proof {
                        assert(false);
                    }
                    ""
                },
            };
            proof {
                encode_utf8_decode_utf8(value@);
                decode_utf8_encode_utf8(tb@.subrange(*start as int, *end as int));
            }
            let id = add_text(arena, value, *position, base);
            proof {
                let a1 = *arena;
                assert(a1.type_data_view().subrange(0, a0.type_data_view().len() as int) =~= a0.type_data_view());
                assert(a1.children_view().subrange(0, a0.children_view().len() as int) =~= a0.children_view());
            }
            id
        },
        AutolinkNode::Link { start, end, url, from_source, position } => {
            let display: &str = if *from_source {
                url.as_str()
            } else {
                match str_from_utf8(vstd::slice::slice_subrange(tb, *start, *end)) {
                    Some(x) => x,
                    None => {
                        proof {
                            assert(false);
                        }
                        ""
                    },
                }
            };
            proof {
                encode_utf8_decode_utf8(display@);
                encode_utf8_decode_utf8(url@);
                if !*from_source {
                    decode_utf8_encode_utf8(tb@.subrange(*start as int, *end as int));
                }
            }
            let id = add_link(arena, url.as_str(), display, *position, base);
            proof {
                let a1 = *arena;
                assert(a1.children_view().subrange(0, a0.children_view().len() as int) =~= a0.children_view());
                assert(a1.source_view() =~= a0.source_view() + view_chars(node@, tb@));
            }
            id
        },
    }
}

/// The nodes written before a step stay what they are after it.
proof fn lemma_step_kept(
    before: Arena,
    after: Arena,
    vs: Seq<NodeView>,
    n0: int,
    k: int,
    tbs: Seq<u8>,
    base: u32,
)
    requires
        0 <= k < vs.len(),
        forall|j: int| 0 <= j < k ==> view_node_is(before, view_id(vs, n0, j), #[trigger] vs[j], tbs, base),
        forall|j: int| 0 <= j < k ==> view_id(vs, n0, j) + node_width(#[trigger] vs[j]) <= before.nodes_view().len(),
        view_node_is(after, view_id(vs, n0, k), vs[k], tbs, base),
        before.nodes_view().len() <= after.nodes_view().len(),
        forall|i: int| 0 <= i < before.nodes_view().len() ==> #[trigger] after.nodes_view()[i] == before.nodes_view()[i],
        extends(before.type_data_view(), after.type_data_view()),
        extends(before.children_view(), after.children_view()),
        after.source_view() == before.source_view() + view_chars(vs[k], tbs),
    ensures
        forall|j: int| 0 <= j < k + 1 ==> view_node_is(after, view_id(vs, n0, j), #[trigger] vs[j], tbs, base),
{
    assert forall|j: int| 0 <= j < k + 1 implies view_node_is(after, view_id(vs, n0, j), #[trigger] vs[j], tbs, base) by {
        if j < k {
            lemma_view_node_kept(before, after, view_id(vs, n0, j), vs[j], tbs, base, view_chars(vs[k], tbs));
        }
    }
}

/// A sequence `y` extends `x`.
pub open spec fn extends<T>(x: Seq<T>, y: Seq<T>) -> bool {
    x.len() <= y.len() && y.subrange(0, x.len() as int) == x
}

pub(crate) proof fn lemma_extends_trans<T>(x: Seq<T>, y: Seq<T>, z: Seq<T>)
    requires
        extends(x, y),
        extends(y, z),
    ensures
        extends(x, z),
{
    assert forall|k: int| 0 <= k < x.len() implies z[k] == x[k] by {
        assert(z.subrange(0, y.len() as int)[k] == z[k]);
        assert(y.subrange(0, x.len() as int)[k] == y[k]);
    }
    assert(z.subrange(0, x.len() as int) =~= x);
}

#[verifier::rlimit(100)]
proof fn lemma_after_replace_one(
    a0: Arena,
    a5: Arena,
    b: Arena,
    text_id: u32,
    vs: Seq<NodeView>,
    ids: Seq<u32>,
    tbs: Seq<u8>,
    base: u32,
    j: int,
)
    requires
        a0.well_formed(),
        a0.has_node(text_id as int),
        a0.nodes_view().len() <= a5.nodes_view().len(),
        ids == top_ids(vs, a0.nodes_view().len() as int),
        0 <= j < vs.len(),
        view_node_is(a5, view_id(vs, a0.nodes_view().len() as int, j), vs[j], tbs, base),
        forall|i: int|
            0 <= i < vs.len() ==> view_id(vs, a0.nodes_view().len() as int, i) + node_width(#[trigger] vs[i]) <= a5.nodes_view().len(),
        a5.nodes_view().len() < u32::MAX,
        ({
            let p = a5.nodes_view()[text_id as int].parent as int;
            &&& b.well_formed()
            &&& b.nodes_view().len() == a5.nodes_view().len()
            &&& keeps_data(a5, b, -1)
            &&& keeps_children(a5, b, p)
            &&& b.children_of(p) == replaced(a5.children_of(p), text_id, ids)
            &&& forall|k: int| 0 <= k < ids.len() ==> b.nodes_view()[#[trigger] ids[k] as int].parent == p
            &&& forall|i: int| 0 <= i < a5.nodes_view().len() ==> same_record(#[trigger] b.nodes_view()[i], a5.nodes_view()[i])
            &&& forall|i: int|
                0 <= i < a5.nodes_view().len() && !lists_id(b.children_of(p), i)
                    ==> (#[trigger] b.nodes_view()[i]).parent == a5.nodes_view()[i].parent
            &&& b.source_view() == a5.source_view()
            &&& a5.children_of(p) == a0.children_of(p)
            &&& a5.nodes_view()[text_id as int] == a0.nodes_view()[text_id as int]
            &&& 0 <= p < a0.nodes_view().len()
        }),
        0 <= j < vs.len(),
    ensures
        view_node_is(b, view_id(vs, a0.nodes_view().len() as int, j), vs[j], tbs, base)
            && b.nodes_view()[view_id(vs, a0.nodes_view().len() as int, j)].parent == a0.nodes_view()[text_id as int].parent,
{
    reveal(view_node_is);
    let n0 = a0.nodes_view().len() as int;
    let p = a5.nodes_view()[text_id as int].parent as int;
    assert(view_node_is(a5, view_id(vs, n0, j), vs[j], tbs, base));
    assert(view_id(vs, n0, j) + node_width(vs[j]) <= a5.nodes_view().len());
        let id = view_id(vs, n0, j);
    lemma_view_id(vs, n0, j);
    assert(ids[j] == id as u32);
    assert(same_record(b.nodes_view()[id], a5.nodes_view()[id]));
    crate::arena::law_data_kept(a5, b, -1, id);
    if vs[j] is Link {
        assert(same_record(b.nodes_view()[id + 1], a5.nodes_view()[id + 1]));
        crate::arena::law_data_kept(a5, b, -1, id + 1);
        assert(a5.children_in_bounds(id));
        crate::arena::law_children_kept(a5, b, p, id);
        assert(!lists_id(b.children_of(p), id + 1)) by {
            if lists_id(b.children_of(p), id + 1) {
                lemma_replaced_member(a5.children_of(p), text_id, ids, id + 1);
                if lists_id(a5.children_of(p), id + 1) {
                    let w = choose|w: int| 0 <= w < a0.children_of(p).len() && a0.children_of(p)[w] as int == id + 1;
                    assert(a0.nodes_view()[p] == a0.nodes_view()[p]);
                    assert(p < a0.children_of(p)[w] < a0.nodes_view().len());
                    assert(false);
                } else {
                    let w = choose|w: int| 0 <= w < ids.len() && ids[w] as int == id + 1;
                    lemma_view_id(vs, n0, w);
                    assert(view_id(vs, n0, w) + node_width(vs[w]) <= a5.nodes_view().len());
                    assert(ids[w] == view_id(vs, n0, w) as u32);
                    assert(view_id(vs, n0, w) == id + 1);
                    lemma_view_id_mono(vs, n0, j, w);
                    lemma_view_id_mono(vs, n0, w, j);
                    assert(false);
                }
            }
        }
        assert(b.nodes_view()[id + 1].parent == a5.nodes_view()[id + 1].parent);
    }
}

/// What the written nodes are after the text node is replaced by them.
proof fn lemma_after_replace(
    a0: Arena,
    a5: Arena,
    b: Arena,
    text_id: u32,
    vs: Seq<NodeView>,
    ids: Seq<u32>,
    tbs: Seq<u8>,
    base: u32,
)
    requires
        a0.well_formed(),
        a0.has_node(text_id as int),
        a0.nodes_view().len() <= a5.nodes_view().len(),
        a5.nodes_view().len() < u32::MAX,
        ids == top_ids(vs, a0.nodes_view().len() as int),
        forall|j: int|
            0 <= j < vs.len() ==> view_node_is(a5, view_id(vs, a0.nodes_view().len() as int, j), #[trigger] vs[j], tbs, base),
        forall|j: int|
            0 <= j < vs.len() ==> view_id(vs, a0.nodes_view().len() as int, j) + node_width(#[trigger] vs[j]) <= a5.nodes_view().len(),
        ({
            let p = a5.nodes_view()[text_id as int].parent as int;
            &&& b.well_formed()
            &&& b.nodes_view().len() == a5.nodes_view().len()
            &&& keeps_data(a5, b, -1)
            &&& keeps_children(a5, b, p)
            &&& b.children_of(p) == replaced(a5.children_of(p), text_id, ids)
            &&& forall|k: int| 0 <= k < ids.len() ==> b.nodes_view()[#[trigger] ids[k] as int].parent == p
            &&& forall|i: int| 0 <= i < a5.nodes_view().len() ==> same_record(#[trigger] b.nodes_view()[i], a5.nodes_view()[i])
            &&& forall|i: int|
                0 <= i < a5.nodes_view().len() && !lists_id(b.children_of(p), i)
                    ==> (#[trigger] b.nodes_view()[i]).parent == a5.nodes_view()[i].parent
            &&& b.source_view() == a5.source_view()
            &&& a5.children_of(p) == a0.children_of(p)
            &&& a5.nodes_view()[text_id as int] == a0.nodes_view()[text_id as int]
            &&& 0 <= p < a0.nodes_view().len()
        }),
    ensures
        forall|j: int|
            0 <= j < vs.len() ==> view_node_is(b, view_id(vs, a0.nodes_view().len() as int, j), #[trigger] vs[j], tbs, base)
                && b.nodes_view()[view_id(vs, a0.nodes_view().len() as int, j)].parent == a0.nodes_view()[text_id as int].parent,
{
    let n0 = a0.nodes_view().len() as int;
    assert forall|j: int| 0 <= j < vs.len() implies view_node_is(b, view_id(vs, n0, j), #[trigger] vs[j], tbs, base)
        && b.nodes_view()[view_id(vs, n0, j)].parent == a0.nodes_view()[text_id as int].parent by {
        lemma_after_replace_one(a0, a5, b, text_id, vs, ids, tbs, base, j);
    }
}

/// Replace the text node `text_id` in its parent by the arena nodes of the
/// split `nodes` of its value (see `split_text_with_autolinks`): each text
/// node becomes a text node, each link a link node (URL, empty title) with
/// one text child showing its displayed text; values are copied into the
/// source; a node with a source span gets the span, shifted by the text
/// node's source offset, as its position.
#[verifier::rlimit(100)]
pub fn apply_autolink_nodes(arena: &mut Arena, text_id: u32, nodes: &[AutolinkNode])
    requires
        crate::label_nodes::text_node_ok(*old(arena), text_id),
        old(arena).data_of(text_id as int).len() >= 8,
        autolink_room(*old(arena), text_id, node_views(nodes@)),
        forall|k: int|
            0 <= k < nodes@.len() ==> view_fits(
                #[trigger] node_views(nodes@)[k],
                text_bytes(*old(arena), text_id),
                old(arena).nodes_view()[text_id as int].start_offset,
            ),
    ensures
        autolink_nodes_applied(*old(arena), *final(arena), text_id, node_views(nodes@)),
{
    let ghost a0 = *arena;
    let ghost vs = node_views(nodes@);
    let node = *arena.get_node(text_id);
    let data = arena.get_type_data(text_id);
    let sr = decode_string_ref_data(data);
    let tb = arena.get_str(sr).as_bytes_vec();
    let ghost tbs = tb@;
    let base = node.start_offset;
    let n0 = arena.len();
    assert(tbs == text_bytes(a0, text_id));
    proof {
        assert forall|j: int| 0 <= j < vs.len() implies view_bytes(#[trigger] vs[j]) >= 0 by {
            assert(view_fits(vs[j], tbs, base));
        }
        lemma_bytes_total_mono(vs, vs.len() as int);
    }
    let mut ids: Vec<u32> = Vec::new();
    let mut k: usize = 0;
    proof {
        reveal(autolink_room);
        lemma_view_id_zero(vs, n0 as int);
    }
    assert(a0.source_view().subrange(0, a0.source_view().len() as int) =~= a0.source_view());
    assert(a0.type_data_view().subrange(0, a0.type_data_view().len() as int) =~= a0.type_data_view());
    assert(a0.children_view().subrange(0, a0.children_view().len() as int) =~= a0.children_view());
    assert(a0.nodes_view().subrange(0, a0.nodes_view().len() as int) =~= a0.nodes_view());
    assert(vs.subrange(0, 0) =~= Seq::<NodeView>::empty());
    while k < nodes.len()
        invariant
            k <= nodes@.len(),
            vs == node_views(nodes@),
            vs.len() == nodes@.len(),
            n0 == a0.nodes_view().len(),
            tbs == tb@,
            arena.well_formed(),
            n0 + 2 * vs.len() < u32::MAX,
            a0.type_data_view().len() + 24 * vs.len() <= u32::MAX,
            a0.source_bytes().len() + bytes_total(vs) <= u32::MAX,
            a0.children_view().len() + vs.len() <= u32::MAX,
            arena.nodes_view().len() == view_id(vs, n0 as int, k as int),
            n0 <= view_id(vs, n0 as int, k as int) <= n0 + 2 * k,
            ids@.len() == k,
            forall|j: int| 0 <= j < k ==> #[trigger] ids@[j] == view_id(vs, n0 as int, j) as u32,
            extends(a0.nodes_view(), arena.nodes_view()),
            arena.children_view().len() <= a0.children_view().len() + k,
            extends(a0.children_view(), arena.children_view()),
            arena.type_data_view().len() <= a0.type_data_view().len() + 24 * k,
            extends(a0.type_data_view(), arena.type_data_view()),
            extends(a0.source_view(), arena.source_view()),
            arena.source_bytes().len() == a0.source_bytes().len() + bytes_total(vs.subrange(0, k as int)),
            0 <= bytes_total(vs.subrange(0, k as int)) <= bytes_total(vs),
            forall|j: int| 0 <= j < vs.len() ==> view_fits(#[trigger] vs[j], tbs, base),
            forall|j: int| 0 <= j < vs.len() ==> view_bytes(#[trigger] vs[j]) >= 0,
            forall|j: int|
                0 <= j < k ==> view_node_is(*arena, view_id(vs, n0 as int, j), #[trigger] vs[j], tbs, base),
            forall|j: int|
                0 <= j < k ==> view_id(vs, n0 as int, j) + node_width(#[trigger] vs[j]) <= arena.nodes_view().len(),
        decreases nodes@.len() - k,
    {
        let ghost before = *arena;
        proof {
            lemma_view_id(vs, n0 as int, k as int);
            lemma_bytes_total_prefix(vs, k as int);
            lemma_bytes_total_mono(vs, k as int + 1);
            assert(vs[k as int] == nodes@[k as int]@);
        }
        let id = write_view(arena, &nodes[k], tb.as_slice(), base);
        proof {
            let after = *arena;
            lemma_step_kept(before, after, vs, n0 as int, k as int, tbs, base);
            assert(extends(before.source_view(), after.source_view())) by {
                assert(after.source_view().subrange(0, before.source_view().len() as int) =~= before.source_view());
            }
            lemma_extends_trans(a0.source_view(), before.source_view(), after.source_view());
            assert(extends(before.nodes_view(), after.nodes_view())) by {
                assert(after.nodes_view().subrange(0, before.nodes_view().len() as int) =~= before.nodes_view());
            }
            lemma_extends_trans(a0.nodes_view(), before.nodes_view(), after.nodes_view());
            lemma_extends_trans(a0.type_data_view(), before.type_data_view(), after.type_data_view());
            lemma_extends_trans(a0.children_view(), before.children_view(), after.children_view());
        }
        ids.push(id);
        k = k + 1;
    }
    let ghost a5 = *arena;
    let ghost p = node.parent as int;
    proof {
        reveal(autolink_room);
        assert(vs.subrange(0, k as int) =~= vs);
        lemma_view_id_total(vs, n0 as int);
        assert(ids@ =~= top_ids(vs, n0 as int));
        assert forall|x: int| 0 <= x < a0.type_data_view().len() implies a5.type_data_view()[x]
            == a0.type_data_view()[x] by {
            assert(a5.type_data_view().subrange(0, a0.type_data_view().len() as int)[x] == a5.type_data_view()[x]);
        }
        assert forall|x: int| 0 <= x < a0.children_view().len() implies a5.children_view()[x]
            == a0.children_view()[x] by {
            assert(a5.children_view().subrange(0, a0.children_view().len() as int)[x] == a5.children_view()[x]);
        }
        assert forall|i: int| 0 <= i < n0 implies #[trigger] a5.nodes_view()[i] == a0.nodes_view()[i] by {
            assert(a5.nodes_view().subrange(0, n0 as int)[i] == a5.nodes_view()[i]);
        }
        crate::arena::lemma_keeps(a0, a5, -1, -1);
        assert(a5.nodes_view()[text_id as int] == a0.nodes_view()[text_id as int]);
        crate::arena::law_children_kept(a0, a5, -1, p);
        assert(a0.nodes_view()[p] == a0.nodes_view()[p]);
        let w = choose|w: int| 0 <= w < a0.children_of(p).len() && a0.children_of(p)[w] as int == text_id as int;
        assert(p < a0.children_of(p)[w]);
        assert forall|j: int| 0 <= j < ids@.len() implies node.parent < #[trigger] ids@[j] < a5.nodes_view().len() by {
            lemma_view_id(vs, n0 as int, j);
            assert(view_id(vs, n0 as int, j) + node_width(vs[j]) <= a5.nodes_view().len());
        }
    }
    arena.replace_node_with_children(text_id, ids.as_slice());
    proof {
        let b = *arena;
        lemma_after_replace(a0, a5, b, text_id, vs, ids@, tbs, base);
        crate::arena::law_keeps_data_trans(a0, a5, b, -1, -1, -1);
        crate::arena::law_keeps_children_trans(a0, a5, b, -1, p, p);
        assert(autolink_nodes_applied(a0, b, text_id, vs));
    }
}

} // verus!
