//! Writing the split of a label's text on JSX elements into the arena: the
//! text node is replaced in its parent by text nodes and JSX text element
//! nodes (each element with one text child holding its content, when it has
//! any), values copied into the source, positions on the text node's line at
//! its column plus the byte offset. The arena stores type data only, so an
//! element carries no separate mark that it was written as explicit JSX.
use vstd::prelude::*;
use vstd::string::*;
use vstd::utf8::*;
use crate::arena::{Arena, keeps_children, keeps_data, lists_id, replaced, same_record};
use crate::autolink_arena::{add_text, alloc_value, extends, lemma_extends_trans, lemma_replaced_member, text_node_is};
use crate::autolink_plan::SourceSpan;
use crate::codec::{decode_string_ref_data, encode_string_ref_data, read_ref, ref_bytes};
use crate::label::{
    JsxPiece, JsxPieceView, close_search, jsx_piece_views, jsx_pieces, jsx_spans, jsx_spans_ordered,
    split_text_on_jsx_tags, tag_len_at, tag_text,
};
use crate::label_nodes::{cut, lemma_cut_valid, text_node_ok};
use crate::mdx::{GT, LT};
use crate::label_nodes::text_bytes;
use crate::node::{NodeType, StringRef};
use crate::text::str_from_utf8;

verus! {

/// How JSX element type data is laid out: the name reference, then the
/// number of attributes (none for a split element), four bytes.
pub open spec fn element_data(name: StringRef) -> Seq<u8> {
    ref_bytes(name) + seq![0u8, 0u8, 0u8, 0u8]
}

/// The position of bytes `[s, e)` of a text on one line: offsets from the
/// text's start, columns from its column.
pub open spec fn column_span(s: int, e: int, line: u32, col: u32) -> SourceSpan {
    SourceSpan {
        start: s as usize,
        end: e as usize,
        start_line: line,
        start_column: (col + s) as u32,
        end_line: line,
        end_column: (col + e) as u32,
    }
}

/// The arena nodes a piece takes: one for text or an empty element, two
/// for an element with content (the element and its text child).
pub open spec fn piece_width(v: JsxPieceView) -> int {
    match v {
        JsxPieceView::Text(..) => 1,
        JsxPieceView::Element(_, _, _, is, ie) => if is < ie {
            2
        } else {
            1
        },
    }
}

/// The arena nodes the first pieces take.
pub open spec fn piece_width_total(vs: Seq<JsxPieceView>) -> int
    decreases vs.len(),
{
    if vs.len() == 0 {
        0
    } else {
        piece_width_total(vs.drop_last()) + piece_width(vs.last())
    }
}

/// The id of the arena node of piece `k`, numbering from `base`.
#[verifier::opaque]
pub open spec fn piece_id(vs: Seq<JsxPieceView>, base: int, k: int) -> int {
    base + piece_width_total(vs.subrange(0, k))
}

/// The ids of the arena nodes that replace the text node, in order.
pub open spec fn piece_ids(vs: Seq<JsxPieceView>, base: int) -> Seq<u32> {
    Seq::new(vs.len(), |k: int| piece_id(vs, base, k) as u32)
}

/// Node `id` is a JSX text element named `name` with no attributes and
/// position `pos`; with `inner`, its one child, node `id + 1`, is a text
/// node with that value and position, else it has no children.
pub open spec fn element_node_is(
    a: Arena,
    id: int,
    name: Seq<char>,
    inner: Option<(Seq<char>, SourceSpan)>,
    pos: SourceSpan,
    base: u32,
) -> bool {
    let n = a.nodes_view()[id];
    &&& a.has_node(id)
    &&& n.node_type == NodeType::MdxJsxTextElement.code()
    &&& crate::autolink_arena::position_is(n, Some(pos), base)
    &&& a.data_in_bounds(id)
    &&& a.data_of(id).len() == 12
    &&& a.str_ok(read_ref(a.data_of(id), 0))
    &&& a.str_of(read_ref(a.data_of(id), 0)) == name
    &&& a.data_of(id).subrange(8, 12) == seq![0u8, 0u8, 0u8, 0u8]
    &&& a.children_in_bounds(id)
    &&& match inner {
        Some((v, sp)) => {
            &&& a.children_of(id) == seq![(id + 1) as u32]
            &&& text_node_is(a, id + 1, v, Some(sp), base)
            &&& a.nodes_view()[id + 1].parent == id
        },
        None => a.children_of(id).len() == 0,
    }
}

/// The content of an element piece, with its position, when it has any.
pub open spec fn piece_inner(v: JsxPieceView, tb: Seq<u8>, line: u32, col: u32) -> Option<(Seq<char>, SourceSpan)> {
    match v {
        JsxPieceView::Element(_, _, _, is, ie) => if is < ie {
            Some((decode_utf8(tb.subrange(is, ie)), column_span(is, ie, line, col)))
        } else {
            None
        },
        JsxPieceView::Text(..) => None,
    }
}

/// The arena node `id` is what piece `v` of the text `tb` becomes.
#[verifier::opaque]
pub open spec fn piece_node_is(a: Arena, id: int, v: JsxPieceView, tb: Seq<u8>, base: u32, line: u32, col: u32) -> bool {
    match v {
        JsxPieceView::Text(s, e) => text_node_is(
            a,
            id,
            decode_utf8(tb.subrange(s, e)),
            Some(column_span(s, e, line, col)),
            base,
        ),
        JsxPieceView::Element(s, e, name, _, _) => element_node_is(
            a,
            id,
            name,
            piece_inner(v, tb, line, col),
            column_span(s, e, line, col),
            base,
        ),
    }
}

/// A piece lies in the text, its text on whole characters.
pub open spec fn piece_fits(v: JsxPieceView, tb: Seq<u8>) -> bool {
    match v {
        JsxPieceView::Text(s, e) => 0 <= s <= e <= tb.len() && valid_utf8(tb.subrange(s, e)),
        JsxPieceView::Element(s, e, _, is, ie) => {
            &&& 0 <= s <= e <= tb.len()
            &&& 0 <= is <= ie <= tb.len()
            &&& valid_utf8(tb.subrange(is, ie))
        },
    }
}

/// The characters a piece's values append to the source.
pub open spec fn piece_chars(v: JsxPieceView, tb: Seq<u8>) -> Seq<char> {
    match v {
        JsxPieceView::Text(s, e) => decode_utf8(tb.subrange(s, e)),
        JsxPieceView::Element(_, _, name, is, ie) => name + if is < ie {
            decode_utf8(tb.subrange(is, ie))
        } else {
            Seq::empty()
        },
    }
}

/// The source bytes a piece's values take.
pub open spec fn piece_bytes(v: JsxPieceView) -> int {
    match v {
        JsxPieceView::Text(s, e) => e - s,
        JsxPieceView::Element(_, _, name, is, ie) => encode_utf8(name).len() + if is < ie {
            ie - is
        } else {
            0
        },
    }
}

/// The source bytes the values of the first pieces take.
pub open spec fn piece_bytes_total(vs: Seq<JsxPieceView>) -> int
    decreases vs.len(),
{
    if vs.len() == 0 {
        0
    } else {
        piece_bytes_total(vs.drop_last()) + piece_bytes(vs.last())
    }
}

/// The arena has room, within 32-bit counts, for the split of text node
/// `text_id` into `vs`, which its parent lists, and the positions of the
/// text's bytes fit 32 bits.
#[verifier::opaque]
pub open spec fn jsx_room(a: Arena, text_id: u32, vs: Seq<JsxPieceView>) -> bool {
    let n = a.nodes_view()[text_id as int];
    let p = n.parent as int;
    let tb = text_bytes(a, text_id);
    &&& a.has_node(p)
    &&& lists_id(a.children_of(p), text_id as int)
    &&& n.start_offset + tb.len() <= u32::MAX
    &&& n.start_column + tb.len() <= u32::MAX
    &&& a.nodes_view().len() + 2 * vs.len() < u32::MAX
    &&& a.type_data_view().len() + 20 * vs.len() <= u32::MAX
    &&& a.source_bytes().len() + piece_bytes_total(vs) <= u32::MAX
    &&& a.children_view().len() + vs.len() + replaced(
        a.children_of(p),
        text_id,
        piece_ids(vs, a.nodes_view().len() as int),
    ).len() <= u32::MAX
}

/// `b` is `a` with the text node `text_id` replaced in its parent by the
/// arena nodes of the pieces `vs` of its value, numbered after the nodes of
/// `a` in order (an element before its text child); everything else is
/// kept.
pub open spec fn jsx_pieces_applied(a: Arena, b: Arena, text_id: u32, vs: Seq<JsxPieceView>) -> bool {
    let n = a.nodes_view()[text_id as int];
    let p = n.parent as int;
    let tb = text_bytes(a, text_id);
    let n0 = a.nodes_view().len() as int;
    &&& b.well_formed()
    &&& b.nodes_view().len() == n0 + piece_width_total(vs)
    &&& b.children_of(p) == replaced(a.children_of(p), text_id, piece_ids(vs, n0))
    &&& forall|k: int|
        0 <= k < vs.len() ==> piece_node_is(
            b,
            piece_id(vs, n0, k),
            #[trigger] vs[k],
            tb,
            n.start_offset,
            n.start_line,
            n.start_column,
        ) && b.nodes_view()[piece_id(vs, n0, k)].parent == p
    &&& keeps_data(a, b, -1)
    &&& keeps_children(a, b, p)
}

proof fn lemma_piece_width_prefix(vs: Seq<JsxPieceView>, k: int)
    requires
        0 <= k < vs.len(),
    ensures
        piece_width_total(vs.subrange(0, k + 1)) == piece_width_total(vs.subrange(0, k)) + piece_width(vs[k]),
        piece_width_total(vs.subrange(0, k)) <= 2 * k,
        0 <= piece_width_total(vs.subrange(0, k)),
    decreases k,
{
    assert(vs.subrange(0, k + 1).drop_last() =~= vs.subrange(0, k));
    if k > 0 {
        lemma_piece_width_prefix(vs, k - 1);
    }
}

proof fn lemma_piece_bytes_prefix(vs: Seq<JsxPieceView>, k: int)
    requires
        0 <= k < vs.len(),
    ensures
        piece_bytes_total(vs.subrange(0, k + 1)) == piece_bytes_total(vs.subrange(0, k)) + piece_bytes(vs[k]),
{
    assert(vs.subrange(0, k + 1).drop_last() =~= vs.subrange(0, k));
}

proof fn lemma_piece_bytes_nonneg(ws: Seq<JsxPieceView>)
    requires
        forall|j: int| 0 <= j < ws.len() ==> piece_bytes(#[trigger] ws[j]) >= 0,
    ensures
        piece_bytes_total(ws) >= 0,
    decreases ws.len(),
{
    if ws.len() > 0 {
        assert forall|j: int| 0 <= j < ws.drop_last().len() implies piece_bytes(#[trigger] ws.drop_last()[j]) >= 0 by {
            assert(ws.drop_last()[j] == ws[j]);
        }
        lemma_piece_bytes_nonneg(ws.drop_last());
        assert(piece_bytes(ws[ws.len() - 1]) >= 0);
    }
}

proof fn lemma_piece_bytes_mono(vs: Seq<JsxPieceView>, k: int)
    requires
        0 <= k <= vs.len(),
        forall|j: int| 0 <= j < vs.len() ==> piece_bytes(#[trigger] vs[j]) >= 0,
    ensures
        0 <= piece_bytes_total(vs.subrange(0, k)) <= piece_bytes_total(vs),
    decreases vs.len() - k,
{
    assert forall|j: int| 0 <= j < vs.subrange(0, k).len() implies piece_bytes(#[trigger] vs.subrange(0, k)[j]) >= 0 by {
        assert(vs.subrange(0, k)[j] == vs[j]);
    }
    lemma_piece_bytes_nonneg(vs.subrange(0, k));
    if k < vs.len() {
        lemma_piece_bytes_mono(vs, k + 1);
        lemma_piece_bytes_prefix(vs, k);
    } else {
        assert(vs.subrange(0, k) =~= vs);
    }
}

proof fn lemma_piece_id(vs: Seq<JsxPieceView>, base: int, k: int)
    requires
        0 <= k < vs.len(),
    ensures
        piece_id(vs, base, k + 1) == piece_id(vs, base, k) + piece_width(vs[k]),
        base <= piece_id(vs, base, k) <= base + 2 * k,
{
    reveal(piece_id);
    lemma_piece_width_prefix(vs, k);
}

proof fn lemma_piece_id_zero(vs: Seq<JsxPieceView>, base: int)
    ensures
        piece_id(vs, base, 0) == base,
{
    reveal(piece_id);
    assert(vs.subrange(0, 0) =~= Seq::<JsxPieceView>::empty());
}

proof fn lemma_piece_id_total(vs: Seq<JsxPieceView>, base: int)
    ensures
        piece_id(vs, base, vs.len() as int) == base + piece_width_total(vs),
{
    reveal(piece_id);
    assert(vs.subrange(0, vs.len() as int) =~= vs);
}

proof fn lemma_piece_id_mono(vs: Seq<JsxPieceView>, base: int, i: int, j: int)
    requires
        0 <= i < vs.len(),
        0 <= j < vs.len(),
    ensures
        i < j ==> piece_id(vs, base, i) + piece_width(vs[i]) <= piece_id(vs, base, j),
    decreases j,
{
    reveal(piece_id);
    if i < j {
        lemma_piece_width_prefix(vs, j - 1);
        if i < j - 1 {
            lemma_piece_id_mono(vs, base, i, j - 1);
        }
    }
}

/// Allocate a JSX text element named `name` with position `pos` and, with
/// `inner`, its text child with that value and position `inner_pos`.
fn add_element(
    arena: &mut Arena,
    name: &str,
    inner: Option<&str>,
    pos: SourceSpan,
    inner_pos: SourceSpan,
    base: u32,
) -> (id: u32)
    requires
        old(arena).well_formed(),
        old(arena).nodes_view().len() + 2 < u32::MAX,
        old(arena).type_data_view().len() + 20 <= u32::MAX,
        old(arena).source_bytes().len() + name.spec_bytes().len() + match inner {
            Some(t) => t.spec_bytes().len() as int,
            None => 0int,
        } <= u32::MAX,
        old(arena).children_view().len() + 1 <= u32::MAX,
        base + pos.start <= u32::MAX && base + pos.end <= u32::MAX,
        base + inner_pos.start <= u32::MAX && base + inner_pos.end <= u32::MAX,
    ensures
        id == old(arena).nodes_view().len(),
        final(arena).nodes_view().len() == id + if inner is Some {
            2int
        } else {
            1int
        },
        final(arena).well_formed(),
        forall|i: int| 0 <= i < id ==> #[trigger] final(arena).nodes_view()[i] == old(arena).nodes_view()[i],
        extends(old(arena).children_view(), final(arena).children_view()),
        final(arena).children_view().len() <= old(arena).children_view().len() + 1,
        extends(old(arena).type_data_view(), final(arena).type_data_view()),
        final(arena).type_data_view().len() <= old(arena).type_data_view().len() + 20,
        final(arena).source_view() == old(arena).source_view() + name@ + match inner {
            Some(t) => t@,
            None => Seq::empty(),
        },
        final(arena).source_bytes().len() == old(arena).source_bytes().len() + name.spec_bytes().len()
            + match inner {
            Some(t) => t.spec_bytes().len() as int,
            None => 0int,
        },
        element_node_is(
            *final(arena),
            id as int,
            name@,
            match inner {
                Some(t) => Some((t@, inner_pos)),
                None => None,
            },
            pos,
            base,
        ),
{
    let ghost a0 = *arena;
    let name_sr = alloc_value(arena, name);
    let id = arena.alloc_node(NodeType::MdxJsxTextElement);
    let mut data = encode_string_ref_data(name_sr);
    data.push(0u8);
    data.push(0u8);
    data.push(0u8);
    data.push(0u8);
    arena.set_type_data(id, data.as_slice());
    arena.set_position(id, base + pos.start as u32, base + pos.end as u32, pos.start_line, pos.start_column, pos.end_line, pos.end_column);
    let ghost a1 = *arena;
    proof {
        assert(data@ =~= element_data(name_sr));
        assert forall|i: int| #![trigger a1.nodes_view()[i]] 0 <= i < a1.nodes_view().len() implies {
            &&& a1.children_in_bounds(i)
            &&& a1.data_in_bounds(i)
            &&& forall|k: int|
                0 <= k < a1.children_of(i).len() ==> i < #[trigger] a1.children_of(i)[k]
                    < a1.nodes_view().len()
        } by {
            if i < id {
                assert(a0.nodes_view()[i] == a0.nodes_view()[i]);
                assert(a1.children_of(i) == a0.children_of(i));
                assert(a1.data_of(i) =~= a0.data_of(i));
            } else {
                assert(a1.children_of(i) =~= Seq::<u32>::empty());
            }
        }
        assert(a1.well_formed());
        crate::codec::lemma_ref_roundtrip(name_sr, Seq::empty(), seq![0u8, 0u8, 0u8, 0u8]);
        assert(a1.data_of(id as int) =~= element_data(name_sr));
        assert(Seq::<u8>::empty() + ref_bytes(name_sr) + seq![0u8, 0u8, 0u8, 0u8] =~= a1.data_of(id as int));
        assert(a1.data_of(id as int).subrange(8, 12) =~= seq![0u8, 0u8, 0u8, 0u8]);
        assert(a1.type_data_view().subrange(0, a0.type_data_view().len() as int) =~= a0.type_data_view());
        assert(a1.children_view().subrange(0, a0.children_view().len() as int) =~= a0.children_view());
        assert(a1.children_of(id as int) =~= Seq::<u32>::empty());
    }
    match inner {
        None => id,
        Some(value) => {
            let tid = add_text(arena, value, Some(inner_pos), base);
            let ghost a2 = *arena;
            let kids: [u32; 1] = [tid];
            assert(kids@ =~= seq![tid]);
            arena.set_children(id, &kids);
            proof {
                let a3 = *arena;
                assert(a2.nodes_view()[id as int] == a1.nodes_view()[id as int]);
                crate::arena::lemma_set_children_wf(a2, a3, id as int);
                assert forall|k: int| 0 <= k < a1.type_data_view().len() implies a2.type_data_view()[k]
                    == a1.type_data_view()[k] by {}
                crate::arena::lemma_keeps(a1, a2, -1, -1);
                crate::arena::law_data_kept(a1, a2, -1, id as int);
                crate::arena::law_data_kept(a2, a3, -1, id as int);
                crate::arena::law_data_kept(a2, a3, -1, tid as int);
                crate::arena::lemma_str_kept(a0.source_view() + name@, value@, name_sr);
                assert(a3.nodes_view()[tid as int] == crate::arena::after_set_children(
                    a2.nodes_view()[tid as int],
                    tid as int,
                    id,
                    a2.children_view().len() as u32,
                    seq![tid],
                ));
                assert(lists_id(seq![tid], tid as int));
                assert(a3.children_of(id as int) =~= seq![tid]);
                assert forall|i: int| 0 <= i < id implies #[trigger] a3.nodes_view()[i] == a0.nodes_view()[i] by {
                    assert(!lists_id(seq![tid], i));
                    assert(a2.nodes_view()[i] == a0.nodes_view()[i]);
                }
                assert(a3.type_data_view().subrange(0, a0.type_data_view().len() as int) =~= a0.type_data_view());
                assert(a3.children_view().subrange(0, a0.children_view().len() as int) =~= a0.children_view());
            }
            id
        },
    }
}

/// The position of bytes `[s, e)` of a text at offset 0 of line `line`,
/// column `col`.
fn span_of_range(s: usize, e: usize, line: u32, col: u32) -> (r: SourceSpan)
    requires
        s <= e,
        col + e <= u32::MAX,
    ensures
        r == column_span(s as int, e as int, line, col),
{
    SourceSpan {
        start: s,
        end: e,
        start_line: line,
        start_column: col + s as u32,
        end_line: line,
        end_column: col + e as u32,
    }
}

/// The text of bytes `[s, e)` of `tb`, which lie on whole characters.
fn text_of_range(tb: &[u8], s: usize, e: usize) -> (r: &str)
    requires
        s <= e <= tb@.len(),
        valid_utf8(tb@.subrange(s as int, e as int)),
    ensures
        r@ == decode_utf8(tb@.subrange(s as int, e as int)),
        r.spec_bytes().len() == e - s,
{
    let r = match str_from_utf8(vstd::slice::slice_subrange(tb, s, e)) {
        Some(x) => x,
        None => {
            proof {
                assert(false);
            }
            ""
        },
    };
    proof {
        encode_utf8_decode_utf8(r@);
        decode_utf8_encode_utf8(tb@.subrange(s as int, e as int));
    }
    r
}

/// Write the arena nodes of one piece.
fn write_piece(arena: &mut Arena, piece: &JsxPiece, tb: &[u8], base: u32, line: u32, col: u32) -> (id: u32)
    requires
        old(arena).well_formed(),
        piece_fits(piece@, tb@),
        base + tb@.len() <= u32::MAX,
        col + tb@.len() <= u32::MAX,
        old(arena).nodes_view().len() + 2 < u32::MAX,
        old(arena).type_data_view().len() + 20 <= u32::MAX,
        old(arena).source_bytes().len() + piece_bytes(piece@) <= u32::MAX,
        old(arena).children_view().len() + 1 <= u32::MAX,
    ensures
        id == old(arena).nodes_view().len(),
        final(arena).nodes_view().len() == id + piece_width(piece@),
        final(arena).well_formed(),
        forall|i: int| 0 <= i < id ==> #[trigger] final(arena).nodes_view()[i] == old(arena).nodes_view()[i],
        old(arena).children_view().len() <= final(arena).children_view().len() <= old(arena).children_view().len() + 1,
        final(arena).children_view().subrange(0, old(arena).children_view().len() as int) == old(arena).children_view(),
        old(arena).type_data_view().len() <= final(arena).type_data_view().len() <= old(arena).type_data_view().len() + 20,
        final(arena).type_data_view().subrange(0, old(arena).type_data_view().len() as int) == old(arena).type_data_view(),
        final(arena).source_view() == old(arena).source_view() + piece_chars(piece@, tb@),
        final(arena).source_bytes().len() == old(arena).source_bytes().len() + piece_bytes(piece@),
        piece_node_is(*final(arena), id as int, piece@, tb@, base, line, col),
{
    let ghost a0 = *arena;
    proof {
        reveal(piece_node_is);
    }
    match piece {
        JsxPiece::Text { start, end } => {
            let value = text_of_range(tb, *start, *end);
            let span = span_of_range(*start, *end, line, col);
            let id = add_text(arena, value, Some(span), base);
            proof {
                let a1 = *arena;
                assert(a1.type_data_view().subrange(0, a0.type_data_view().len() as int) =~= a0.type_data_view());
                assert(a1.children_view().subrange(0, a0.children_view().len() as int) =~= a0.children_view());
            }
            id
        },
        JsxPiece::Element { start, end, name, inner_start, inner_end } => {
            let inner: Option<&str> = if *inner_start < *inner_end {
                Some(text_of_range(tb, *inner_start, *inner_end))
            } else {
                None
            };
            let span = span_of_range(*start, *end, line, col);
            let inner_span = span_of_range(*inner_start, *inner_end, line, col);
            proof {
                encode_utf8_decode_utf8(name@);
            }
            let id = add_element(arena, name.as_str(), inner, span, inner_span, base);
            proof {
                let a1 = *arena;
                assert(a1.type_data_view().subrange(0, a0.type_data_view().len() as int) =~= a0.type_data_view());
                assert(a1.children_view().subrange(0, a0.children_view().len() as int) =~= a0.children_view());
                assert(a1.source_view() =~= a0.source_view() + piece_chars(piece@, tb@));
                assert(piece_inner(piece@, tb@, line, col) == match inner {
                    Some(x) => Some((x@, inner_span)),
                    None => None::<(Seq<char>, SourceSpan)>,
                });
            }
            id
        },
    }
}

/// Nodes written earlier stay what they are while later operations keep
/// their records, extend the type data and children arrays, and append to
/// the source.
proof fn lemma_piece_node_kept(
    a: Arena,
    b: Arena,
    id: int,
    v: JsxPieceView,
    tb: Seq<u8>,
    base: u32,
    line: u32,
    col: u32,
    t: Seq<char>,
)
    requires
        piece_node_is(a, id, v, tb, base, line, col),
        a.nodes_view().len() <= b.nodes_view().len(),
        id + piece_width(v) <= a.nodes_view().len(),
        forall|i: int| 0 <= i < a.nodes_view().len() ==> #[trigger] b.nodes_view()[i] == a.nodes_view()[i],
        a.type_data_view().len() <= b.type_data_view().len(),
        b.type_data_view().subrange(0, a.type_data_view().len() as int) == a.type_data_view(),
        a.children_view().len() <= b.children_view().len(),
        b.children_view().subrange(0, a.children_view().len() as int) == a.children_view(),
        b.source_view() == a.source_view() + t,
    ensures
        piece_node_is(b, id, v, tb, base, line, col),
{
    reveal(piece_node_is);
    assert forall|k: int| 0 <= k < a.type_data_view().len() implies b.type_data_view()[k]
        == a.type_data_view()[k] by {
        assert(b.type_data_view().subrange(0, a.type_data_view().len() as int)[k] == b.type_data_view()[k]);
    }
    assert forall|k: int| 0 <= k < a.children_view().len() implies b.children_view()[k]
        == a.children_view()[k] by {
        assert(b.children_view().subrange(0, a.children_view().len() as int)[k] == b.children_view()[k]);
    }
    crate::arena::lemma_keeps(a, b, -1, -1);
    crate::arena::law_data_kept(a, b, -1, id);
    crate::arena::lemma_str_kept(a.source_view(), t, read_ref(a.data_of(id), 0));
    if v is Element {
        crate::arena::law_children_kept(a, b, -1, id);
        if piece_width(v) == 2 {
            crate::arena::law_data_kept(a, b, -1, id + 1);
            crate::arena::lemma_str_kept(a.source_view(), t, read_ref(a.data_of(id + 1), 0));
        }
    }
}

/// The nodes written before a step stay what they are after it.
proof fn lemma_step_kept(
    before: Arena,
    after: Arena,
    vs: Seq<JsxPieceView>,
    n0: int,
    k: int,
    tbs: Seq<u8>,
    base: u32,
    line: u32,
    col: u32,
)
    requires
        0 <= k < vs.len(),
        forall|j: int| 0 <= j < k ==> piece_node_is(before, piece_id(vs, n0, j), #[trigger] vs[j], tbs, base, line, col),
        forall|j: int| 0 <= j < k ==> piece_id(vs, n0, j) + piece_width(#[trigger] vs[j]) <= before.nodes_view().len(),
        piece_node_is(after, piece_id(vs, n0, k), vs[k], tbs, base, line, col),
        before.nodes_view().len() <= after.nodes_view().len(),
        forall|i: int| 0 <= i < before.nodes_view().len() ==> #[trigger] after.nodes_view()[i] == before.nodes_view()[i],
        extends(before.type_data_view(), after.type_data_view()),
        extends(before.children_view(), after.children_view()),
        after.source_view() == before.source_view() + piece_chars(vs[k], tbs),
    ensures
        forall|j: int| 0 <= j < k + 1 ==> piece_node_is(after, piece_id(vs, n0, j), #[trigger] vs[j], tbs, base, line, col),
{
    assert forall|j: int| 0 <= j < k + 1 implies piece_node_is(after, piece_id(vs, n0, j), #[trigger] vs[j], tbs, base, line, col) by {
        if j < k {
            lemma_piece_node_kept(before, after, piece_id(vs, n0, j), vs[j], tbs, base, line, col, piece_chars(vs[k], tbs));
        }
    }
}

#[verifier::rlimit(100)]
proof fn lemma_after_replace_one(
    a0: Arena,
    a5: Arena,
    b: Arena,
    text_id: u32,
    vs: Seq<JsxPieceView>,
    ids: Seq<u32>,
    tbs: Seq<u8>,
    base: u32,
    line: u32,
    col: u32,
    j: int,
)
    requires
        a0.well_formed(),
        a0.has_node(text_id as int),
        a0.nodes_view().len() <= a5.nodes_view().len(),
        ids == piece_ids(vs, a0.nodes_view().len() as int),
        0 <= j < vs.len(),
        piece_node_is(a5, piece_id(vs, a0.nodes_view().len() as int, j), vs[j], tbs, base, line, col),
        forall|i: int|
            0 <= i < vs.len() ==> piece_id(vs, a0.nodes_view().len() as int, i) + piece_width(#[trigger] vs[i]) <= a5.nodes_view().len(),
        a5.nodes_view().len() < u32::MAX,
        ({
            let p = a5.nodes_view()[text_id as int].parent as int;
            &&& b.well_formed()
            &&& b.nodes_view().len() == a5.nodes_view().len()
            &&& keeps_data(a5, b, -1)
            &&& keeps_children(a5, b, p)
            &&& b.children_of(p) == replaced(a5.children_of(p), text_id, ids)
            &&& forall|k: int| 0 <= k < ids.len() ==> b.nodes_view()[#[trigger] ids[k] as int].parent == p
            &&& forall|i: int| 0 <= i < a5.nodes_view().len() ==> same_record(#[trigger] b.nodes_view()[i], a5.nodes_view()[i])
            &&& forall|i: int|
                0 <= i < a5.nodes_view().len() && !lists_id(b.children_of(p), i)
                    ==> (#[trigger] b.nodes_view()[i]).parent == a5.nodes_view()[i].parent
            &&& b.source_view() == a5.source_view()
            &&& a5.children_of(p) == a0.children_of(p)
            &&& a5.nodes_view()[text_id as int] == a0.nodes_view()[text_id as int]
            &&& 0 <= p < a0.nodes_view().len()
        }),
        0 <= j < vs.len(),
    ensures
        piece_node_is(b, piece_id(vs, a0.nodes_view().len() as int, j), vs[j], tbs, base, line, col)
            && b.nodes_view()[piece_id(vs, a0.nodes_view().len() as int, j)].parent == a0.nodes_view()[text_id as int].parent,
{
    reveal(piece_node_is);
    let n0 = a0.nodes_view().len() as int;
    let p = a5.nodes_view()[text_id as int].parent as int;
    assert(piece_node_is(a5, piece_id(vs, n0, j), vs[j], tbs, base, line, col));
    assert(piece_id(vs, n0, j) + piece_width(vs[j]) <= a5.nodes_view().len());
    let id = piece_id(vs, n0, j);
    lemma_piece_id(vs, n0, j);
    assert(ids[j] == id as u32);
    assert(same_record(b.nodes_view()[id], a5.nodes_view()[id]));
    crate::arena::law_data_kept(a5, b, -1, id);
    if vs[j] is Element {
        assert(a5.children_in_bounds(id));
        crate::arena::law_children_kept(a5, b, p, id);
        if piece_width(vs[j]) == 2 {
            assert(same_record(b.nodes_view()[id + 1], a5.nodes_view()[id + 1]));
            crate::arena::law_data_kept(a5, b, -1, id + 1);
            assert(!lists_id(b.children_of(p), id + 1)) by {
                if lists_id(b.children_of(p), id + 1) {
                    lemma_replaced_member(a5.children_of(p), text_id, ids, id + 1);
                    if lists_id(a5.children_of(p), id + 1) {
                        let w = choose|w: int| 0 <= w < a0.children_of(p).len() && a0.children_of(p)[w] as int == id + 1;
                        assert(a0.nodes_view()[p] == a0.nodes_view()[p]);
                        assert(p < a0.children_of(p)[w] < a0.nodes_view().len());
                        assert(false);
                    } else {
                        let w = choose|w: int| 0 <= w < ids.len() && ids[w] as int == id + 1;
                        lemma_piece_id(vs, n0, w);
                        assert(piece_id(vs, n0, w) + piece_width(vs[w]) <= a5.nodes_view().len());
                        assert(ids[w] == piece_id(vs, n0, w) as u32);
                        assert(piece_id(vs, n0, w) == id + 1);
                        lemma_piece_id_mono(vs, n0, j, w);
                        lemma_piece_id_mono(vs, n0, w, j);
                        assert(false);
                    }
                }
            }
            assert(b.nodes_view()[id + 1].parent == a5.nodes_view()[id + 1].parent);
        }
    }
}

/// What the written nodes are after the text node is replaced by them.
proof fn lemma_after_replace(
    a0: Arena,
    a5: Arena,
    b: Arena,
    text_id: u32,
    vs: Seq<JsxPieceView>,
    ids: Seq<u32>,
    tbs: Seq<u8>,
    base: u32,
    line: u32,
    col: u32,
)
    requires
        a0.well_formed(),
        a0.has_node(text_id as int),
        a0.nodes_view().len() <= a5.nodes_view().len(),
        a5.nodes_view().len() < u32::MAX,
        ids == piece_ids(vs, a0.nodes_view().len() as int),
        forall|j: int|
            0 <= j < vs.len() ==> piece_node_is(a5, piece_id(vs, a0.nodes_view().len() as int, j), #[trigger] vs[j], tbs, base, line, col),
        forall|j: int|
            0 <= j < vs.len() ==> piece_id(vs, a0.nodes_view().len() as int, j) + piece_width(#[trigger] vs[j]) <= a5.nodes_view().len(),
        ({
            let p = a5.nodes_view()[text_id as int].parent as int;
            &&& b.well_formed()
            &&& b.nodes_view().len() == a5.nodes_view().len()
            &&& keeps_data(a5, b, -1)
            &&& keeps_children(a5, b, p)
            &&& b.children_of(p) == replaced(a5.children_of(p), text_id, ids)
            &&& forall|k: int| 0 <= k < ids.len() ==> b.nodes_view()[#[trigger] ids[k] as int].parent == p
            &&& forall|i: int| 0 <= i < a5.nodes_view().len() ==> same_record(#[trigger] b.nodes_view()[i], a5.nodes_view()[i])
            &&& forall|i: int|
                0 <= i < a5.nodes_view().len() && !lists_id(b.children_of(p), i)
                    ==> (#[trigger] b.nodes_view()[i]).parent == a5.nodes_view()[i].parent
            &&& b.source_view() == a5.source_view()
            &&& a5.children_of(p) == a0.children_of(p)
            &&& a5.nodes_view()[text_id as int] == a0.nodes_view()[text_id as int]
            &&& 0 <= p < a0.nodes_view().len()
        }),
    ensures
        forall|j: int|
            0 <= j < vs.len() ==> piece_node_is(b, piece_id(vs, a0.nodes_view().len() as int, j), #[trigger] vs[j], tbs, base, line, col)
                && b.nodes_view()[piece_id(vs, a0.nodes_view().len() as int, j)].parent == a0.nodes_view()[text_id as int].parent,
{
    let n0 = a0.nodes_view().len() as int;
    assert forall|j: int| 0 <= j < vs.len() implies piece_node_is(b, piece_id(vs, n0, j), #[trigger] vs[j], tbs, base, line, col)
        && b.nodes_view()[piece_id(vs, n0, j)].parent == a0.nodes_view()[text_id as int].parent by {
        lemma_after_replace_one(a0, a5, b, text_id, vs, ids, tbs, base, line, col, j);
    }
}

/// Replace the text node `text_id` in its parent by the arena nodes of the
/// pieces of its value (see `split_text_on_jsx_tags`): each text piece
/// becomes a text node, each element a JSX text element node (its name, no
/// attributes) with one text child holding its content when it has any;
/// values are copied into the source; every node is placed on the text
/// node's line, at its offset and column plus the byte offset of its range.
#[verifier::rlimit(100)]
pub fn apply_jsx_pieces(arena: &mut Arena, text_id: u32, pieces: &[JsxPiece])
    requires
        crate::label_nodes::text_node_ok(*old(arena), text_id),
        old(arena).data_of(text_id as int).len() >= 8,
        jsx_room(*old(arena), text_id, jsx_piece_views(pieces@)),
        forall|k: int|
            0 <= k < pieces@.len() ==> piece_fits(#[trigger] jsx_piece_views(pieces@)[k], text_bytes(*old(arena), text_id)),
    ensures
        jsx_pieces_applied(*old(arena), *final(arena), text_id, jsx_piece_views(pieces@)),
{
    let ghost a0 = *arena;
    let ghost vs = jsx_piece_views(pieces@);
    let node = *arena.get_node(text_id);
    let data = arena.get_type_data(text_id);
    let sr = decode_string_ref_data(data);
    let tb = arena.get_str(sr).as_bytes_vec();
    let ghost tbs = tb@;
    let base = node.start_offset;
    let line = node.start_line;
    let col = node.start_column;
    let n0 = arena.len();
    assert(tbs == text_bytes(a0, text_id));
    proof {
        assert forall|j: int| 0 <= j < vs.len() implies piece_bytes(#[trigger] vs[j]) >= 0 by {
            assert(piece_fits(vs[j], tbs));
        }
        lemma_piece_bytes_mono(vs, vs.len() as int);
    }
    let mut ids: Vec<u32> = Vec::new();
    let mut k: usize = 0;
    proof {
        reveal(jsx_room);
        lemma_piece_id_zero(vs, n0 as int);
    }
    assert(a0.source_view().subrange(0, a0.source_view().len() as int) =~= a0.source_view());
    assert(a0.type_data_view().subrange(0, a0.type_data_view().len() as int) =~= a0.type_data_view());
    assert(a0.children_view().subrange(0, a0.children_view().len() as int) =~= a0.children_view());
    assert(a0.nodes_view().subrange(0, a0.nodes_view().len() as int) =~= a0.nodes_view());
    assert(vs.subrange(0, 0) =~= Seq::<JsxPieceView>::empty());
    while k < pieces.len()
        invariant
            k <= pieces@.len(),
            vs == jsx_piece_views(pieces@),
            vs.len() == pieces@.len(),
            n0 == a0.nodes_view().len(),
            tbs == tb@,
            arena.well_formed(),
            n0 + 2 * vs.len() < u32::MAX,
            a0.type_data_view().len() + 20 * vs.len() <= u32::MAX,
            base + tbs.len() <= u32::MAX,
            col + tbs.len() <= u32::MAX,
            a0.source_bytes().len() + piece_bytes_total(vs) <= u32::MAX,
            a0.children_view().len() + vs.len() <= u32::MAX,
            arena.nodes_view().len() == piece_id(vs, n0 as int, k as int),
            n0 <= piece_id(vs, n0 as int, k as int) <= n0 + 2 * k,
            ids@.len() == k,
            forall|j: int| 0 <= j < k ==> #[trigger] ids@[j] == piece_id(vs, n0 as int, j) as u32,
            extends(a0.nodes_view(), arena.nodes_view()),
            arena.children_view().len() <= a0.children_view().len() + k,
            extends(a0.children_view(), arena.children_view()),
            arena.type_data_view().len() <= a0.type_data_view().len() + 20 * k,
            extends(a0.type_data_view(), arena.type_data_view()),
            extends(a0.source_view(), arena.source_view()),
            arena.source_bytes().len() == a0.source_bytes().len() + piece_bytes_total(vs.subrange(0, k as int)),
            0 <= piece_bytes_total(vs.subrange(0, k as int)) <= piece_bytes_total(vs),
            forall|j: int| 0 <= j < vs.len() ==> piece_fits(#[trigger] vs[j], tbs),
            forall|j: int| 0 <= j < vs.len() ==> piece_bytes(#[trigger] vs[j]) >= 0,
            forall|j: int|
                0 <= j < k ==> piece_node_is(*arena, piece_id(vs, n0 as int, j), #[trigger] vs[j], tbs, base, line, col),
            forall|j: int|
                0 <= j < k ==> piece_id(vs, n0 as int, j) + piece_width(#[trigger] vs[j]) <= arena.nodes_view().len(),
        decreases pieces@.len() - k,
    {
        let ghost before = *arena;
        proof {
            lemma_piece_id(vs, n0 as int, k as int);
            lemma_piece_bytes_prefix(vs, k as int);
            lemma_piece_bytes_mono(vs, k as int + 1);
            assert(vs[k as int] == pieces@[k as int]@);
        }
        let id = write_piece(arena, &pieces[k], tb.as_slice(), base, line, col);
        proof {
            let after = *arena;
            lemma_step_kept(before, after, vs, n0 as int, k as int, tbs, base, line, col);
            assert(extends(before.source_view(), after.source_view())) by {
                assert(after.source_view().subrange(0, before.source_view().len() as int) =~= before.source_view());
            }
            lemma_extends_trans(a0.source_view(), before.source_view(), after.source_view());
            assert(extends(before.nodes_view(), after.nodes_view())) by {
                assert(after.nodes_view().subrange(0, before.nodes_view().len() as int) =~= before.nodes_view());
            }
            lemma_extends_trans(a0.nodes_view(), before.nodes_view(), after.nodes_view());
            lemma_extends_trans(a0.type_data_view(), before.type_data_view(), after.type_data_view());
            lemma_extends_trans(a0.children_view(), before.children_view(), after.children_view());
        }
        ids.push(id);
        k = k + 1;
    }
    let ghost a5 = *arena;
    let ghost p = node.parent as int;
    proof {
        reveal(jsx_room);
        assert(vs.subrange(0, k as int) =~= vs);
        lemma_piece_id_total(vs, n0 as int);
        assert(ids@ =~= piece_ids(vs, n0 as int));
        assert forall|x: int| 0 <= x < a0.type_data_view().len() implies a5.type_data_view()[x]
            == a0.type_data_view()[x] by {
            assert(a5.type_data_view().subrange(0, a0.type_data_view().len() as int)[x] == a5.type_data_view()[x]);
        }
        assert forall|x: int| 0 <= x < a0.children_view().len() implies a5.children_view()[x]
            == a0.children_view()[x] by {
            assert(a5.children_view().subrange(0, a0.children_view().len() as int)[x] == a5.children_view()[x]);
        }
        assert forall|i: int| 0 <= i < n0 implies #[trigger] a5.nodes_view()[i] == a0.nodes_view()[i] by {
            assert(a5.nodes_view().subrange(0, n0 as int)[i] == a5.nodes_view()[i]);
        }
        crate::arena::lemma_keeps(a0, a5, -1, -1);
        assert(a5.nodes_view()[text_id as int] == a0.nodes_view()[text_id as int]);
        crate::arena::law_children_kept(a0, a5, -1, p);
        assert(a0.nodes_view()[p] == a0.nodes_view()[p]);
        let w = choose|w: int| 0 <= w < a0.children_of(p).len() && a0.children_of(p)[w] as int == text_id as int;
        assert(p < a0.children_of(p)[w]);
        assert forall|j: int| 0 <= j < ids@.len() implies node.parent < #[trigger] ids@[j] < a5.nodes_view().len() by {
            lemma_piece_id(vs, n0 as int, j);
            assert(piece_id(vs, n0 as int, j) + piece_width(vs[j]) <= a5.nodes_view().len());
        }
    }
    arena.replace_node_with_children(text_id, ids.as_slice());
    proof {
        let b = *arena;
        lemma_after_replace(a0, a5, b, text_id, vs, ids@, tbs, base, line, col);
        crate::arena::law_keeps_data_trans(a0, a5, b, -1, -1, -1);
        crate::arena::law_keeps_children_trans(a0, a5, b, -1, p, p);
        assert(jsx_pieces_applied(a0, b, text_id, vs));
    }
}

/// A span of the text lies on cut points (where the text can be split on
/// whole characters), in order.
pub open spec fn span_cut(t: Seq<u8>, q: (int, int, int, int, Seq<char>)) -> bool {
    &&& 0 <= q.0 <= q.1 <= q.2 <= q.3 <= t.len()
    &&& cut(t, q.0)
    &&& cut(t, q.1)
    &&& cut(t, q.2)
    &&& cut(t, q.3)
}

proof fn lemma_tag_ends(t: Seq<u8>, i: int)
    requires
        0 <= i <= t.len(),
    ensures
        tag_len_at(t, i) matches Some(e) ==> 0 < e <= t.len() - i && t[i] == LT && t[i + e - 1] == GT,
{
    reveal(tag_len_at);
    let sub = t.subrange(i, t.len() as int);
    crate::mdx::lemma_inline_jsx_end(sub);
    if let Some(e) = tag_len_at(t, i) {
        assert(sub[0] == t[i]);
        assert(sub[e - 1] == t[i + e - 1]);
    }
}

proof fn lemma_close_search_cut(t: Seq<u8>, j: int, name: Seq<char>)
    requires
        0 <= j <= t.len(),
    ensures
        close_search(t, j, name) matches Some((cs, ce)) ==> j <= cs < ce <= t.len() && t[cs] == LT
            && t[ce - 1] == GT,
    decreases t.len() - j,
{
    if j < t.len() {
        if t[j] != LT {
            lemma_close_search_cut(t, j + 1, name);
        } else {
            lemma_tag_ends(t, j);
            match tag_len_at(t, j) {
                None => {
                    lemma_close_search_cut(t, j + 1, name);
                },
                Some(e) => {
                    if e > 0 {
                        let c = tag_text(t, j, e);
                        if !(crate::jsx::is_closing_tag(c) && crate::jsx::element_name(c) == name) {
                            lemma_close_search_cut(t, j + e, name);
                        }
                    }
                },
            }
        }
    }
}

proof fn lemma_jsx_spans_cut(t: Seq<u8>, i: int)
    requires
        0 <= i <= t.len(),
    ensures
        forall|k: int| 0 <= k < jsx_spans(t, i).len() ==> span_cut(t, #[trigger] jsx_spans(t, i)[k]),
    decreases t.len() - i,
{
    if i < t.len() {
        if t[i] != LT {
            lemma_jsx_spans_cut(t, i + 1);
            assert(jsx_spans(t, i) == jsx_spans(t, i + 1));
        } else {
            lemma_tag_ends(t, i);
            match tag_len_at(t, i) {
                None => {
                    lemma_jsx_spans_cut(t, i + 1);
                    assert(jsx_spans(t, i) == jsx_spans(t, i + 1));
                },
                Some(e) => {
                    let c = tag_text(t, i, e);
                    let name = crate::jsx::element_name(c);
                    if crate::jsx::is_closing_tag(c) {
                        lemma_jsx_spans_cut(t, i + e);
                        assert(jsx_spans(t, i) == jsx_spans(t, i + e));
                    } else if crate::jsx::self_closing(c) {
                        lemma_jsx_spans_cut(t, i + e);
                        let q = (i, i + e, i + e, i + e, name);
                        let sp = seq![q] + jsx_spans(t, i + e);
                        assert(jsx_spans(t, i) == sp);
                        assert(t[i + e - 1] < 128);
                        assert(span_cut(t, q));
                        assert forall|k: int| 0 <= k < sp.len() implies span_cut(t, #[trigger] sp[k]) by {
                            if k > 0 {
                                assert(sp[k] == jsx_spans(t, i + e)[k - 1]);
                            }
                        }
                    } else {
                        lemma_close_search_cut(t, i + e, name);
                        match close_search(t, i + e, name) {
                            Some((cs, ce)) => {
                                lemma_jsx_spans_cut(t, ce);
                                let q = (i, i + e, cs, ce, name);
                                let sp = seq![q] + jsx_spans(t, ce);
                                assert(jsx_spans(t, i) == sp);
                                assert(t[i + e - 1] < 128);
                                assert(t[ce - 1] < 128);
                                assert(span_cut(t, q));
                                assert forall|k: int| 0 <= k < sp.len() implies span_cut(t, #[trigger] sp[k]) by {
                                    if k > 0 {
                                        assert(sp[k] == jsx_spans(t, ce)[k - 1]);
                                    }
                                }
                            },
                            None => {
                                lemma_jsx_spans_cut(t, i + e);
                                assert(jsx_spans(t, i) == jsx_spans(t, i + e));
                            },
                        }
                    }
                },
            }
        }
    }
}

proof fn lemma_jsx_pieces_fit(t: Seq<u8>, spans: Seq<(int, int, int, int, Seq<char>)>, cursor: int)
    requires
        valid_utf8(t),
        forall|k: int| 0 <= k < spans.len() ==> span_cut(t, #[trigger] spans[k]),
        jsx_spans_ordered(spans, cursor, t.len() as int),
        cut(t, cursor),
    ensures
        forall|k: int|
            0 <= k < jsx_pieces(t.len() as int, spans, cursor).len() ==> piece_fits(
                #[trigger] jsx_pieces(t.len() as int, spans, cursor)[k],
                t,
            ),
    decreases spans.len(),
{
    let len = t.len() as int;
    let ps = jsx_pieces(len, spans, cursor);
    if spans.len() == 0 {
        if cursor < len {
            lemma_cut_valid(t, cursor, len);
        }
    } else {
        let p = spans[0];
        assert(span_cut(t, p));
        assert forall|k: int| 0 <= k < spans.drop_first().len() implies span_cut(t, #[trigger] spans.drop_first()[k]) by {
            assert(spans.drop_first()[k] == spans[k + 1]);
        }
        lemma_jsx_pieces_fit(t, spans.drop_first(), p.3);
        let rest = jsx_pieces(len, spans.drop_first(), p.3);
        let lead = if p.0 > cursor {
            seq![JsxPieceView::Text(cursor, p.0)]
        } else {
            Seq::empty()
        };
        let mid = JsxPieceView::Element(p.0, p.3, p.4, p.1, p.2);
        assert(ps == lead + seq![mid] + rest);
        lemma_cut_valid(t, p.1, p.2);
        if p.0 > cursor {
            lemma_cut_valid(t, cursor, p.0);
        }
        assert forall|k: int| 0 <= k < ps.len() implies piece_fits(#[trigger] ps[k], t) by {
            if k >= lead.len() + 1 {
                assert(ps[k] == rest[k - lead.len() - 1]);
            } else if k == lead.len() {
                assert(ps[k] == mid);
            } else {
                assert(ps[k] == lead[k]);
            }
        }
    }
}

/// Split the text node `text_id` of a label on JSX elements (see
/// `split_text_on_jsx_tags`) and replace it in its parent by the nodes of
/// the pieces (see `apply_jsx_pieces`). Returns whether it changed the
/// arena: not when the node has no text or the text holds no element.
pub fn split_label_on_jsx_tags(arena: &mut Arena, text_id: u32) -> (changed: bool)
    requires
        text_node_ok(*old(arena), text_id),
        old(arena).data_of(text_id as int).len() > 0 ==> {
            let a = *old(arena);
            let tb = text_bytes(a, text_id);
            &&& tb.len() < i32::MAX
            &&& jsx_room(a, text_id, jsx_pieces(tb.len() as int, jsx_spans(tb, 0), 0))
        },
    ensures
        ({
            let a = *old(arena);
            let tb = text_bytes(a, text_id);
            if a.data_of(text_id as int).len() == 0 || jsx_spans(tb, 0).len() == 0 {
                !changed && *final(arena) == a
            } else {
                changed && jsx_pieces_applied(a, *final(arena), text_id, jsx_pieces(tb.len() as int, jsx_spans(tb, 0), 0))
            }
        }),
{
    let ghost a0 = *arena;
    let data = arena.get_type_data(text_id);
    if data.len() == 0 {
        return false;
    }
    let sr = decode_string_ref_data(data);
    let text = String::from_str(arena.get_str(sr));
    let ghost t = encode_utf8(text@);
    proof {
        encode_utf8_valid_utf8(text@);
        assert(t == text_bytes(a0, text_id));
    }
    let split = split_text_on_jsx_tags(text.as_str());
    match split {
        None => false,
        Some(ps) => {
            proof {
                lemma_jsx_spans_cut(t, 0);
                crate::label::lemma_jsx_spans_ordered(t, 0);
                lemma_jsx_pieces_fit(t, jsx_spans(t, 0), 0);
            }
            apply_jsx_pieces(arena, text_id, ps.as_slice());
            true
        },
    }
}

} // verus!
