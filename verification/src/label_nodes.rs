//! Replacing a directive-label text node by the nodes of its pieces: plain
//! text, inline code and MDX text expressions, each with its value copied
//! into the source and a position on the text node's line.
use vstd::prelude::*;
use vstd::string::*;
use vstd::utf8::*;
use crate::arena::{Arena, keeps_children, keeps_data, lists_id, replaced};
use crate::codec::{decode_string_ref_data, encode_string_ref_data, read_ref, ref_bytes};
use crate::label::{
    LabelPiece, backtick_pairs, close_run, expression_spans, lemma_backtick_pairs_ordered,
    lemma_close_run, lemma_expression_spans_ordered, lemma_run_end, pieces, run_end,
    spans_ordered, split_text_on_backticks, split_text_on_mdx_expressions,
};
use crate::mdx::{BACKTICK, expression_len, law_expression_is_braced};
use crate::node::{NodeType, StringRef};
use crate::text::{lemma_encode_concat, str_from_utf8};

verus! {

/// The node kind a piece becomes.
pub open spec fn piece_code(p: LabelPiece) -> u8 {
    match p {
        LabelPiece::Text { .. } => NodeType::Text.code(),
        LabelPiece::InlineCode { .. } => NodeType::InlineCode.code(),
        LabelPiece::Expression { .. } => NodeType::MdxTextExpression.code(),
    }
}

/// The byte range that a piece spans in the text.
pub open spec fn piece_span(p: LabelPiece) -> (int, int) {
    match p {
        LabelPiece::Text { start, end } => (start as int, end as int),
        LabelPiece::InlineCode { start, end, .. } => (start as int, end as int),
        LabelPiece::Expression { start, end, .. } => (start as int, end as int),
    }
}

/// The byte range of the text that is the value of a piece's node: the
/// text itself, the code between the backticks, or the expression between
/// the braces.
pub open spec fn piece_value(p: LabelPiece) -> (int, int) {
    match p {
        LabelPiece::Text { start, end } => (start as int, end as int),
        LabelPiece::InlineCode { code_start, code_end, .. } => (code_start as int, code_end as int),
        LabelPiece::Expression { content_start, content_end, .. } => (
            content_start as int,
            content_end as int,
        ),
    }
}

/// The piece lies in a text of `n` bytes whose value range is whole
/// characters, and its position fits 32 bits from `(start, col)`.
pub open spec fn piece_fits(p: LabelPiece, tb: Seq<u8>, start: u32, col: u32) -> bool {
    let (s, e) = piece_span(p);
    let (vs, ve) = piece_value(p);
    &&& 0 <= s <= e <= tb.len()
    &&& 0 <= vs <= ve <= tb.len()
    &&& valid_utf8(tb.subrange(vs, ve))
    &&& start + e <= u32::MAX
    &&& col + e <= u32::MAX
}

/// Node `id` is the node of piece `p` of the text `tb` whose node started
/// at offset `start`, line `line`, column `col`: its kind, its position on
/// that line, and the value its data refers to.
pub open spec fn piece_node_ok(
    a: Arena,
    id: int,
    p: LabelPiece,
    tb: Seq<u8>,
    start: u32,
    line: u32,
    col: u32,
) -> bool {
    let n = a.nodes_view()[id];
    let (s, e) = piece_span(p);
    let (vs, ve) = piece_value(p);
    &&& a.has_node(id)
    &&& n.node_type == piece_code(p)
    &&& n.start_offset == start + s
    &&& n.end_offset == start + e
    &&& n.start_line == line
    &&& n.end_line == line
    &&& n.start_column == col + s
    &&& n.end_column == col + e
    &&& a.data_in_bounds(id)
    &&& a.data_of(id).len() == 8
    &&& a.str_ok(read_ref(a.data_of(id), 0))
    &&& a.str_of(read_ref(a.data_of(id), 0)) == decode_utf8(tb.subrange(vs, ve))
}

/// The ids `from`, `from + 1`, … of `n` fresh nodes.
pub open spec fn fresh_ids(from: int, n: int) -> Seq<u32> {
    Seq::new(n as nat, |k: int| (from + k) as u32)
}

/// A piece node stays what it is while later operations keep its record,
/// extend the type data and append to the source.
proof fn lemma_piece_node_kept(
    a: Arena,
    b: Arena,
    id: int,
    p: LabelPiece,
    tb: Seq<u8>,
    start: u32,
    line: u32,
    col: u32,
    t: Seq<char>,
)
    requires
        piece_node_ok(a, id, p, tb, start, line, col),
        a.nodes_view().len() <= b.nodes_view().len(),
        b.nodes_view()[id] == a.nodes_view()[id],
        a.type_data_view().len() <= b.type_data_view().len(),
        b.type_data_view().subrange(0, a.type_data_view().len() as int) == a.type_data_view(),
        b.source_view() == a.source_view() + t,
    ensures
        piece_node_ok(b, id, p, tb, start, line, col),
{
    let n = a.nodes_view()[id];
    assert(b.data_of(id) =~= a.data_of(id)) by {
        assert forall|k: int| 0 <= k < n.data_len implies b.data_of(id)[k] == a.data_of(id)[k] by {
            assert(b.type_data_view().subrange(0, a.type_data_view().len() as int)[n.data_offset + k]
                == b.type_data_view()[n.data_offset + k]);
        }
    }
    lemma_encode_concat(a.source_view(), t);
    let r = read_ref(a.data_of(id), 0);
    assert(b.source_bytes().subrange(r.offset as int, r.offset + r.len) =~= a.source_bytes().subrange(
        r.offset as int,
        r.offset + r.len,
    ));
    let sb = b.source_bytes();
    let sa = a.source_bytes();
    assert forall|i: int| 0 <= i <= sa.len() && #[trigger] crate::text::on_boundary(sa, i) implies crate::text::on_boundary(sb, i) by {
        if i < sa.len() {
            assert(sb[i] == sa[i]);
        } else if sb.len() > sa.len() {
            crate::arena::lemma_first_byte_not_continuation(t);
            assert(sb[i] == encode_utf8(t)[0]);
        }
    }
}

/// Allocate the node of piece `p` of the text bytes `tb`, with its value
/// copied to the end of the source.
fn add_piece_node(
    arena: &mut Arena,
    p: &LabelPiece,
    tb: &[u8],
    start: u32,
    line: u32,
    col: u32,
) -> (id: u32)
    requires
        old(arena).well_formed(),
        piece_fits(*p, tb@, start, col),
        old(arena).nodes_view().len() < u32::MAX,
        old(arena).type_data_view().len() + 8 <= u32::MAX,
        old(arena).source_bytes().len() + tb@.len() <= u32::MAX,
    ensures
        id == old(arena).nodes_view().len(),
        final(arena).nodes_view().len() == id + 1,
        final(arena).well_formed(),
        forall|i: int| 0 <= i < id ==> #[trigger] final(arena).nodes_view()[i] == old(arena).nodes_view()[i],
        final(arena).children_view() == old(arena).children_view(),
        old(arena).type_data_view().len() + 8 == final(arena).type_data_view().len(),
        final(arena).type_data_view().subrange(0, old(arena).type_data_view().len() as int)
            == old(arena).type_data_view(),
        final(arena).source_view() == old(arena).source_view() + decode_utf8(
            tb@.subrange(piece_value(*p).0, piece_value(*p).1),
        ),
        final(arena).source_bytes().len() <= old(arena).source_bytes().len() + tb@.len(),
        piece_node_ok(*final(arena), id as int, *p, tb@, start, line, col),
{
    let ghost a0 = *arena;
    let (s, e, vs, ve, kind) = match p {
        LabelPiece::Text { start: s, end: e } => (*s, *e, *s, *e, NodeType::Text),
        LabelPiece::InlineCode { start: s, end: e, code_start, code_end } => (
            *s,
            *e,
            *code_start,
            *code_end,
            NodeType::InlineCode,
        ),
        LabelPiece::Expression { start: s, end: e, content_start, content_end } => (
            *s,
            *e,
            *content_start,
            *content_end,
            NodeType::MdxTextExpression,
        ),
    };
    let value = match str_from_utf8(vstd::slice::slice_subrange(tb, vs, ve)) {
        Some(v) => v,
        None => {
            // The value range is whole characters (`piece_fits`).
            proof {
                assert(false);
            }
            ""
        },
    };
    proof {
        encode_utf8_decode_utf8(value@);
        decode_utf8_encode_utf8(tb@.subrange(vs as int, ve as int));
        crate::text::lemma_decode_len(tb@.subrange(vs as int, ve as int));
        assert(value.spec_bytes().len() == ve - vs);
    }
    let sr = arena.alloc_string(value);
    let ghost a1 = *arena;
    proof {
        lemma_encode_concat(a0.source_view(), value@);
    }
    let id = arena.alloc_node(kind);
    let ghost a2 = *arena;
    let data = encode_string_ref_data(sr);
    arena.set_type_data(id, data.as_slice());
    let ghost a3 = *arena;
    arena.set_position(id, start + s as u32, start + e as u32, line, col + s as u32, line, col + e as u32);
    proof {
        let a4 = *arena;
        assert(a4.data_of(id as int) =~= ref_bytes(sr)) by {
            assert(a3.data_of(id as int) == data@);
        }
        crate::codec::lemma_ref_roundtrip(sr, Seq::empty(), Seq::empty());
        assert(Seq::<u8>::empty() + ref_bytes(sr) + Seq::<u8>::empty() =~= ref_bytes(sr));
        assert(read_ref(a4.data_of(id as int), 0) == sr);
        assert forall|i: int| 0 <= i < id implies #[trigger] a4.nodes_view()[i] == a0.nodes_view()[i] by {
            assert(a1.nodes_view()[i] == a0.nodes_view()[i]);
            assert(a2.nodes_view()[i] == a1.nodes_view()[i]);
        }
        assert(a4.type_data_view().subrange(0, a0.type_data_view().len() as int) =~= a0.type_data_view());
        // The new node has no children and data inside the type data.
        assert forall|i: int| 0 <= i < a4.nodes_view().len() implies {
            &&& a4.children_in_bounds(i)
            &&& a4.data_in_bounds(i)
            &&& forall|k: int|
                0 <= k < a4.children_of(i).len() ==> i < #[trigger] a4.children_of(i)[k]
                    < a4.nodes_view().len()
        } by {
            if i < id {
                assert(a0.nodes_view()[i] == a0.nodes_view()[i]);
                assert(a4.children_of(i) == a0.children_of(i));
                assert(a4.data_of(i) =~= a0.data_of(i));
            } else {
                assert(a4.children_of(i) =~= Seq::<u32>::empty());
            }
        }
    }
    id
}

/// `b` is `a` with the text node `text_id` replaced in its parent by the
/// nodes of `pieces`, numbered after the nodes of `a`; everything else is
/// kept.
pub open spec fn label_pieces_applied(a: Arena, b: Arena, text_id: u32, pieces: Seq<LabelPiece>) -> bool {
            let n = a.nodes_view()[text_id as int];
            let r = read_ref(a.data_of(text_id as int), 0);
            let tb = a.source_bytes().subrange(r.offset as int, r.offset + r.len);
            let p = n.parent as int;
            let ids = fresh_ids(a.nodes_view().len() as int, pieces.len() as int);
            &&& b.well_formed()
            &&& b.nodes_view().len() == a.nodes_view().len() + pieces.len()
            &&& b.children_of(p) == replaced(a.children_of(p), text_id, ids)
            &&& forall|k: int|
                0 <= k < pieces.len() ==> piece_node_ok(
                    b,
                    a.nodes_view().len() + k,
                    #[trigger] pieces[k],
                    tb,
                    n.start_offset,
                    n.start_line,
                    n.start_column,
                ) && b.nodes_view()[a.nodes_view().len() + k].parent == p
            &&& keeps_data(a, b, -1)
            &&& keeps_children(a, b, p)
}

/// The bytes of the value of text node `id`.
pub open spec fn text_bytes(a: Arena, id: u32) -> Seq<u8> {
    let r = read_ref(a.data_of(id as int), 0);
    a.source_bytes().subrange(r.offset as int, r.offset + r.len)
}

/// The text node `text_id` is listed by its parent, and the arena has room
/// (within 32-bit counts) for the nodes of `pieces`, their data, their
/// values and the parent's new child list.
pub open spec fn pieces_room(a: Arena, text_id: u32, pieces: Seq<LabelPiece>) -> bool {
    let n = a.nodes_view()[text_id as int];
    let p = n.parent as int;
    let tb = text_bytes(a, text_id);
    &&& a.has_node(p)
    &&& lists_id(a.children_of(p), text_id as int)
    &&& a.nodes_view().len() + pieces.len() < u32::MAX
    &&& a.type_data_view().len() + 8 * pieces.len() <= u32::MAX
    &&& a.source_bytes().len() + pieces.len() * tb.len() <= u32::MAX
    &&& a.children_view().len() + replaced(
        a.children_of(p),
        text_id,
        fresh_ids(a.nodes_view().len() as int, pieces.len() as int),
    ).len() <= u32::MAX
}

/// Replace the text node `text_id` in its parent by the nodes of `pieces`
/// (from `split_text_on_backticks` or `split_text_on_mdx_expressions` on its
/// value): each piece becomes a text, inline-code or text-expression node in
/// order, with its value copied into the source, and a position on the text
/// node's line at the piece's byte offset.
pub fn apply_label_pieces(arena: &mut Arena, text_id: u32, pieces: &[LabelPiece])
    requires
        old(arena).well_formed(),
        old(arena).has_node(text_id as int),
        old(arena).data_in_bounds(text_id as int),
        old(arena).data_of(text_id as int).len() >= 8,
        old(arena).str_ok(read_ref(old(arena).data_of(text_id as int), 0)),
        pieces_room(*old(arena), text_id, pieces@),
        forall|k: int|
            0 <= k < pieces@.len() ==> piece_fits(
                #[trigger] pieces@[k],
                text_bytes(*old(arena), text_id),
                old(arena).nodes_view()[text_id as int].start_offset,
                old(arena).nodes_view()[text_id as int].start_column,
            ),
    ensures
        label_pieces_applied(*old(arena), *final(arena), text_id, pieces@),
{
    let ghost a0 = *arena;
    let node = *arena.get_node(text_id);
    let data = arena.get_type_data(text_id);
    let sr = decode_string_ref_data(data);
    let tb = arena.get_str(sr).as_bytes_vec();
    let ghost tbs = tb@;
    let base_start = node.start_offset;
    let base_line = node.start_line;
    let base_col = node.start_column;
    let n0 = arena.len();
    let mut ids: Vec<u32> = Vec::new();
    let mut k: usize = 0;
    assert(arena.source_view() =~= a0.source_view() + Seq::<char>::empty());
    assert(arena.type_data_view().subrange(0, a0.type_data_view().len() as int) =~= a0.type_data_view());
    while k < pieces.len()
        invariant
            k <= pieces@.len(),
            n0 == a0.nodes_view().len(),
            tbs == tb@,
            arena.well_formed(),
            arena.nodes_view().len() == n0 + k,
            ids@ == fresh_ids(n0 as int, k as int),
            forall|i: int| 0 <= i < n0 ==> #[trigger] arena.nodes_view()[i] == a0.nodes_view()[i],
            arena.children_view() == a0.children_view(),
            arena.type_data_view().len() == a0.type_data_view().len() + 8 * k,
            arena.type_data_view().subrange(0, a0.type_data_view().len() as int) == a0.type_data_view(),
            arena.source_bytes().len() <= a0.source_bytes().len() + k * tbs.len(),
            exists|t: Seq<char>| arena.source_view() == a0.source_view() + t,
            forall|j: int| 0 <= j < pieces@.len() ==> piece_fits(#[trigger] pieces@[j], tbs, base_start, base_col),
            a0.nodes_view().len() + pieces@.len() < u32::MAX,
            a0.type_data_view().len() + 8 * pieces@.len() <= u32::MAX,
            a0.source_bytes().len() + pieces@.len() * tbs.len() <= u32::MAX,
            forall|j: int|
                0 <= j < k ==> piece_node_ok(*arena, n0 + j, #[trigger] pieces@[j], tbs, base_start, base_line, base_col),
        decreases pieces@.len() - k,
    {
        let ghost before = *arena;
        proof {
            assert(k * tbs.len() + tbs.len() <= pieces@.len() * tbs.len()) by (nonlinear_arith)
                requires
                    k < pieces@.len(),
            ;
            assert(8 * k + 8 <= 8 * pieces@.len());
        }
        let id = add_piece_node(arena, &pieces[k], tb.as_slice(), base_start, base_line, base_col);
        proof {
            let after = *arena;
            let t = decode_utf8(tbs.subrange(piece_value(pieces@[k as int]).0, piece_value(pieces@[k as int]).1));
            assert forall|j: int| 0 <= j < k + 1 implies piece_node_ok(
                after,
                n0 + j,
                #[trigger] pieces@[j],
                tbs,
                base_start,
                base_line,
                base_col,
            ) by {
                if j < k {
                    lemma_piece_node_kept(before, after, n0 + j, pieces@[j], tbs, base_start, base_line, base_col, t);
                }
            }
            let tt = choose|t0: Seq<char>| before.source_view() == a0.source_view() + t0;
            assert(after.source_view() =~= a0.source_view() + (tt + t));
            assert(after.type_data_view().subrange(0, a0.type_data_view().len() as int) =~= a0.type_data_view())
                by {
                assert forall|x: int| 0 <= x < a0.type_data_view().len() implies after.type_data_view()[x]
                    == a0.type_data_view()[x] by {
                    assert(after.type_data_view().subrange(0, before.type_data_view().len() as int)[x]
                        == after.type_data_view()[x]);
                    assert(before.type_data_view().subrange(0, a0.type_data_view().len() as int)[x]
                        == before.type_data_view()[x]);
                }
            }
            assert((k + 1) * tbs.len() == k * tbs.len() + tbs.len()) by (nonlinear_arith);
        }
        ids.push(id);
        k = k + 1;
        assert(ids@ =~= fresh_ids(n0 as int, k as int));
    }
    let ghost a5 = *arena;
    proof {
        crate::arena::lemma_keeps(a0, a5, -1, -1);
        let p = node.parent as int;
        assert(a5.nodes_view()[text_id as int] == a0.nodes_view()[text_id as int]);
        assert(a5.children_of(p) == a0.children_of(p));
        assert(a0.nodes_view()[p] == a0.nodes_view()[p]);
        let w = choose|w: int| 0 <= w < a0.children_of(p).len() && a0.children_of(p)[w] as int == text_id as int;
        assert(p < a0.children_of(p)[w]);
        assert forall|j: int| 0 <= j < ids@.len() implies node.parent < #[trigger] ids@[j] < a5.nodes_view().len() by {}
    }
    arena.replace_node_with_children(text_id, ids.as_slice());
    proof {
        let b = *arena;
        let p = node.parent as int;
        assert forall|j: int| 0 <= j < pieces@.len() implies piece_node_ok(
            b,
            n0 + j,
            #[trigger] pieces@[j],
            tbs,
            base_start,
            base_line,
            base_col,
        ) && b.nodes_view()[n0 + j].parent == p by {
            assert(ids@[j] == (n0 + j) as u32);
            let m = a5.nodes_view()[n0 + j];
            assert(a5.data_in_bounds(n0 + j));
            crate::arena::law_data_kept(a5, b, -1, n0 + j);
            assert(b.source_view() == a5.source_view());
            assert(b.nodes_view()[n0 + j].children_start == m.children_start);
        }
        crate::arena::law_keeps_data_trans(a0, a5, b, -1, -1, -1);
        crate::arena::law_keeps_children_trans(a0, a5, b, -1, p, p);
        let r = read_ref(a0.data_of(text_id as int), 0);
        assert(sr == r);
        assert(tbs == a0.source_bytes().subrange(r.offset as int, r.offset + r.len));
        assert(node == a0.nodes_view()[text_id as int]);
        assert(b.well_formed());
        assert(b.nodes_view().len() == a0.nodes_view().len() + pieces@.len());
        assert(ids@ == fresh_ids(a0.nodes_view().len() as int, pieces@.len() as int));
        assert(b.children_of(p) == replaced(a0.children_of(p), text_id, ids@));
        assert(keeps_data(a0, b, -1));
        assert(keeps_children(a0, b, p));
        assert forall|k: int| 0 <= k < pieces@.len() implies piece_node_ok(
            b,
            a0.nodes_view().len() + k,
            #[trigger] pieces@[k],
            a0.source_bytes().subrange(r.offset as int, r.offset + r.len),
            a0.nodes_view()[text_id as int].start_offset,
            a0.nodes_view()[text_id as int].start_line,
            a0.nodes_view()[text_id as int].start_column,
        ) && b.nodes_view()[a0.nodes_view().len() + k].parent == p by {
            assert(piece_node_ok(b, n0 + k, pieces@[k], tbs, base_start, base_line, base_col));
        }
        assert(label_pieces_applied(a0, b, text_id, pieces@));
    }
}

/// Byte position `i` of `t` cuts next to an ASCII byte (or at an end), so
/// it falls between characters.
pub open spec fn cut(t: Seq<u8>, i: int) -> bool {
    ||| i == 0
    ||| i == t.len()
    ||| (0 <= i < t.len() && t[i] < 128)
    ||| (0 < i <= t.len() && t[i - 1] < 128)
}

proof fn lemma_cut_boundary(b: Seq<u8>, i: int)
    requires
        valid_utf8(b),
        0 <= i <= b.len(),
        cut(b, i),
    ensures
        is_char_boundary(b, i),
{
    is_char_boundary_start_end_of_seq(b);
    if 0 < i < b.len() {
        is_char_boundary_iff_not_is_continuation_byte(b, i);
        if b[i] >= 128 {
            let j = i - 1;
            assert(b[j] < 128);
            if j > 0 {
                is_char_boundary_iff_not_is_continuation_byte(b, j);
            }
            crate::text::lemma_boundary_after_ascii(b, j);
        }
    }
}

pub(crate) proof fn lemma_cut_valid(b: Seq<u8>, a: int, c: int)
    requires
        valid_utf8(b),
        0 <= a <= c <= b.len(),
        cut(b, a),
        cut(b, c),
    ensures
        valid_utf8(b.subrange(a, c)),
{
    lemma_cut_boundary(b, a);
    valid_utf8_split(b, a);
    let s = b.subrange(a, b.len() as int);
    let d = c - a;
    if 0 < d < s.len() {
        if c < b.len() && b[c] < 128 {
            assert(s[d] == b[c]);
        } else {
            assert(s[d - 1] == b[c - 1]);
        }
    }
    assert(cut(s, d));
    lemma_cut_boundary(s, d);
    valid_utf8_split(s, d);
    assert(s.subrange(0, d) =~= b.subrange(a, c));
}

/// The spans lie in order inside `t`, each cut between characters at its
/// start, inner start, inner end and end.
pub open spec fn spans_cut(t: Seq<u8>, spans: Seq<(int, int, int, int)>) -> bool {
    forall|k: int|
        0 <= k < spans.len() ==> {
            let p = #[trigger] spans[k];
            &&& 0 <= p.0 < p.1 <= p.2 < p.3 <= t.len()
            &&& cut(t, p.0)
            &&& cut(t, p.1)
            &&& cut(t, p.2)
            &&& cut(t, p.3)
        }
}

proof fn lemma_spans_cut_cons(t: Seq<u8>, x: (int, int, int, int), rest: Seq<(int, int, int, int)>)
    requires
        0 <= x.0 < x.1 <= x.2 < x.3 <= t.len(),
        cut(t, x.0) && cut(t, x.1) && cut(t, x.2) && cut(t, x.3),
        spans_cut(t, rest),
    ensures
        spans_cut(t, seq![x] + rest),
{
    assert forall|k: int| 0 <= k < (seq![x] + rest).len() implies {
        let p = #[trigger] (seq![x] + rest)[k];
        &&& 0 <= p.0 < p.1 <= p.2 < p.3 <= t.len()
        &&& cut(t, p.0)
        &&& cut(t, p.1)
        &&& cut(t, p.2)
        &&& cut(t, p.3)
    } by {
        if k > 0 {
            assert((seq![x] + rest)[k] == rest[k - 1]);
        }
    }
}

proof fn lemma_close_run_ticks(t: Seq<u8>, j: int, n: int)
    requires
        0 <= j,
    ensures
        close_run(t, j, n) matches Some((cs, ce)) ==> t[cs] == BACKTICK && t[ce - 1] == BACKTICK,
    decreases t.len() - j,
{
    if 0 <= j < t.len() {
        lemma_run_end(t, j);
        if t[j] == BACKTICK {
            if run_end(t, j) - j != n {
                lemma_close_run_ticks(t, run_end(t, j), n);
            }
        } else {
            lemma_close_run_ticks(t, j + 1, n);
        }
    }
}

proof fn lemma_backtick_pairs_cut(t: Seq<u8>, i: int)
    requires
        0 <= i <= t.len(),
    ensures
        spans_cut(t, backtick_pairs(t, i)),
    decreases t.len() - i,
{
    if i < t.len() {
        if t[i] != BACKTICK {
            lemma_backtick_pairs_cut(t, i + 1);
        } else {
            let oe = run_end(t, i);
            lemma_run_end(t, i);
            lemma_close_run(t, oe, oe - i);
            lemma_close_run_ticks(t, oe, oe - i);
            match close_run(t, oe, oe - i) {
                Some((cs, ce)) => {
                    lemma_backtick_pairs_cut(t, ce);
                    assert(t[oe - 1] == BACKTICK);
                    lemma_spans_cut_cons(t, (i, oe, cs, ce), backtick_pairs(t, ce));
                },
                None => {
                    lemma_backtick_pairs_cut(t, oe);
                },
            }
        }
    }
}

proof fn lemma_expression_spans_cut(t: Seq<u8>, i: int)
    requires
        0 <= i <= t.len(),
    ensures
        spans_cut(t, expression_spans(t, i)),
    decreases t.len() - i,
{
    if i < t.len() {
        if t[i] != crate::mdx::LBRACE {
            lemma_expression_spans_cut(t, i + 1);
        } else {
            let sub = t.subrange(i, t.len() as int);
            law_expression_is_braced(sub);
            match expression_len(sub) {
                Some(total) => {
                    if 0 < total <= t.len() - i {
                        lemma_expression_spans_cut(t, i + total);
                        assert(t[i + total - 1] == sub[total - 1]);
                        lemma_spans_cut_cons(t, (i, i + 1, i + total - 1, i + total), expression_spans(t, i + total));
                    }
                },
                None => {
                    lemma_expression_spans_cut(t, i + 1);
                },
            }
        }
    }
}

proof fn lemma_pieces_fit(
    t: Seq<u8>,
    spans: Seq<(int, int, int, int)>,
    cursor: int,
    code: bool,
    start: u32,
    col: u32,
)
    requires
        valid_utf8(t),
        t.len() <= usize::MAX,
        spans_cut(t, spans),
        spans_ordered(spans, cursor, t.len() as int),
        cut(t, cursor),
        start + t.len() <= u32::MAX,
        col + t.len() <= u32::MAX,
    ensures
        forall|k: int|
            0 <= k < pieces(t.len() as int, spans, cursor, code).len() ==> piece_fits(
                #[trigger] pieces(t.len() as int, spans, cursor, code)[k],
                t,
                start,
                col,
            ),
    decreases spans.len(),
{
    let len = t.len() as int;
    let ps = pieces(len, spans, cursor, code);
    if spans.len() == 0 {
        if cursor < len {
            lemma_cut_valid(t, cursor, len);
        }
    } else {
        let p = spans[0];
        assert(spans_cut(t, spans.drop_first())) by {
            assert forall|k: int| 0 <= k < spans.drop_first().len() implies {
                let q = #[trigger] spans.drop_first()[k];
                &&& 0 <= q.0 < q.1 <= q.2 < q.3 <= t.len()
                &&& cut(t, q.0)
                &&& cut(t, q.1)
                &&& cut(t, q.2)
                &&& cut(t, q.3)
            } by {
                assert(spans.drop_first()[k] == spans[k + 1]);
            }
        }
        assert(spans[0] == p);
        lemma_pieces_fit(t, spans.drop_first(), p.3, code, start, col);
        let rest = pieces(len, spans.drop_first(), p.3, code);
        let lead = if p.0 > cursor {
            seq![LabelPiece::Text { start: cursor as usize, end: p.0 as usize }]
        } else {
            Seq::empty()
        };
        let mid = if code {
            LabelPiece::InlineCode {
                start: p.0 as usize,
                end: p.3 as usize,
                code_start: p.1 as usize,
                code_end: p.2 as usize,
            }
        } else {
            LabelPiece::Expression {
                start: p.0 as usize,
                end: p.3 as usize,
                content_start: p.1 as usize,
                content_end: p.2 as usize,
            }
        };
        assert(ps == lead + seq![mid] + rest);
        lemma_cut_valid(t, p.1, p.2);
        if p.0 > cursor {
            lemma_cut_valid(t, cursor, p.0);
        }
        assert forall|k: int| 0 <= k < ps.len() implies piece_fits(#[trigger] ps[k], t, start, col) by {
            if k >= lead.len() + 1 {
                assert(ps[k] == rest[k - lead.len() - 1]);
            } else if k == lead.len() {
                assert(ps[k] == mid);
            } else {
                assert(ps[k] == lead[k]);
            }
        }
    }
}

/// The text node's value is a valid reference to whole characters of the
/// source, or the node has no data.
pub open spec fn text_node_ok(a: Arena, id: u32) -> bool {
    &&& a.well_formed()
    &&& a.has_node(id as int)
    &&& a.data_in_bounds(id as int)
    &&& a.data_of(id as int).len() == 0 || (a.data_of(id as int).len() >= 8 && a.str_ok(
        read_ref(a.data_of(id as int), 0),
    ))
}

/// Splits a text node on balanced backtick runs: unless its value holds
/// none, the node is replaced in its parent by text and inline-code nodes
/// (`true` is returned); else the arena is left as it is.
pub fn split_label_on_backticks(arena: &mut Arena, text_id: u32) -> (changed: bool)
    requires
        text_node_ok(*old(arena), text_id),
        old(arena).data_of(text_id as int).len() > 0 ==> {
            let a = *old(arena);
            let tb = text_bytes(a, text_id);
            let n = a.nodes_view()[text_id as int];
            &&& pieces_room(a, text_id, pieces(tb.len() as int, backtick_pairs(tb, 0), 0, true))
            &&& n.start_offset + tb.len() <= u32::MAX
            &&& n.start_column + tb.len() <= u32::MAX
        },
    ensures
        ({
            let a = *old(arena);
            let tb = text_bytes(a, text_id);
            if a.data_of(text_id as int).len() == 0 || backtick_pairs(tb, 0).len() == 0 {
                !changed && *final(arena) == a
            } else {
                changed && label_pieces_applied(
                    a,
                    *final(arena),
                    text_id,
                    pieces(tb.len() as int, backtick_pairs(tb, 0), 0, true),
                )
            }
        }),
{
    let ghost a0 = *arena;
    let data = arena.get_type_data(text_id);
    if data.len() == 0 {
        return false;
    }
    let sr = decode_string_ref_data(data);
    let tb = arena.get_str(sr).as_bytes_vec();
    let ghost t = tb@;
    proof {
        encode_utf8_valid_utf8(arena.str_of(sr));
    }
    let split = split_text_on_backticks(tb.as_slice());
    match split {
        None => false,
        Some(ps) => {
            let node = *arena.get_node(text_id);
            proof {
                lemma_backtick_pairs_cut(t, 0);
                lemma_backtick_pairs_ordered(t, 0);
                lemma_pieces_fit(t, backtick_pairs(t, 0), 0, true, node.start_offset, node.start_column);
            }
            apply_label_pieces(arena, text_id, ps.as_slice());
            true
        },
    }
}

/// Splits a text node on MDX expressions: unless its value holds none, the
/// node is replaced in its parent by text and text-expression nodes (`true`
/// is returned); else the arena is left as it is.
pub fn split_label_on_mdx_expressions(arena: &mut Arena, text_id: u32) -> (changed: bool)
    requires
        text_node_ok(*old(arena), text_id),
        old(arena).data_of(text_id as int).len() > 0 ==> {
            let a = *old(arena);
            let tb = text_bytes(a, text_id);
            let n = a.nodes_view()[text_id as int];
            &&& tb.len() < usize::MAX
            &&& pieces_room(a, text_id, pieces(tb.len() as int, expression_spans(tb, 0), 0, false))
            &&& n.start_offset + tb.len() <= u32::MAX
            &&& n.start_column + tb.len() <= u32::MAX
        },
    ensures
        ({
            let a = *old(arena);
            let tb = text_bytes(a, text_id);
            if a.data_of(text_id as int).len() == 0 || expression_spans(tb, 0).len() == 0 {
                !changed && *final(arena) == a
            } else {
                changed && label_pieces_applied(
                    a,
                    *final(arena),
                    text_id,
                    pieces(tb.len() as int, expression_spans(tb, 0), 0, false),
                )
            }
        }),
{
    let ghost a0 = *arena;
    let data = arena.get_type_data(text_id);
    if data.len() == 0 {
        return false;
    }
    let sr = decode_string_ref_data(data);
    let tb = arena.get_str(sr).as_bytes_vec();
    let ghost t = tb@;
    proof {
        encode_utf8_valid_utf8(arena.str_of(sr));
    }
    let split = split_text_on_mdx_expressions(tb.as_slice());
    match split {
        None => false,
        Some(ps) => {
            let node = *arena.get_node(text_id);
            proof {
                lemma_expression_spans_cut(t, 0);
                lemma_expression_spans_ordered(t, 0);
                lemma_pieces_fit(t, expression_spans(t, 0), 0, false, node.start_offset, node.start_column);
            }
            apply_label_pieces(arena, text_id, ps.as_slice());
            true
        },
    }
}

} // verus!
