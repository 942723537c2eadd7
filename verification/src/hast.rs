//! An HTML tree (HAST) kept in an arena in the HAST binary layout: the
//! builder that grows one (elements with properties, text, comments,
//! doctypes, raw HTML) and its serialisation to HTML.
use vstd::prelude::*;
use vstd::string::*;
use vstd::utf8::*;
use crate::arena::{Arena, with_data, with_children, with_parent, lemma_first_byte_not_continuation};
use crate::builder::{ArenaBuilder, close_all, close_step, pending_total};
use crate::codec::{
    decode_element_tag, encode_element_data, encode_text_data, lemma_element_roundtrip, lemma_ref_roundtrip,
    element_bytes, read_le32, read_prop, read_ref, ref_bytes, HAST_COMMENT, HAST_DOCTYPE, HAST_ELEMENT,
    HAST_RAW, HAST_ROOT, HAST_TEXT, PROP_BOOL_FALSE, PROP_BOOL_TRUE, PROP_COMMA_SEP, PROP_SPACE_SEP,
    PROP_STRING,
};
use crate::html::{
    children_ok, hast_buffer_html, hast_buffer_ok, hast_buffer_to_html, hast_buffer_to_xhtml,
    hast_buffer_xhtml, node_ok, prop_ok,
};
use crate::node::{ArenaNode, StringRef};
use crate::raw_buffer::{
    buffer_children, buffer_error, buffer_nodes, buffer_type_data, children_in_buffer,
    data_in_buffer, hdr_node_count, lemma_wire_roundtrip, node_children, node_data, source_region,
    wire_bytes, wire_len,
};
use crate::text::{lemma_encode_concat, on_boundary, range_ok, decode_range};

verus! {

/// The value of an element property; string values point into the source.
#[derive(Debug, Clone, Copy, PartialEq, Eq, Structural)]
pub enum PropertyValue {
    String(StringRef),
    Bool(bool),
    SpaceSeparated(StringRef),
    CommaSeparated(StringRef),
}

/// An element property: its name and its value.
#[derive(Debug, Clone, Copy, PartialEq, Eq, Structural)]
pub struct Property {
    pub name: StringRef,
    pub value: PropertyValue,
}

/// The `(name, kind, value)` entry that element data stores for a property;
/// boolean properties store an empty value reference.
pub open spec fn prop_entry(p: Property) -> (StringRef, u8, StringRef) {
    let none = StringRef { offset: 0, len: 0 };
    match p.value {
        PropertyValue::String(v) => (p.name, PROP_STRING, v),
        PropertyValue::Bool(b) => (p.name, if b { PROP_BOOL_TRUE } else { PROP_BOOL_FALSE }, none),
        PropertyValue::SpaceSeparated(v) => (p.name, PROP_SPACE_SEP, v),
        PropertyValue::CommaSeparated(v) => (p.name, PROP_COMMA_SEP, v),
    }
}

/// The reference lies on whole characters of the UTF-8 bytes `src`.
pub open spec fn ref_ok(src: Seq<u8>, sr: StringRef) -> bool {
    range_ok(src, sr.offset as int, sr.len as int)
}

/// The strings that a property entry renders lie on whole characters of
/// `src` (the value only for the kinds that have one).
pub open spec fn entry_refs_ok(src: Seq<u8>, p: (StringRef, u8, StringRef)) -> bool {
    &&& ref_ok(src, p.0)
    &&& (p.1 == PROP_STRING || p.1 == PROP_SPACE_SEP || p.1 == PROP_COMMA_SEP) ==> ref_ok(src, p.2)
}

/// The type data of node record `n` within the type-data bytes `td`.
pub open spec fn data_in(n: ArenaNode, td: Seq<u8>) -> Seq<u8> {
    td.subrange(n.data_offset as int, n.data_offset + n.data_len)
}

/// Element data names its tag and each of its property entries readably:
/// the tag and the strings of every entry lie on whole characters of `src`.
pub open spec fn element_data_ok(data: Seq<u8>, src: Seq<u8>) -> bool {
    &&& ref_ok(src, read_ref(data, 0))
    &&& 16 + 20 * read_le32(data, 8) <= data.len()
    &&& forall|i: int| 0 <= i < read_le32(data, 8) ==> #[trigger] entry_refs_ok(src, read_prop(data, i))
}

/// What a HAST node's data refers to is readable: an element's tag and
/// property strings, and the string of a text, comment or raw node.
pub open spec fn hast_node_ok(n: ArenaNode, td: Seq<u8>, src: Seq<u8>) -> bool {
    let data = data_in(n, td);
    if n.node_type == HAST_ELEMENT {
        data.len() >= 16 ==> element_data_ok(data, src)
    } else if n.node_type == HAST_TEXT || n.node_type == HAST_COMMENT || n.node_type == HAST_RAW {
        data.len() >= 8 ==> ref_ok(src, read_ref(data, 0))
    } else {
        true
    }
}

/// Every node of the arena is a readable HAST node.
pub open spec fn hast_nodes_ok(a: Arena) -> bool {
    forall|i: int|
        0 <= i < a.nodes_view().len() ==> #[trigger] hast_node_ok(
            a.nodes_view()[i],
            a.type_data_view(),
            a.source_bytes(),
        )
}

/// Two node records agree on their kind and on their data range.
pub open spec fn same_payload(x: ArenaNode, y: ArenaNode) -> bool {
    &&& x.node_type == y.node_type
    &&& x.data_offset == y.data_offset
    &&& x.data_len == y.data_len
}

/// A reference on whole characters stays so, and reads the same text, when
/// more text is appended to the source.
pub proof fn lemma_ref_ok_extend(s: Seq<char>, t: Seq<char>, sr: StringRef)
    requires
        ref_ok(encode_utf8(s), sr),
    ensures
        ref_ok(encode_utf8(s + t), sr),
        decode_range(encode_utf8(s + t), sr.offset as int, sr.len as int) == decode_range(
            encode_utf8(s),
            sr.offset as int,
            sr.len as int,
        ),
{
    lemma_encode_concat(s, t);
    let es = encode_utf8(s);
    let et = encode_utf8(t);
    let b = encode_utf8(s + t);
    assert(b =~= es + et);
    if et.len() > 0 {
        lemma_first_byte_not_continuation(t);
        assert(b[es.len() as int] == et[0]);
    }
    let st = sr.offset as int;
    let en = sr.offset + sr.len;
    assert(on_boundary(b, st)) by {
        if 0 < st < es.len() {
            assert(b[st] == es[st]);
        }
    }
    assert(on_boundary(b, en)) by {
        if 0 < en < es.len() {
            assert(b[en] == es[en]);
        }
    }
    assert(b.subrange(st, en) =~= es.subrange(st, en));
}

/// Changing only the links of existing nodes (all but node `skip`), adding
/// nodes, appending type data and appending source text keeps the existing
/// nodes (all but `skip`) readable.
pub proof fn lemma_keep_nodes_ok(a: Arena, b: Arena, t: Seq<char>, skip: int)
    requires
        a.well_formed(),
        hast_nodes_ok(a),
        a.nodes_view().len() <= b.nodes_view().len(),
        forall|i: int|
            0 <= i < a.nodes_view().len() && i != skip ==> same_payload(
                #[trigger] b.nodes_view()[i],
                a.nodes_view()[i],
            ),
        a.type_data_view().len() <= b.type_data_view().len(),
        b.type_data_view().subrange(0, a.type_data_view().len() as int) == a.type_data_view(),
        b.source_view() == a.source_view() + t,
    ensures
        forall|i: int|
            0 <= i < a.nodes_view().len() && i != skip ==> #[trigger] hast_node_ok(
                b.nodes_view()[i],
                b.type_data_view(),
                b.source_bytes(),
            ),
{
    assert forall|i: int| 0 <= i < a.nodes_view().len() && i != skip implies #[trigger] hast_node_ok(
        b.nodes_view()[i],
        b.type_data_view(),
        b.source_bytes(),
    ) by {
        let n = a.nodes_view()[i];
        let m = b.nodes_view()[i];
        assert(same_payload(m, n));
        assert(hast_node_ok(n, a.type_data_view(), a.source_bytes()));
        assert(a.data_in_bounds(i));
        let d = data_in(n, a.type_data_view());
        assert(data_in(m, b.type_data_view()) =~= d) by {
            assert forall|k: int| 0 <= k < d.len() implies data_in(m, b.type_data_view())[k] == d[k] by {
                assert(b.type_data_view().subrange(0, a.type_data_view().len() as int)[n.data_offset + k]
                    == a.type_data_view()[n.data_offset + k]);
            }
        }
        if n.node_type == HAST_ELEMENT {
            if d.len() >= 16 {
                lemma_ref_ok_extend(a.source_view(), t, read_ref(d, 0));
                assert(element_data_ok(d, a.source_bytes()));
                assert forall|j: int| 0 <= j < read_le32(d, 8) implies #[trigger] entry_refs_ok(
                    b.source_bytes(),
                    read_prop(d, j),
                ) by {
                    assert(entry_refs_ok(a.source_bytes(), read_prop(d, j)));
                    let p = read_prop(d, j);
                    lemma_ref_ok_extend(a.source_view(), t, p.0);
                    if p.1 == PROP_STRING || p.1 == PROP_SPACE_SEP || p.1 == PROP_COMMA_SEP {
                        lemma_ref_ok_extend(a.source_view(), t, p.2);
                    }
                }
                assert(element_data_ok(d, b.source_bytes()));
            }
        } else if n.node_type == HAST_TEXT || n.node_type == HAST_COMMENT || n.node_type == HAST_RAW {
            if d.len() >= 8 {
                lemma_ref_ok_extend(a.source_view(), t, read_ref(d, 0));
            }
        }
    }
}

/// Every node of a list that renders fine makes the list render fine.
proof fn lemma_children_ok_from(b: Seq<u8>, kids: Seq<u32>, fuel: nat)
    requires
        forall|k: int| 0 <= k < kids.len() ==> #[trigger] node_ok(b, kids[k] as int, fuel),
    ensures
        children_ok(b, kids, fuel),
    decreases kids.len(),
{
    if kids.len() > 0 {
        lemma_children_ok_from(b, kids.drop_last(), fuel);
        assert(node_ok(b, kids[kids.len() - 1] as int, fuel));
    }
}

/// Reading node `id` of a buffer that holds the arena's nodes, children,
/// type data and source gives the node's child list and data.
proof fn lemma_node_in_buffer(a: Arena, b: Seq<u8>, id: int)
    requires
        a.well_formed(),
        0 <= id < a.nodes_view().len(),
        buffer_error(b) is None,
        buffer_nodes(b) == a.nodes_view(),
        buffer_children(b) == a.children_view(),
        buffer_type_data(b) == a.type_data_view(),
    ensures
        data_in_buffer(b, a.nodes_view()[id]),
        node_data(b, a.nodes_view()[id]) == a.data_of(id),
        children_in_buffer(b, a.nodes_view()[id]),
        node_children(b, a.nodes_view()[id]) == a.children_of(id),
{
    let n = a.nodes_view()[id];
    assert(a.children_in_bounds(id) && a.data_in_bounds(id));
    let td = a.type_data_view();
    assert(buffer_type_data(b).len() == td.len());
    let d = node_data(b, n);
    assert forall|k: int| 0 <= k < d.len() implies d[k] == a.data_of(id)[k] by {
        assert(buffer_type_data(b)[n.data_offset + k] == td[n.data_offset + k]);
    }
    assert(d =~= a.data_of(id));
    assert(buffer_children(b).len() == a.children_view().len());
    let ks = node_children(b, n);
    assert forall|k: int| 0 <= k < ks.len() implies ks[k] == a.children_of(id)[k] by {
        assert(buffer_children(b)[n.children_start + k] == a.children_view()[n.children_start + k]);
    }
    assert(ks =~= a.children_of(id));
}

/// In a buffer that holds a readable HAST arena, every node renders fine
/// whatever the depth allowed.
proof fn lemma_all_nodes_ok(a: Arena, b: Seq<u8>, fuel: nat)
    requires
        a.well_formed(),
        hast_nodes_ok(a),
        buffer_error(b) is None,
        buffer_nodes(b) == a.nodes_view(),
        buffer_children(b) == a.children_view(),
        buffer_type_data(b) == a.type_data_view(),
        source_region(b) == a.source_bytes(),
    ensures
        forall|id: int| 0 <= id < a.nodes_view().len() ==> #[trigger] node_ok(b, id, fuel),
    decreases fuel,
{
    if fuel > 0 {
        lemma_all_nodes_ok(a, b, (fuel - 1) as nat);
    }
    assert(buffer_nodes(b).len() == hdr_node_count(b));
    assert forall|id: int| 0 <= id < a.nodes_view().len() implies #[trigger] node_ok(b, id, fuel) by {
        if fuel > 0 {
            let n = a.nodes_view()[id];
            lemma_node_in_buffer(a, b, id);
            let kids = a.children_of(id);
            assert forall|k: int| 0 <= k < kids.len() implies #[trigger] node_ok(
                b,
                kids[k] as int,
                (fuel - 1) as nat,
            ) by {
                assert(id < kids[k] < a.nodes_view().len());
            }
            lemma_children_ok_from(b, kids, (fuel - 1) as nat);
            assert(hast_node_ok(n, a.type_data_view(), a.source_bytes()));
            let data = a.data_of(id);
            if n.node_type == HAST_ELEMENT && data.len() >= 16 {
                assert(data_in(n, a.type_data_view()) == data);
                assert(element_data_ok(data, a.source_bytes()));
                assert forall|i: int| 0 <= i < read_le32(data, 8) implies #[trigger] prop_ok(b, data, i) by {
                    assert(entry_refs_ok(a.source_bytes(), read_prop(data, i)));
                }
            }
        }
    }
}

/// A readable HAST arena with at least one node serialises to a buffer
/// that renders without reading outside it.
pub proof fn lemma_renderable(a: Arena)
    requires
        a.well_formed(),
        hast_nodes_ok(a),
        a.nodes_view().len() > 0,
        wire_len(
            a.nodes_view().len(),
            a.children_view().len(),
            a.type_data_view().len(),
            a.source_bytes().len(),
        ) <= u32::MAX,
    ensures
        hast_buffer_ok(wire_bytes(a)),
{
    lemma_wire_roundtrip(a);
    let b = wire_bytes(a);
    assert(buffer_nodes(b).len() == hdr_node_count(b));
    lemma_all_nodes_ok(a, b, hdr_node_count(b) as nat);
}

// ---------------------------------------------------------------------------
// Building
// ---------------------------------------------------------------------------

/// The builder is well formed and its arena is a readable HAST arena.
pub open spec fn builder_ok(b: ArenaBuilder) -> bool {
    &&& b.wf()
    &&& hast_nodes_ok(b.arena_view())
}

/// Adding `nodes` nodes, `text` source bytes, `data` type-data bytes and
/// `links` child-list entries (counting the pending ones) keeps every count
/// of the builder's arena within 32 bits.
pub open spec fn builder_room(b: ArenaBuilder, nodes: int, text: int, data: int, links: int) -> bool {
    let a = b.arena_view();
    &&& a.nodes_view().len() + nodes <= u32::MAX
    &&& a.source_bytes().len() + text <= u32::MAX
    &&& a.type_data_view().len() + data <= u32::MAX
    &&& a.children_view().len() + pending_total(b.frames()) + links <= u32::MAX
}

/// The reference that a string of `n` bytes gets when it is appended to
/// the source of `a`.
pub open spec fn next_ref(a: Arena, n: nat) -> StringRef {
    StringRef { offset: a.source_bytes().len() as u32, len: n as u32 }
}

/// The record of a leaf of kind `code` added as node `id` under the open
/// frames `fs` of an arena whose children array has `links` entries.
pub open spec fn leaf_record(id: u32, code: u8, links: nat, fs: Seq<(u32, Seq<u32>)>) -> ArenaNode {
    let fresh = with_children(ArenaNode::fresh(id, code), links as u32, 0);
    if fs.len() > 0 {
        with_parent(fresh, fs.last().0)
    } else {
        fresh
    }
}

/// The open frames after a leaf `id` is added: it joins the pending
/// children of the top frame.
pub open spec fn frames_with_leaf(fs: Seq<(u32, Seq<u32>)>, id: u32) -> Seq<(u32, Seq<u32>)> {
    if fs.len() > 0 {
        fs.drop_last().push((fs.last().0, fs.last().1.push(id)))
    } else {
        fs
    }
}

/// Point an existing node's data range at `data`, appended to the type data.
fn set_node_data(builder: &mut ArenaBuilder, id: u32, data: &[u8])
    requires
        old(builder).wf(),
        old(builder).arena_view().has_node(id as int),
        old(builder).arena_view().type_data_view().len() + data@.len() <= u32::MAX,
    ensures
        final(builder).wf(),
        final(builder).frames() == old(builder).frames(),
        ({
            let a = old(builder).arena_view();
            final(builder).arena_view().nodes_view() == a.nodes_view().update(
                id as int,
                with_data(a.nodes_view()[id as int], a.type_data_view().len() as u32, data@.len() as u32),
            )
        }),
        final(builder).arena_view().type_data_view() == old(builder).arena_view().type_data_view() + data@,
        final(builder).arena_view().children_view() == old(builder).arena_view().children_view(),
        final(builder).arena_view().source_view() == old(builder).arena_view().source_view(),
{
    let ghost a0 = builder.arena_view();
    builder.arena_mut().set_type_data(id, data);
    proof {
        let a = builder.arena_view();
        assert forall|i: int| 0 <= i < a.nodes_view().len() implies {
            &&& a.children_in_bounds(i)
            &&& a.data_in_bounds(i)
            &&& forall|k: int|
                0 <= k < a.children_of(i).len() ==> i < #[trigger] a.children_of(i)[k]
                    < a.nodes_view().len()
        } by {
            assert(a0.nodes_view()[i] == a0.nodes_view()[i]);
            assert(a.children_of(i) == a0.children_of(i));
        }
        let fs = builder.frames();
        assert forall|k: int| 0 <= k < fs.len() implies #[trigger] a.nodes_view()[fs[k].0 as int].children_count == 0 by {
            assert(a0.nodes_view()[fs[k].0 as int].children_count == 0);
        }
    }
}

/// Open an element node with the given tag and property entries.
fn open_element_with_props(builder: &mut ArenaBuilder, tag: &str, props: &[(StringRef, u8, StringRef)]) -> (id: u32)
    requires
        builder_ok(*old(builder)),
        builder_room(*old(builder), 1, tag.spec_bytes().len() as int, 16 + 20 * props@.len() as int, 1),
        forall|k: int| 0 <= k < props@.len() ==> #[trigger] entry_refs_ok(
            old(builder).arena_view().source_bytes(),
            props@[k],
        ),
    ensures
        builder_ok(*final(builder)),
        ({
            let a = old(builder).arena_view();
            let tag_ref = next_ref(a, tag.spec_bytes().len());
            &&& id == a.nodes_view().len()
            &&& final(builder).frames() == old(builder).frames().push((id, Seq::<u32>::empty()))
            &&& final(builder).arena_view().nodes_view() == a.nodes_view().push(
                with_data(ArenaNode::fresh(id, HAST_ELEMENT), a.type_data_view().len() as u32, (16 + 20 * props@.len()) as u32),
            )
            &&& final(builder).arena_view().type_data_view() == a.type_data_view() + element_bytes(tag_ref, props@)
            &&& final(builder).arena_view().source_view() == a.source_view() + tag@
            &&& final(builder).arena_view().children_view() == a.children_view()
            &&& final(builder).arena_view().str_of(tag_ref) == tag@
        }),
{
    let ghost a0 = builder.arena_view();
    let id = builder.open_node_raw(HAST_ELEMENT);
    let ghost a1 = builder.arena_view();
    let tag_ref = builder.alloc_string(tag);
    let ghost a2 = builder.arena_view();
    let encoded = encode_element_data(tag_ref, props);
    proof {
        lemma_element_roundtrip(tag_ref, props@);
    }
    builder.set_data_current(&encoded);
    proof {
        let a = builder.arena_view();
        let n = a.nodes_view();
        assert(n =~= a0.nodes_view().push(
            with_data(ArenaNode::fresh(id, HAST_ELEMENT), a0.type_data_view().len() as u32, (16 + 20 * props@.len()) as u32),
        ));
        assert forall|i: int| 0 <= i < a0.nodes_view().len() implies same_payload(#[trigger] a.nodes_view()[i], a0.nodes_view()[i]) by {}
        assert(a.type_data_view().subrange(0, a0.type_data_view().len() as int) =~= a0.type_data_view());
        lemma_keep_nodes_ok(a0, a, tag@, -1);
        let d = data_in(n[id as int], a.type_data_view());
        assert(d =~= element_bytes(tag_ref, props@));
        assert forall|i: int| 0 <= i < read_le32(d, 8) implies #[trigger] entry_refs_ok(a.source_bytes(), read_prop(d, i)) by {
            assert(entry_refs_ok(a0.source_bytes(), props@[i]));
            lemma_ref_ok_extend(a0.source_view(), tag@, props@[i].0);
            if props@[i].1 == PROP_STRING || props@[i].1 == PROP_SPACE_SEP || props@[i].1 == PROP_COMMA_SEP {
                lemma_ref_ok_extend(a0.source_view(), tag@, props@[i].2);
            }
        }
        assert(element_data_ok(d, a.source_bytes()));
        assert(hast_node_ok(n[id as int], a.type_data_view(), a.source_bytes()));
        assert(hast_nodes_ok(a));
    }
    id
}

/// Open an element node with the given tag and no properties.
fn open_element(builder: &mut ArenaBuilder, tag: &str) -> (id: u32)
    requires
        builder_ok(*old(builder)),
        builder_room(*old(builder), 1, tag.spec_bytes().len() as int, 16, 1),
    ensures
        builder_ok(*final(builder)),
        ({
            let a = old(builder).arena_view();
            let tag_ref = next_ref(a, tag.spec_bytes().len());
            &&& id == a.nodes_view().len()
            &&& final(builder).frames() == old(builder).frames().push((id, Seq::<u32>::empty()))
            &&& final(builder).arena_view().nodes_view() == a.nodes_view().push(
                with_data(ArenaNode::fresh(id, HAST_ELEMENT), a.type_data_view().len() as u32, 16),
            )
            &&& final(builder).arena_view().type_data_view() == a.type_data_view() + element_bytes(
                tag_ref,
                Seq::empty(),
            )
            &&& final(builder).arena_view().source_view() == a.source_view() + tag@
            &&& final(builder).arena_view().children_view() == a.children_view()
            &&& final(builder).arena_view().str_of(tag_ref) == tag@
        }),
{
    let none: [(StringRef, u8, StringRef); 0] = [];
    let id = open_element_with_props(builder, tag, &none);
    proof {
        assert(none@ =~= Seq::<(StringRef, u8, StringRef)>::empty());
    }
    id
}

/// Close the open node on top of the stack; the arena stays readable.
fn close_element(builder: &mut ArenaBuilder) -> (id: u32)
    requires
        builder_ok(*old(builder)),
        old(builder).fits(),
        old(builder).frames().len() > 0,
    ensures
        builder_ok(*final(builder)),
        final(builder).fits(),
        id == old(builder).frames().last().0,
        ({
            let st = close_step(
                old(builder).arena_view().nodes_view(),
                old(builder).arena_view().children_view(),
                old(builder).frames(),
            );
            &&& final(builder).arena_view().nodes_view() == st.0
            &&& final(builder).arena_view().children_view() == st.1
            &&& final(builder).frames() == st.2
        }),
        final(builder).arena_view().type_data_view() == old(builder).arena_view().type_data_view(),
        final(builder).arena_view().source_view() == old(builder).arena_view().source_view(),
        final(builder).arena_view().children_view().len() + pending_total(final(builder).frames())
            <= old(builder).arena_view().children_view().len() + pending_total(old(builder).frames()),
{
    let ghost a0 = builder.arena_view();
    let id = builder.close_node();
    proof {
        let a = builder.arena_view();
        assert forall|i: int| 0 <= i < a0.nodes_view().len() implies same_payload(#[trigger] a.nodes_view()[i], a0.nodes_view()[i]) by {}
        assert(a.type_data_view().subrange(0, a0.type_data_view().len() as int) =~= a0.type_data_view());
        assert(a.source_view() =~= a0.source_view() + Seq::<char>::empty());
        lemma_keep_nodes_ok(a0, a, Seq::<char>::empty(), -1);
    }
    id
}

/// Add a leaf of kind `code` (text, comment or raw HTML) holding `text`
/// under the open node on top of the stack.
fn add_string_leaf(builder: &mut ArenaBuilder, code: u8, text: &str) -> (id: u32)
    requires
        builder_ok(*old(builder)),
        code == HAST_TEXT || code == HAST_COMMENT || code == HAST_RAW,
        builder_room(*old(builder), 1, text.spec_bytes().len() as int, 8, 1),
    ensures
        builder_ok(*final(builder)),
        final(builder).fits(),
        ({
            let a = old(builder).arena_view();
            let fs = old(builder).frames();
            let r = next_ref(a, text.spec_bytes().len());
            &&& id == a.nodes_view().len()
            &&& final(builder).arena_view().nodes_view() == a.nodes_view().push(
                with_data(leaf_record(id, code, a.children_view().len(), fs), a.type_data_view().len() as u32, 8),
            )
            &&& final(builder).arena_view().children_view() == a.children_view()
            &&& final(builder).arena_view().type_data_view() == a.type_data_view() + ref_bytes(r)
            &&& final(builder).arena_view().source_view() == a.source_view() + text@
            &&& final(builder).frames() == frames_with_leaf(fs, id)
            &&& final(builder).arena_view().str_of(r) == text@
        }),
        final(builder).arena_view().children_view().len() + pending_total(final(builder).frames())
            <= old(builder).arena_view().children_view().len() + pending_total(old(builder).frames()) + 1,
{
    let ghost a0 = builder.arena_view();
    let ghost fs0 = builder.frames();
    let r = builder.alloc_string(text);
    let id = builder.add_leaf_raw(code);
    let encoded = encode_text_data(r);
    set_node_data(builder, id, &encoded);
    proof {
        let a = builder.arena_view();
        let n = a.nodes_view();
        let leaf = with_data(leaf_record(id, code, a0.children_view().len(), fs0), a0.type_data_view().len() as u32, 8);
        assert(n =~= a0.nodes_view().push(leaf));
        assert forall|i: int| 0 <= i < a0.nodes_view().len() implies same_payload(#[trigger] a.nodes_view()[i], a0.nodes_view()[i]) by {}
        assert(a.type_data_view().subrange(0, a0.type_data_view().len() as int) =~= a0.type_data_view());
        lemma_keep_nodes_ok(a0, a, text@, -1);
        let d = data_in(n[id as int], a.type_data_view());
        assert(d =~= ref_bytes(r));
        lemma_ref_roundtrip(r, Seq::empty(), Seq::empty());
        assert(Seq::<u8>::empty() + ref_bytes(r) + Seq::<u8>::empty() =~= d);
        assert(hast_node_ok(n[id as int], a.type_data_view(), a.source_bytes()));
        assert(hast_nodes_ok(a));
        // the pending total grows by the one new entry
        let fs = builder.frames();
        if fs0.len() > 0 {
            assert(fs.drop_last() =~= fs0.drop_last());
            assert(pending_total(fs) == pending_total(fs0) + 1);
        }
    }
    id
}

/// Add a text leaf holding `text`.
fn add_text_node(builder: &mut ArenaBuilder, text: &str) -> (id: u32)
    requires
        builder_ok(*old(builder)),
        builder_room(*old(builder), 1, text.spec_bytes().len() as int, 8, 1),
    ensures
        builder_ok(*final(builder)),
        final(builder).fits(),
        ({
            let a = old(builder).arena_view();
            let fs = old(builder).frames();
            let r = next_ref(a, text.spec_bytes().len());
            &&& id == a.nodes_view().len()
            &&& final(builder).arena_view().nodes_view() == a.nodes_view().push(
                with_data(leaf_record(id, HAST_TEXT, a.children_view().len(), fs), a.type_data_view().len() as u32, 8),
            )
            &&& final(builder).arena_view().children_view() == a.children_view()
            &&& final(builder).arena_view().type_data_view() == a.type_data_view() + ref_bytes(r)
            &&& final(builder).arena_view().source_view() == a.source_view() + text@
            &&& final(builder).frames() == frames_with_leaf(fs, id)
            &&& final(builder).arena_view().str_of(r) == text@
        }),
        final(builder).arena_view().children_view().len() + pending_total(final(builder).frames())
            <= old(builder).arena_view().children_view().len() + pending_total(old(builder).frames()) + 1,
{
    add_string_leaf(builder, HAST_TEXT, text)
}

/// Add a raw-HTML leaf holding `html`, which is output unescaped.
fn add_raw_node(builder: &mut ArenaBuilder, html: &str) -> (id: u32)
    requires
        builder_ok(*old(builder)),
        builder_room(*old(builder), 1, html.spec_bytes().len() as int, 8, 1),
    ensures
        builder_ok(*final(builder)),
        final(builder).fits(),
        ({
            let a = old(builder).arena_view();
            let fs = old(builder).frames();
            let r = next_ref(a, html.spec_bytes().len());
            &&& id == a.nodes_view().len()
            &&& final(builder).arena_view().nodes_view() == a.nodes_view().push(
                with_data(leaf_record(id, HAST_RAW, a.children_view().len(), fs), a.type_data_view().len() as u32, 8),
            )
            &&& final(builder).arena_view().children_view() == a.children_view()
            &&& final(builder).arena_view().type_data_view() == a.type_data_view() + ref_bytes(r)
            &&& final(builder).arena_view().source_view() == a.source_view() + html@
            &&& final(builder).frames() == frames_with_leaf(fs, id)
            &&& final(builder).arena_view().str_of(r) == html@
        }),
        final(builder).arena_view().children_view().len() + pending_total(final(builder).frames())
            <= old(builder).arena_view().children_view().len() + pending_total(old(builder).frames()) + 1,
{
    add_string_leaf(builder, HAST_RAW, html)
}

/// Closing frames only links nodes: every node keeps its kind and data.
proof fn lemma_close_all_payload(nodes: Seq<ArenaNode>, children: Seq<u32>, fs: Seq<(u32, Seq<u32>)>)
    ensures
        close_all(nodes, children, fs).0.len() == nodes.len(),
        forall|i: int|
            0 <= i < nodes.len() ==> same_payload(#[trigger] close_all(nodes, children, fs).0[i], nodes[i]),
    decreases fs.len(),
{
    if fs.len() > 0 {
        let st = close_step(nodes, children, fs);
        if st.2.len() < fs.len() {
            lemma_close_all_payload(st.0, st.1, st.2);
            assert forall|i: int| 0 <= i < nodes.len() implies same_payload(#[trigger] st.0[i], nodes[i]) by {}
        }
    }
}

/// The entry that element data stores for a property.
fn entry_of(p: Property) -> (r: (StringRef, u8, StringRef))
    ensures
        r == prop_entry(p),
{
    match p.value {
        PropertyValue::String(v) => (p.name, PROP_STRING, v),
        PropertyValue::Bool(b) => (p.name, if b { PROP_BOOL_TRUE } else { PROP_BOOL_FALSE }, StringRef::empty()),
        PropertyValue::SpaceSeparated(v) => (p.name, PROP_SPACE_SEP, v),
        PropertyValue::CommaSeparated(v) => (p.name, PROP_COMMA_SEP, v),
    }
}

/// The entries that element data stores for a list of properties.
pub open spec fn prop_entries(ps: Seq<Property>) -> Seq<(StringRef, u8, StringRef)> {
    ps.map_values(|p: Property| prop_entry(p))
}

/// A HAST tree under construction: nodes are opened and closed depth first;
/// text, comments, doctypes and raw HTML are added as leaves of the open
/// node; every string is appended to the arena's source.
pub struct HastBuilder {
    builder: ArenaBuilder,
}

/// A finished HAST tree: a well-formed arena whose nodes' data refer only to
/// whole characters of its source.
pub struct HastArena {
    arena: Arena,
}

impl HastArena {
    #[verifier::type_invariant]
    spec fn readable(self) -> bool {
        &&& self.arena.well_formed()
        &&& hast_nodes_ok(self.arena)
    }

    /// The arena holding the tree.
    pub closed spec fn arena_view(self) -> Arena {
        self.arena
    }

    /// The arena holding the tree.
    pub fn arena(&self) -> (r: &Arena)
        ensures
            *r == self.arena_view(),
            r.well_formed(),
            hast_nodes_ok(*r),
    {
        proof {
            use_type_invariant(self);
        }
        &self.arena
    }
}

impl HastBuilder {
    /// The arena builder underneath.
    pub closed spec fn inner(&self) -> ArenaBuilder {
        self.builder
    }

    /// The arena built so far.
    pub open spec fn arena_view(&self) -> Arena {
        self.inner().arena_view()
    }

    /// The open nodes, bottom first, each with the children closed under it so far.
    pub open spec fn frames(&self) -> Seq<(u32, Seq<u32>)> {
        self.inner().frames()
    }

    /// The builder is well formed and its arena is a readable HAST arena.
    pub open spec fn wf(&self) -> bool {
        builder_ok(self.inner())
    }

    /// Closing every open node fits the u32 children index.
    pub open spec fn fits(&self) -> bool {
        self.inner().fits()
    }

    /// Adding `nodes` nodes, `text` source bytes, `data` type-data bytes and
    /// `links` child-list entries keeps every count within 32 bits.
    pub open spec fn room(&self, nodes: int, text: int, data: int, links: int) -> bool {
        builder_room(self.inner(), nodes, text, data, links)
    }

    pub fn new() -> (r: Self)
        ensures
            r.wf(),
            r.fits(),
            r.frames() == Seq::<(u32, Seq<u32>)>::empty(),
            r.arena_view().nodes_view() == Seq::<ArenaNode>::empty(),
            r.arena_view().children_view() == Seq::<u32>::empty(),
            r.arena_view().type_data_view() == Seq::<u8>::empty(),
            r.arena_view().source_view() == Seq::<char>::empty(),
    {
        let r = HastBuilder { builder: ArenaBuilder::new(String::new()) };
        assert(hast_nodes_ok(r.arena_view()));
        r
    }

    /// Open the root node.
    pub fn open_root(&mut self) -> (id: u32)
        requires
            old(self).wf(),
            old(self).room(1, 0, 0, 1),
        ensures
            final(self).wf(),
            final(self).fits(),
            id == old(self).arena_view().nodes_view().len(),
            final(self).arena_view().nodes_view() == old(self).arena_view().nodes_view().push(
                ArenaNode::fresh(id, HAST_ROOT),
            ),
            final(self).arena_view().children_view() == old(self).arena_view().children_view(),
            final(self).arena_view().type_data_view() == old(self).arena_view().type_data_view(),
            final(self).arena_view().source_view() == old(self).arena_view().source_view(),
            final(self).frames() == old(self).frames().push((id, Seq::<u32>::empty())),
    {
        let ghost a0 = self.arena_view();
        let id = self.builder.open_node_raw(HAST_ROOT);
        proof {
            let a = self.arena_view();
            assert forall|i: int| 0 <= i < a0.nodes_view().len() implies same_payload(#[trigger] a.nodes_view()[i], a0.nodes_view()[i]) by {
                assert(a.nodes_view()[i] == a0.nodes_view()[i]);
            }
            assert(a.type_data_view().subrange(0, a0.type_data_view().len() as int) =~= a0.type_data_view());
            assert(a.source_view() =~= a0.source_view() + Seq::<char>::empty());
            lemma_keep_nodes_ok(a0, a, Seq::<char>::empty(), -1);
            assert(hast_node_ok(a.nodes_view()[id as int], a.type_data_view(), a.source_bytes()));
            assert(hast_nodes_ok(a));
        }
        id
    }

    /// Open an element with the given tag name; returns its id.
    pub fn open_element(&mut self, tag: &str) -> (id: u32)
        requires
            old(self).wf(),
            old(self).room(1, tag.spec_bytes().len() as int, 16, 1),
        ensures
            final(self).wf(),
            final(self).fits(),
            ({
                let a = old(self).arena_view();
                let tag_ref = next_ref(a, tag.spec_bytes().len());
                &&& id == a.nodes_view().len()
                &&& final(self).frames() == old(self).frames().push((id, Seq::<u32>::empty()))
                &&& final(self).arena_view().nodes_view() == a.nodes_view().push(
                    with_data(ArenaNode::fresh(id, HAST_ELEMENT), a.type_data_view().len() as u32, 16),
                )
                &&& final(self).arena_view().type_data_view() == a.type_data_view() + element_bytes(
                    tag_ref,
                    Seq::empty(),
                )
                &&& final(self).arena_view().source_view() == a.source_view() + tag@
                &&& final(self).arena_view().children_view() == a.children_view()
                &&& final(self).arena_view().str_of(tag_ref) == tag@
            }),
    {
        let id = open_element(&mut self.builder, tag);
        proof {
            lemma_pending_push(old(self).frames(), id);
        }
        id
    }

    /// Close the open node on top of the stack.
    pub fn close(&mut self)
        requires
            old(self).wf(),
            old(self).fits(),
            old(self).frames().len() > 0,
        ensures
            final(self).wf(),
            final(self).fits(),
            ({
                let st = close_step(
                    old(self).arena_view().nodes_view(),
                    old(self).arena_view().children_view(),
                    old(self).frames(),
                );
                &&& final(self).arena_view().nodes_view() == st.0
                &&& final(self).arena_view().children_view() == st.1
                &&& final(self).frames() == st.2
            }),
            final(self).arena_view().type_data_view() == old(self).arena_view().type_data_view(),
            final(self).arena_view().source_view() == old(self).arena_view().source_view(),
    {
        close_element(&mut self.builder);
    }

    /// Replace the properties of element `node_id`. A node that is not an
    /// element with element data is left as it is.
    pub fn set_properties(&mut self, node_id: u32, props: &[Property])
        requires
            old(self).wf(),
            old(self).arena_view().has_node(node_id as int),
            old(self).room(0, 0, 16 + 20 * props@.len() as int, 0),
            forall|k: int| 0 <= k < props@.len() ==> #[trigger] entry_refs_ok(
                old(self).arena_view().source_bytes(),
                prop_entry(props@[k]),
            ),
        ensures
            final(self).wf(),
            final(self).frames() == old(self).frames(),
            final(self).arena_view().children_view() == old(self).arena_view().children_view(),
            final(self).arena_view().source_view() == old(self).arena_view().source_view(),
            ({
                let a = old(self).arena_view();
                let n = a.nodes_view()[node_id as int];
                let data = a.data_of(node_id as int);
                if n.node_type == HAST_ELEMENT && data.len() >= 16 {
                    &&& final(self).arena_view().type_data_view() == a.type_data_view() + element_bytes(
                        read_ref(data, 0),
                        prop_entries(props@),
                    )
                    &&& final(self).arena_view().nodes_view() == a.nodes_view().update(
                        node_id as int,
                        with_data(n, a.type_data_view().len() as u32, (16 + 20 * props@.len()) as u32),
                    )
                } else {
                    final(self).arena_view() == a
                }
            }),
    {
        let ghost a0 = self.arena_view();
        let mut entries: Vec<(StringRef, u8, StringRef)> = Vec::new();
        for i in 0..props.len()
            invariant
                entries@ == prop_entries(props@.subrange(0, i as int)),
        {
            entries.push(entry_of(props[i]));
            proof {
                assert(prop_entries(props@.subrange(0, i + 1)) =~= prop_entries(props@.subrange(0, i as int)).push(prop_entry(props@[i as int])));
            }
        }
        proof {
            assert(props@.subrange(0, props@.len() as int) =~= props@);
        }
        let node_type = self.builder.arena_ref().get_node(node_id).node_type;
        proof {
            assert(a0.data_in_bounds(node_id as int));
        }
        let data = self.builder.arena_ref().get_type_data(node_id);
        if node_type != HAST_ELEMENT || data.len() < 16 {
            return;
        }
        let tag = decode_element_tag(data);
        let encoded = encode_element_data(tag, &entries);
        proof {
            lemma_element_roundtrip(tag, entries@);
        }
        set_node_data(&mut self.builder, node_id, &encoded);
        proof {
            let a = self.arena_view();
            let id = node_id as int;
            assert forall|i: int| 0 <= i < a0.nodes_view().len() && i != id implies same_payload(#[trigger] a.nodes_view()[i], a0.nodes_view()[i]) by {}
            assert(a.type_data_view().subrange(0, a0.type_data_view().len() as int) =~= a0.type_data_view());
            assert(a.source_view() =~= a0.source_view() + Seq::<char>::empty());
            lemma_keep_nodes_ok(a0, a, Seq::<char>::empty(), id);
            let old_data = data_in(a0.nodes_view()[id], a0.type_data_view());
            assert(hast_node_ok(a0.nodes_view()[id], a0.type_data_view(), a0.source_bytes()));
            assert(old_data == a0.data_of(id));
            assert(element_data_ok(old_data, a0.source_bytes()));
            let d = data_in(a.nodes_view()[id], a.type_data_view());
            assert(d =~= element_bytes(tag, entries@));
            assert forall|i: int| 0 <= i < read_le32(d, 8) implies #[trigger] entry_refs_ok(a.source_bytes(), read_prop(d, i)) by {
                assert(entries@[i] == prop_entry(props@[i]));
                assert(entry_refs_ok(a0.source_bytes(), prop_entry(props@[i])));
            }
            assert(element_data_ok(d, a.source_bytes()));
            assert(hast_node_ok(a.nodes_view()[id], a.type_data_view(), a.source_bytes()));
            assert(hast_nodes_ok(a));
        }
    }

    /// Add a text leaf under the open node on top of the stack.
    pub fn add_text(&mut self, text: &str)
        requires
            old(self).wf(),
            old(self).room(1, text.spec_bytes().len() as int, 8, 1),
        ensures
            final(self).wf(),
            final(self).fits(),
            ({
                let a = old(self).arena_view();
                let fs = old(self).frames();
                let id = a.nodes_view().len() as u32;
                let r = next_ref(a, text.spec_bytes().len());
                &&& final(self).arena_view().nodes_view() == a.nodes_view().push(
                    with_data(leaf_record(id, HAST_TEXT, a.children_view().len(), fs), a.type_data_view().len() as u32, 8),
                )
                &&& final(self).arena_view().children_view() == a.children_view()
                &&& final(self).arena_view().type_data_view() == a.type_data_view() + ref_bytes(r)
                &&& final(self).arena_view().source_view() == a.source_view() + text@
                &&& final(self).frames() == frames_with_leaf(fs, id)
                &&& final(self).arena_view().str_of(r) == text@
            }),
    {
        add_text_node(&mut self.builder, text);
    }

    /// Add a comment leaf under the open node on top of the stack.
    pub fn add_comment(&mut self, text: &str)
        requires
            old(self).wf(),
            old(self).room(1, text.spec_bytes().len() as int, 8, 1),
        ensures
            final(self).wf(),
            final(self).fits(),
            ({
                let a = old(self).arena_view();
                let fs = old(self).frames();
                let id = a.nodes_view().len() as u32;
                let r = next_ref(a, text.spec_bytes().len());
                &&& final(self).arena_view().nodes_view() == a.nodes_view().push(
                    with_data(leaf_record(id, HAST_COMMENT, a.children_view().len(), fs), a.type_data_view().len() as u32, 8),
                )
                &&& final(self).arena_view().children_view() == a.children_view()
                &&& final(self).arena_view().type_data_view() == a.type_data_view() + ref_bytes(r)
                &&& final(self).arena_view().source_view() == a.source_view() + text@
                &&& final(self).frames() == frames_with_leaf(fs, id)
                &&& final(self).arena_view().str_of(r) == text@
            }),
    {
        add_string_leaf(&mut self.builder, HAST_COMMENT, text);
    }

    /// Add a raw-HTML leaf (output as it is) under the open node on top of the stack.
    pub fn add_raw(&mut self, html: &str)
        requires
            old(self).wf(),
            old(self).room(1, html.spec_bytes().len() as int, 8, 1),
        ensures
            final(self).wf(),
            final(self).fits(),
            ({
                let a = old(self).arena_view();
                let fs = old(self).frames();
                let id = a.nodes_view().len() as u32;
                let r = next_ref(a, html.spec_bytes().len());
                &&& final(self).arena_view().nodes_view() == a.nodes_view().push(
                    with_data(leaf_record(id, HAST_RAW, a.children_view().len(), fs), a.type_data_view().len() as u32, 8),
                )
                &&& final(self).arena_view().children_view() == a.children_view()
                &&& final(self).arena_view().type_data_view() == a.type_data_view() + ref_bytes(r)
                &&& final(self).arena_view().source_view() == a.source_view() + html@
                &&& final(self).frames() == frames_with_leaf(fs, id)
                &&& final(self).arena_view().str_of(r) == html@
            }),
    {
        add_raw_node(&mut self.builder, html);
    }

    /// Add a doctype leaf under the open node on top of the stack.
    pub fn add_doctype(&mut self)
        requires
            old(self).wf(),
            old(self).room(1, 0, 0, 1),
        ensures
            final(self).wf(),
            final(self).fits(),
            ({
                let a = old(self).arena_view();
                let fs = old(self).frames();
                let id = a.nodes_view().len() as u32;
                &&& final(self).arena_view().nodes_view() == a.nodes_view().push(
                    leaf_record(id, HAST_DOCTYPE, a.children_view().len(), fs),
                )
                &&& final(self).arena_view().children_view() == a.children_view()
                &&& final(self).arena_view().type_data_view() == a.type_data_view()
                &&& final(self).arena_view().source_view() == a.source_view()
                &&& final(self).frames() == frames_with_leaf(fs, id)
            }),
    {
        let ghost a0 = self.arena_view();
        self.builder.add_leaf_raw(HAST_DOCTYPE);
        proof {
            let a = self.arena_view();
            assert forall|i: int| 0 <= i < a0.nodes_view().len() implies same_payload(#[trigger] a.nodes_view()[i], a0.nodes_view()[i]) by {
                assert(a.nodes_view()[i] == a0.nodes_view()[i]);
            }
            assert(a.type_data_view().subrange(0, a0.type_data_view().len() as int) =~= a0.type_data_view());
            assert(a.source_view() =~= a0.source_view() + Seq::<char>::empty());
            lemma_keep_nodes_ok(a0, a, Seq::<char>::empty(), -1);
            assert(hast_node_ok(a.nodes_view()[a0.nodes_view().len() as int], a.type_data_view(), a.source_bytes()));
            assert(hast_nodes_ok(a));
        }
    }

    /// Append a string to the source and return a reference to it, for use
    /// as a property name or value.
    pub fn alloc_string(&mut self, s: &str) -> (r: StringRef)
        requires
            old(self).wf(),
            old(self).room(0, s.spec_bytes().len() as int, 0, 0),
        ensures
            final(self).wf(),
            final(self).frames() == old(self).frames(),
            r == next_ref(old(self).arena_view(), s.spec_bytes().len()),
            final(self).arena_view().source_view() == old(self).arena_view().source_view() + s@,
            final(self).arena_view().str_ok(r),
            final(self).arena_view().str_of(r) == s@,
            final(self).arena_view().nodes_view() == old(self).arena_view().nodes_view(),
            final(self).arena_view().children_view() == old(self).arena_view().children_view(),
            final(self).arena_view().type_data_view() == old(self).arena_view().type_data_view(),
    {
        let ghost a0 = self.arena_view();
        let r = self.builder.alloc_string(s);
        proof {
            let a = self.arena_view();
            assert forall|i: int| 0 <= i < a0.nodes_view().len() implies same_payload(#[trigger] a.nodes_view()[i], a0.nodes_view()[i]) by {}
            assert(a.type_data_view().subrange(0, a0.type_data_view().len() as int) =~= a0.type_data_view());
            lemma_keep_nodes_ok(a0, a, s@, -1);
        }
        r
    }

    /// Finish building: close every node still open (top first).
    pub fn finish(self) -> (r: HastArena)
        requires
            self.wf(),
            self.fits(),
        ensures
            ({
                let st = close_all(
                    self.arena_view().nodes_view(),
                    self.arena_view().children_view(),
                    self.frames(),
                );
                &&& r.arena_view().nodes_view() == st.0
                &&& r.arena_view().children_view() == st.1
            }),
            r.arena_view().type_data_view() == self.arena_view().type_data_view(),
            r.arena_view().source_view() == self.arena_view().source_view(),
    {
        let ghost a0 = self.arena_view();
        let ghost fs = self.frames();
        let arena = self.builder.finish();
        proof {
            lemma_close_all_payload(a0.nodes_view(), a0.children_view(), fs);
            assert forall|i: int| 0 <= i < a0.nodes_view().len() implies same_payload(#[trigger] arena.nodes_view()[i], a0.nodes_view()[i]) by {}
            assert(arena.type_data_view().subrange(0, a0.type_data_view().len() as int) =~= a0.type_data_view());
            assert(arena.source_view() =~= a0.source_view() + Seq::<char>::empty());
            lemma_keep_nodes_ok(a0, arena, Seq::<char>::empty(), -1);
        }
        HastArena { arena }
    }
}

/// Pushing a fresh frame adds one to the pending total.
proof fn lemma_pending_push(fs: Seq<(u32, Seq<u32>)>, id: u32)
    ensures
        pending_total(fs.push((id, Seq::<u32>::empty()))) == pending_total(fs) + 1,
{
    assert(fs.push((id, Seq::<u32>::empty())).drop_last() =~= fs);
}

/// Serialise a HAST tree to HTML: the self-closing-style HTML of the
/// buffer that its arena serialises to (`<br />`, text escaping `"`).
pub fn hast_to_html(hast: &HastArena) -> (r: String)
    requires
        hast.arena_view().nodes_view().len() > 0,
        wire_len(
            hast.arena_view().nodes_view().len(),
            hast.arena_view().children_view().len(),
            hast.arena_view().type_data_view().len(),
            hast.arena_view().source_bytes().len(),
        ) <= u32::MAX,
    ensures
        r@ == hast_buffer_xhtml(wire_bytes(hast.arena_view())),
{
    let arena = hast.arena();
    proof {
        lemma_renderable(*arena);
        lemma_wire_roundtrip(*arena);
    }
    let buf = arena.to_raw_buffer();
    match hast_buffer_to_xhtml(&buf) {
        Ok(html) => html,
        Err(_) => String::new(),
    }
}

/// Render a HAST tree to HTML as the buffer renderer does: the HTML of the
/// buffer that its arena serialises to (`<br>`, text escaping `&<>` only).
pub fn hast_arena_to_html(hast: &HastArena) -> (r: String)
    requires
        hast.arena_view().nodes_view().len() > 0,
        wire_len(
            hast.arena_view().nodes_view().len(),
            hast.arena_view().children_view().len(),
            hast.arena_view().type_data_view().len(),
            hast.arena_view().source_bytes().len(),
        ) <= u32::MAX,
    ensures
        r@ == hast_buffer_html(wire_bytes(hast.arena_view())),
{
    let arena = hast.arena();
    proof {
        lemma_renderable(*arena);
        lemma_wire_roundtrip(*arena);
    }
    let buf = arena.to_raw_buffer();
    match hast_buffer_to_html(&buf) {
        Ok(html) => html,
        Err(_) => String::new(),
    }
}

} // verus!
