//! Raw buffer export/import: an arena as one flat little-endian byte buffer,
//! and a read-only view over such a buffer.
//!
//! Wire format: `[header][nodes...][children u32s][type data bytes][source UTF-8]`.
//! The header is eleven 4-byte words: the magic bytes `MDAR`, the version,
//! the node record size, then count and offset of nodes, children, type data
//! and source. Each node is thirteen words (the second holds the type byte
//! and three pad bytes).
use vstd::prelude::*;
use vstd::string::*;
use vstd::utf8::*;
use crate::arena::Arena;
use crate::codec::{le32, from_le32, read_le32, get_le32};
use crate::node::{ArenaNode, StringRef};
use crate::text::{range_ok, decode_range, str_from_utf8, substr};

verus! {

/// Why a buffer is not a valid arena buffer.
#[derive(Debug, Clone, Copy, PartialEq, Eq, Structural)]
pub enum BufferError {
    TooShort,
    BadMagic,
    VersionMismatch,
    NodeSizeMismatch,
    InvalidUtf8,
    OutOfBounds,
}

impl BufferError {
    /// A short description of the error.
    pub fn message(&self) -> (r: &'static str)
        ensures
            r@ == buffer_error_text(*self),
    {
        match self {
            BufferError::TooShort => "buffer too short",
            BufferError::BadMagic => "bad magic bytes",
            BufferError::VersionMismatch => "version mismatch",
            BufferError::NodeSizeMismatch => "ArenaNode size mismatch",
            BufferError::InvalidUtf8 => "source is not valid UTF-8",
            BufferError::OutOfBounds => "offset out of bounds",
        }
    }
}

/// The description of each error.
pub open spec fn buffer_error_text(e: BufferError) -> Seq<char> {
    match e {
        BufferError::TooShort => "buffer too short"@,
        BufferError::BadMagic => "bad magic bytes"@,
        BufferError::VersionMismatch => "version mismatch"@,
        BufferError::NodeSizeMismatch => "ArenaNode size mismatch"@,
        BufferError::InvalidUtf8 => "source is not valid UTF-8"@,
        BufferError::OutOfBounds => "offset out of bounds"@,
    }
}

pub const BUFFER_VERSION: u32 = 1;

/// Byte size of the header.
pub const HEADER_SIZE: usize = 44;

/// The magic bytes `MDAR`.
pub open spec fn magic_bytes() -> Seq<u8> {
    seq![77u8, 68u8, 65u8, 82u8]
}

/// Wire-format header placed at the very start of the exported buffer.
#[derive(Debug, Clone, Copy)]
pub struct BufferHeader {
    pub magic: [u8; 4],
    pub version: u32,
    pub node_struct_size: u32,
    pub node_count: u32,
    pub nodes_offset: u32,
    pub children_count: u32,
    pub children_offset: u32,
    pub type_data_len: u32,
    pub type_data_offset: u32,
    pub source_len: u32,
    pub source_offset: u32,
}

// ---------------------------------------------------------------------------
// The wire format as words
// ---------------------------------------------------------------------------

/// The bytes of a list of 4-byte words, each little-endian.
pub open spec fn words_bytes(ws: Seq<u32>) -> Seq<u8>
    decreases ws.len(),
{
    if ws.len() == 0 {
        Seq::empty()
    } else {
        words_bytes(ws.drop_last()) + le32(ws.last())
    }
}

/// The word holding the node type byte and the three pad bytes.
pub open spec fn type_word(n: ArenaNode) -> u32 {
    from_le32(n.node_type, n._pad[0], n._pad[1], n._pad[2])
}

/// The thirteen words of a node record.
pub open spec fn node_words(n: ArenaNode) -> Seq<u32> {
    seq![
        n.id,
        type_word(n),
        n.parent,
        n.start_offset,
        n.end_offset,
        n.start_line,
        n.start_column,
        n.end_line,
        n.end_column,
        n.children_start,
        n.children_count,
        n.data_offset,
        n.data_len,
    ]
}

/// The words of all node records, one after the other.
pub open spec fn nodes_words(ns: Seq<ArenaNode>) -> Seq<u32>
    decreases ns.len(),
{
    if ns.len() == 0 {
        Seq::empty()
    } else {
        nodes_words(ns.drop_last()) + node_words(ns.last())
    }
}

/// The word form of a header.
pub open spec fn header_words(h: BufferHeader) -> Seq<u32> {
    seq![
        from_le32(h.magic[0], h.magic[1], h.magic[2], h.magic[3]),
        h.version,
        h.node_struct_size,
        h.node_count,
        h.nodes_offset,
        h.children_count,
        h.children_offset,
        h.type_data_len,
        h.type_data_offset,
        h.source_len,
        h.source_offset,
    ]
}

/// The header that `to_raw_buffer` writes for an arena with the given sizes.
pub open spec fn header_for(n_nodes: nat, n_children: nat, n_data: nat, n_source: nat) -> BufferHeader {
    let nodes_offset: nat = 44;
    let children_offset = nodes_offset + 52 * n_nodes;
    let type_data_offset = children_offset + 4 * n_children;
    let source_offset = type_data_offset + n_data;
    BufferHeader {
        magic: [77u8, 68u8, 65u8, 82u8],
        version: 1,
        node_struct_size: 52,
        node_count: n_nodes as u32,
        nodes_offset: nodes_offset as u32,
        children_count: n_children as u32,
        children_offset: children_offset as u32,
        type_data_len: n_data as u32,
        type_data_offset: type_data_offset as u32,
        source_len: n_source as u32,
        source_offset: source_offset as u32,
    }
}

/// The size of the buffer for an arena with the given sizes.
pub open spec fn wire_len(n_nodes: nat, n_children: nat, n_data: nat, n_source: nat) -> int {
    (44 + 52 * n_nodes + 4 * n_children + n_data + n_source) as int
}

/// The buffer that `to_raw_buffer` produces.
pub open spec fn wire_bytes(a: Arena) -> Seq<u8> {
    let h = header_for(
        a.nodes_view().len(),
        a.children_view().len(),
        a.type_data_view().len(),
        a.source_bytes().len(),
    );
    words_bytes(header_words(h) + nodes_words(a.nodes_view()) + a.children_view())
        + a.type_data_view() + a.source_bytes()
}

// ---------------------------------------------------------------------------
// Reading a buffer
// ---------------------------------------------------------------------------

/// The node record stored at byte `at`.
pub open spec fn read_node(b: Seq<u8>, at: int) -> ArenaNode {
    ArenaNode {
        id: read_le32(b, at),
        node_type: b[at + 4],
        _pad: [b[at + 5], b[at + 6], b[at + 7]],
        parent: read_le32(b, at + 8),
        start_offset: read_le32(b, at + 12),
        end_offset: read_le32(b, at + 16),
        start_line: read_le32(b, at + 20),
        start_column: read_le32(b, at + 24),
        end_line: read_le32(b, at + 28),
        end_column: read_le32(b, at + 32),
        children_start: read_le32(b, at + 36),
        children_count: read_le32(b, at + 40),
        data_offset: read_le32(b, at + 44),
        data_len: read_le32(b, at + 48),
    }
}

pub open spec fn hdr_node_count(b: Seq<u8>) -> u32 { read_le32(b, 12) }
pub open spec fn hdr_nodes_offset(b: Seq<u8>) -> u32 { read_le32(b, 16) }
pub open spec fn hdr_children_count(b: Seq<u8>) -> u32 { read_le32(b, 20) }
pub open spec fn hdr_children_offset(b: Seq<u8>) -> u32 { read_le32(b, 24) }
pub open spec fn hdr_type_data_len(b: Seq<u8>) -> u32 { read_le32(b, 28) }
pub open spec fn hdr_type_data_offset(b: Seq<u8>) -> u32 { read_le32(b, 32) }
pub open spec fn hdr_source_len(b: Seq<u8>) -> u32 { read_le32(b, 36) }
pub open spec fn hdr_source_offset(b: Seq<u8>) -> u32 { read_le32(b, 40) }

/// Every region that the header names lies in the buffer.
pub open spec fn regions_in(b: Seq<u8>) -> bool {
    &&& hdr_nodes_offset(b) + 52 * hdr_node_count(b) <= b.len()
    &&& hdr_children_offset(b) + 4 * hdr_children_count(b) <= b.len()
    &&& hdr_type_data_offset(b) + hdr_type_data_len(b) <= b.len()
    &&& hdr_source_offset(b) + hdr_source_len(b) <= b.len()
}

/// The source bytes of a buffer.
pub open spec fn source_region(b: Seq<u8>) -> Seq<u8> {
    b.subrange(hdr_source_offset(b) as int, hdr_source_offset(b) + hdr_source_len(b))
}

/// The first check that a buffer fails, if any.
pub open spec fn buffer_error(b: Seq<u8>) -> Option<BufferError> {
    if b.len() < 44 {
        Some(BufferError::TooShort)
    } else if b.subrange(0, 4) != magic_bytes() {
        Some(BufferError::BadMagic)
    } else if read_le32(b, 4) != 1 {
        Some(BufferError::VersionMismatch)
    } else if read_le32(b, 8) != 52 {
        Some(BufferError::NodeSizeMismatch)
    } else if !regions_in(b) {
        Some(BufferError::OutOfBounds)
    } else if !valid_utf8(source_region(b)) {
        Some(BufferError::InvalidUtf8)
    } else {
        None
    }
}

/// The nodes a valid buffer holds.
pub open spec fn buffer_nodes(b: Seq<u8>) -> Seq<ArenaNode> {
    Seq::new(hdr_node_count(b) as nat, |i: int| read_node(b, hdr_nodes_offset(b) + 52 * i))
}

/// The children array a valid buffer holds.
pub open spec fn buffer_children(b: Seq<u8>) -> Seq<u32> {
    Seq::new(
        hdr_children_count(b) as nat,
        |k: int| read_le32(b, hdr_children_offset(b) + 4 * k),
    )
}

/// The child-id range of node record `n` lies in the buffer.
pub open spec fn children_in_buffer(b: Seq<u8>, n: ArenaNode) -> bool {
    n.children_count == 0 || hdr_children_offset(b) + 4 * (n.children_start + n.children_count)
        <= b.len()
}

/// The child ids of node record `n`, as the buffer stores them.
pub open spec fn node_children(b: Seq<u8>, n: ArenaNode) -> Seq<u32> {
    Seq::new(
        n.children_count as nat,
        |k: int| read_le32(b, hdr_children_offset(b) + 4 * (n.children_start + k)),
    )
}

/// The type-data range of node record `n` lies in the buffer.
pub open spec fn data_in_buffer(b: Seq<u8>, n: ArenaNode) -> bool {
    hdr_type_data_offset(b) + n.data_offset + n.data_len <= b.len()
}

/// The type data of node record `n`.
pub open spec fn node_data(b: Seq<u8>, n: ArenaNode) -> Seq<u8> {
    let start = hdr_type_data_offset(b) + n.data_offset;
    b.subrange(start, start + n.data_len)
}

/// The text a string reference points at in the buffer's source.
pub open spec fn buffer_str(b: Seq<u8>, sr: StringRef) -> Seq<char> {
    decode_range(source_region(b), sr.offset as int, sr.len as int)
}

/// The string reference points at whole characters of the buffer's source.
pub open spec fn buffer_str_ok(b: Seq<u8>, sr: StringRef) -> bool {
    range_ok(source_region(b), sr.offset as int, sr.len as int)
}

/// The type data a valid buffer holds.
pub open spec fn buffer_type_data(b: Seq<u8>) -> Seq<u8> {
    b.subrange(hdr_type_data_offset(b) as int, hdr_type_data_offset(b) + hdr_type_data_len(b))
}

// ---------------------------------------------------------------------------
// Lemmas on the word encoding
// ---------------------------------------------------------------------------

pub proof fn lemma_words_len(ws: Seq<u32>)
    ensures
        words_bytes(ws).len() == 4 * ws.len(),
    decreases ws.len(),
{
    if ws.len() > 0 {
        lemma_words_len(ws.drop_last());
    }
}

/// Byte `4k + j` of the word bytes is byte `j` of word `k`.
pub proof fn lemma_words_index(ws: Seq<u32>, k: int, j: int)
    requires
        0 <= k < ws.len(),
        0 <= j < 4,
    ensures
        words_bytes(ws)[4 * k + j] == le32(ws[k])[j],
    decreases ws.len(),
{
    lemma_words_len(ws.drop_last());
    if k < ws.len() - 1 {
        lemma_words_index(ws.drop_last(), k, j);
    }
}

/// Reading word `k` back from any buffer that starts with the word bytes.
pub proof fn lemma_words_read(ws: Seq<u32>, tail: Seq<u8>, k: int)
    requires
        0 <= k < ws.len(),
    ensures
        read_le32(words_bytes(ws) + tail, 4 * k) == ws[k],
{
    lemma_words_len(ws);
    lemma_words_index(ws, k, 0);
    lemma_words_index(ws, k, 1);
    lemma_words_index(ws, k, 2);
    lemma_words_index(ws, k, 3);
    crate::codec::lemma_le32_roundtrip(ws[k]);
}

pub proof fn lemma_nodes_words_len(ns: Seq<ArenaNode>)
    ensures
        nodes_words(ns).len() == 13 * ns.len(),
    decreases ns.len(),
{
    if ns.len() > 0 {
        lemma_nodes_words_len(ns.drop_last());
    }
}

pub proof fn lemma_nodes_words_index(ns: Seq<ArenaNode>, i: int, j: int)
    requires
        0 <= i < ns.len(),
        0 <= j < 13,
    ensures
        nodes_words(ns)[13 * i + j] == node_words(ns[i])[j],
    decreases ns.len(),
{
    lemma_nodes_words_len(ns.drop_last());
    if i < ns.len() - 1 {
        lemma_nodes_words_index(ns.drop_last(), i, j);
    }
}

/// The four bytes of the type word are the type byte and the pad bytes.
pub proof fn lemma_type_word(n: ArenaNode)
    ensures
        le32(type_word(n)) == seq![n.node_type, n._pad[0], n._pad[1], n._pad[2]],
{
    lemma_le32_of_bytes(n.node_type, n._pad[0], n._pad[1], n._pad[2]);
}

/// Writing the word that four bytes stand for gives those bytes.
pub proof fn lemma_le32_of_bytes(a: u8, b: u8, c: u8, d: u8)
    ensures
        le32(from_le32(a, b, c, d)) == seq![a, b, c, d],
{
    let w = from_le32(a, b, c, d);
    assert((w & 0xff) as u8 == a && ((w >> 8u32) & 0xff) as u8 == b && ((w >> 16u32) & 0xff) as u8
        == c && ((w >> 24u32) & 0xff) as u8 == d) by (bit_vector)
        requires
            w == (a as u32) | ((b as u32) << 8u32) | ((c as u32) << 16u32) | ((d as u32) << 24u32),
    ;
    assert(le32(w) =~= seq![a, b, c, d]);
}

/// Reading a node record back from the words of a node list.
pub proof fn lemma_read_node(pre: Seq<u32>, ns: Seq<ArenaNode>, post: Seq<u32>, tail: Seq<u8>, i: int)
    requires
        0 <= i < ns.len(),
    ensures
        read_node(words_bytes(pre + nodes_words(ns) + post) + tail, 4 * pre.len() + 52 * i) == ns[i],
{
    let ws = pre + nodes_words(ns) + post;
    let b = words_bytes(ws) + tail;
    let base = pre.len() + 13 * i;
    let n = ns[i];
    lemma_nodes_words_len(ns);
    assert forall|j: int| 0 <= j < 13 implies #[trigger] ws[base + j] == node_words(n)[j] by {
        lemma_nodes_words_index(ns, i, j);
    }
    assert forall|j: int| 0 <= j < 13 implies #[trigger] read_le32(b, 4 * (base + j)) == node_words(n)[j] by {
        lemma_words_read(ws, tail, base + j);
    }
    assert(read_le32(b, 4 * (base + 0)) == n.id);
    assert(read_le32(b, 4 * (base + 2)) == n.parent);
    assert(read_le32(b, 4 * (base + 3)) == n.start_offset);
    assert(read_le32(b, 4 * (base + 4)) == n.end_offset);
    assert(read_le32(b, 4 * (base + 5)) == n.start_line);
    assert(read_le32(b, 4 * (base + 6)) == n.start_column);
    assert(read_le32(b, 4 * (base + 7)) == n.end_line);
    assert(read_le32(b, 4 * (base + 8)) == n.end_column);
    assert(read_le32(b, 4 * (base + 9)) == n.children_start);
    assert(read_le32(b, 4 * (base + 10)) == n.children_count);
    assert(read_le32(b, 4 * (base + 11)) == n.data_offset);
    assert(read_le32(b, 4 * (base + 12)) == n.data_len);
    lemma_words_len(ws);
    lemma_type_word(n);
    lemma_words_index(ws, base + 1, 0);
    lemma_words_index(ws, base + 1, 1);
    lemma_words_index(ws, base + 1, 2);
    lemma_words_index(ws, base + 1, 3);
    assert(ws[base + 1] == type_word(n));
    let at = 4 * pre.len() + 52 * i;
    assert(at == 4 * base);
    assert(b[at + 4] == n.node_type);
    assert(b[at + 5] == n._pad[0]);
    assert(b[at + 6] == n._pad[1]);
    assert(b[at + 7] == n._pad[2]);
    let r = read_node(b, at);
    assert(r._pad@ =~= n._pad@);
    vstd::array::axiom_array_ext_equal(r._pad, n._pad);
    assert(r._pad == n._pad);
    assert(r == n);
}

// ---------------------------------------------------------------------------
// The round trip
// ---------------------------------------------------------------------------

/// A view of the buffer that `to_raw_buffer` writes for an arena counts as
/// many nodes as the arena holds.
pub proof fn law_wire_node_count(a: Arena)
    requires
        wire_len(
            a.nodes_view().len(),
            a.children_view().len(),
            a.type_data_view().len(),
            a.source_bytes().len(),
        ) <= u32::MAX,
    ensures
        buffer_error(wire_bytes(a)) is None,
        hdr_node_count(wire_bytes(a)) == a.nodes_view().len(),
{
    lemma_wire_roundtrip(a);
    assert(buffer_nodes(wire_bytes(a)).len() == hdr_node_count(wire_bytes(a)));
}

/// Reading back the buffer that `to_raw_buffer` writes for an arena passes
/// every check and gives back the arena's nodes, children array, type data
/// and source.
#[verifier::rlimit(40)]
pub proof fn lemma_wire_roundtrip(a: Arena)
    requires
        wire_len(
            a.nodes_view().len(),
            a.children_view().len(),
            a.type_data_view().len(),
            a.source_bytes().len(),
        ) <= u32::MAX,
    ensures
        buffer_error(wire_bytes(a)) is None,
        wire_bytes(a).len() == wire_len(
            a.nodes_view().len(),
            a.children_view().len(),
            a.type_data_view().len(),
            a.source_bytes().len(),
        ),
        buffer_nodes(wire_bytes(a)) == a.nodes_view(),
        buffer_children(wire_bytes(a)) == a.children_view(),
        buffer_type_data(wire_bytes(a)) == a.type_data_view(),
        decode_utf8(source_region(wire_bytes(a))) == a.source_view(),
        source_region(wire_bytes(a)) == a.source_bytes(),
{
    let ns = a.nodes_view();
    let cs = a.children_view();
    let td = a.type_data_view();
    let sb = a.source_bytes();
    let h = header_for(ns.len(), cs.len(), td.len(), sb.len());
    let hw = header_words(h);
    let ws = hw + nodes_words(ns) + cs;
    let tail = td + sb;
    let b = wire_bytes(a);
    assert(b =~= words_bytes(ws) + tail);
    lemma_nodes_words_len(ns);
    lemma_words_len(ws);
    let nw = 11 + 13 * ns.len();
    assert(words_bytes(ws).len() == 44 + 52 * ns.len() + 4 * cs.len());
    // header words
    assert forall|k: int| 0 <= k < 11 implies #[trigger] ws[k] == hw[k] by {}
    lemma_words_read(ws, tail, 1);
    lemma_words_read(ws, tail, 2);
    lemma_words_read(ws, tail, 3);
    lemma_words_read(ws, tail, 4);
    lemma_words_read(ws, tail, 5);
    lemma_words_read(ws, tail, 6);
    lemma_words_read(ws, tail, 7);
    lemma_words_read(ws, tail, 8);
    lemma_words_read(ws, tail, 9);
    lemma_words_read(ws, tail, 10);
    assert(read_le32(b, 4) == 1);
    assert(read_le32(b, 8) == 52);
    assert(hdr_node_count(b) == ns.len());
    assert(hdr_nodes_offset(b) == 44);
    assert(hdr_children_count(b) == cs.len());
    assert(hdr_children_offset(b) == 44 + 52 * ns.len());
    assert(hdr_type_data_len(b) == td.len());
    assert(hdr_type_data_offset(b) == 44 + 52 * ns.len() + 4 * cs.len());
    assert(hdr_source_len(b) == sb.len());
    assert(hdr_source_offset(b) == 44 + 52 * ns.len() + 4 * cs.len() + td.len());
    // magic
    lemma_words_index(ws, 0, 0);
    lemma_words_index(ws, 0, 1);
    lemma_words_index(ws, 0, 2);
    lemma_words_index(ws, 0, 3);
    let w0 = from_le32(77u8, 68u8, 65u8, 82u8);
    assert(hw[0] == w0);
    lemma_le32_of_bytes(77u8, 68u8, 65u8, 82u8);
    assert(b.subrange(0, 4) =~= magic_bytes());
    // nodes
    assert(ws =~= hw + nodes_words(ns) + cs);
    assert forall|i: int| 0 <= i < ns.len() implies #[trigger] buffer_nodes(b)[i] == ns[i] by {
        lemma_read_node(hw, ns, cs, tail, i);
    }
    assert(buffer_nodes(b) =~= ns);
    // children
    assert forall|k: int| 0 <= k < cs.len() implies #[trigger] buffer_children(b)[k] == cs[k] by {
        lemma_words_read(ws, tail, nw + k);
        assert(ws[nw + k] == cs[k]);
    }
    assert(buffer_children(b) =~= cs);
    // type data and source
    let wl = words_bytes(ws).len() as int;
    assert(buffer_type_data(b) =~= td);
    assert(source_region(b) =~= sb);
    encode_utf8_valid_utf8(a.source_view());
    encode_utf8_decode_utf8(a.source_view());
}

// ---------------------------------------------------------------------------
// Writing
// ---------------------------------------------------------------------------

/// Appends one word, keeping the buffer equal to the bytes of the words so far.
fn push_word(out: &mut Vec<u8>, Ghost(ws): Ghost<Seq<u32>>, w: u32)
    requires
        old(out)@ == words_bytes(ws),
    ensures
        final(out)@ == words_bytes(ws.push(w)),
{
    out.push((w & 0xff) as u8);
    out.push(((w >> 8u32) & 0xff) as u8);
    out.push(((w >> 16u32) & 0xff) as u8);
    out.push(((w >> 24u32) & 0xff) as u8);
    assert(ws.push(w).drop_last() =~= ws);
    assert(out@ =~= words_bytes(ws.push(w)));
}

/// Appends the thirteen words of a node record.
fn push_node(out: &mut Vec<u8>, Ghost(ws): Ghost<Seq<u32>>, n: &ArenaNode)
    requires
        old(out)@ == words_bytes(ws),
    ensures
        final(out)@ == words_bytes(ws + node_words(*n)),
{
    let ghost mut w = ws;
    push_word(out, Ghost(w), n.id);
    proof { w = w.push(n.id); }
    let tw = from_le32_exec(n.node_type, n._pad[0], n._pad[1], n._pad[2]);
    push_word(out, Ghost(w), tw);
    proof { w = w.push(tw); }
    push_word(out, Ghost(w), n.parent);
    proof { w = w.push(n.parent); }
    push_word(out, Ghost(w), n.start_offset);
    proof { w = w.push(n.start_offset); }
    push_word(out, Ghost(w), n.end_offset);
    proof { w = w.push(n.end_offset); }
    push_word(out, Ghost(w), n.start_line);
    proof { w = w.push(n.start_line); }
    push_word(out, Ghost(w), n.start_column);
    proof { w = w.push(n.start_column); }
    push_word(out, Ghost(w), n.end_line);
    proof { w = w.push(n.end_line); }
    push_word(out, Ghost(w), n.end_column);
    proof { w = w.push(n.end_column); }
    push_word(out, Ghost(w), n.children_start);
    proof { w = w.push(n.children_start); }
    push_word(out, Ghost(w), n.children_count);
    proof { w = w.push(n.children_count); }
    push_word(out, Ghost(w), n.data_offset);
    proof { w = w.push(n.data_offset); }
    push_word(out, Ghost(w), n.data_len);
    proof {
        w = w.push(n.data_len);
        assert(w =~= ws + node_words(*n));
    }
}

/// Appends bytes one by one.
fn push_bytes(out: &mut Vec<u8>, bytes: &[u8])
    ensures
        final(out)@ == old(out)@ + bytes@,
{
    let mut k: usize = 0;
    while k < bytes.len()
        invariant
            k <= bytes@.len(),
            out@ == old(out)@ + bytes@.subrange(0, k as int),
        decreases bytes@.len() - k,
    {
        out.push(bytes[k]);
        k = k + 1;
        assert(bytes@.subrange(0, k as int) =~= bytes@.subrange(0, k - 1).push(bytes@[k - 1]));
    }
    assert(bytes@.subrange(0, k as int) =~= bytes@);
}

impl Arena {
    /// Serialize to a flat byte buffer:
    /// `[header][nodes][children u32s][type data][source]`.
    pub fn to_raw_buffer(&self) -> (r: Vec<u8>)
        requires
            wire_len(
                self.nodes_view().len(),
                self.children_view().len(),
                self.type_data_view().len(),
                self.source_bytes().len(),
            ) <= u32::MAX,
        ensures
            r@ == wire_bytes(*self),
    {
        proof {
            self.lemma_views();
        }
        let source = self.source.as_str();
        let src = source.as_bytes();
        let n_nodes = self.nodes.len();
        let n_children = self.children.len();
        let n_data = self.type_data.len();
        let n_source = src.len();
        let nodes_offset: u32 = 44;
        let children_offset = nodes_offset + (n_nodes as u32) * 52;
        let type_data_offset = children_offset + (n_children as u32) * 4;
        let source_offset = type_data_offset + n_data as u32;
        let ghost h = header_for(n_nodes as nat, n_children as nat, n_data as nat, n_source as nat);
        let ghost hw = header_words(h);
        let mut out: Vec<u8> = Vec::new();
        let ghost mut ws: Seq<u32> = Seq::empty();
        assert(out@ =~= words_bytes(ws));
        let magic_word = from_le32_exec(77u8, 68u8, 65u8, 82u8);
        push_word(&mut out, Ghost(ws), magic_word);
        proof { ws = ws.push(magic_word); }
        push_word(&mut out, Ghost(ws), BUFFER_VERSION);
        proof { ws = ws.push(BUFFER_VERSION); }
        push_word(&mut out, Ghost(ws), 52u32);
        proof { ws = ws.push(52u32); }
        push_word(&mut out, Ghost(ws), n_nodes as u32);
        proof { ws = ws.push(n_nodes as u32); }
        push_word(&mut out, Ghost(ws), nodes_offset);
        proof { ws = ws.push(nodes_offset); }
        push_word(&mut out, Ghost(ws), n_children as u32);
        proof { ws = ws.push(n_children as u32); }
        push_word(&mut out, Ghost(ws), children_offset);
        proof { ws = ws.push(children_offset); }
        push_word(&mut out, Ghost(ws), n_data as u32);
        proof { ws = ws.push(n_data as u32); }
        push_word(&mut out, Ghost(ws), type_data_offset);
        proof { ws = ws.push(type_data_offset); }
        push_word(&mut out, Ghost(ws), n_source as u32);
        proof { ws = ws.push(n_source as u32); }
        push_word(&mut out, Ghost(ws), source_offset);
        proof {
            ws = ws.push(source_offset);
            assert(ws =~= hw);
        }
        let mut i: usize = 0;
        while i < n_nodes
            invariant
                i <= n_nodes,
                n_nodes == self.nodes@.len(),
                ws == hw + nodes_words(self.nodes@.subrange(0, i as int)),
                out@ == words_bytes(ws),
            decreases n_nodes - i,
        {
            let n = self.nodes[i];
            let ghost ws0 = ws;
            push_node(&mut out, Ghost(ws), &n);
            proof {
                ws = ws + node_words(n);
                let sub = self.nodes@.subrange(0, i + 1);
                assert(sub.drop_last() =~= self.nodes@.subrange(0, i as int));
                assert(ws =~= hw + nodes_words(sub));
            }
            i = i + 1;
        }
        assert(self.nodes@.subrange(0, i as int) =~= self.nodes@);
        let ghost wn = ws;
        let mut k: usize = 0;
        while k < n_children
            invariant
                k <= n_children,
                n_children == self.children@.len(),
                ws == wn + self.children@.subrange(0, k as int),
                out@ == words_bytes(ws),
            decreases n_children - k,
        {
            let c = self.children[k];
            push_word(&mut out, Ghost(ws), c);
            proof {
                ws = ws.push(c);
                assert(ws =~= wn + self.children@.subrange(0, k + 1));
            }
            k = k + 1;
        }
        assert(self.children@.subrange(0, k as int) =~= self.children@);
        push_bytes(&mut out, self.type_data.as_slice());
        push_bytes(&mut out, src);
        out
    }
}

/// The word with the given little-endian bytes.
fn from_le32_exec(b0: u8, b1: u8, b2: u8, b3: u8) -> (r: u32)
    ensures
        r == from_le32(b0, b1, b2, b3),
{
    (b0 as u32) | ((b1 as u32) << 8u32) | ((b2 as u32) << 16u32) | ((b3 as u32) << 24u32)
}

// ---------------------------------------------------------------------------
// Reading a buffer: MdastView
// ---------------------------------------------------------------------------

/// A read-only view over a raw buffer produced by `Arena::to_raw_buffer`
/// (or any buffer that passes the checks of `Arena::from_raw_buffer`).
#[derive(Debug)]
pub struct MdastView<'a> {
    pub(crate) header: BufferHeader,
    pub(crate) buf: &'a [u8],
    pub(crate) source: &'a str,
}

impl<'a> MdastView<'a> {
    /// The buffer viewed.
    pub closed spec fn bytes(&self) -> Seq<u8> {
        self.buf@
    }

    #[verifier::type_invariant]
    spec fn inv(&self) -> bool {
        let b = self.buf@;
        &&& buffer_error(b) is None
        &&& self.source.spec_bytes() == source_region(b)
        &&& self.header.node_count == hdr_node_count(b)
        &&& self.header.nodes_offset == hdr_nodes_offset(b)
        &&& self.header.children_count == hdr_children_count(b)
        &&& self.header.children_offset == hdr_children_offset(b)
        &&& self.header.type_data_len == hdr_type_data_len(b)
        &&& self.header.type_data_offset == hdr_type_data_offset(b)
        &&& self.header.source_len == hdr_source_len(b)
        &&& self.header.source_offset == hdr_source_offset(b)
    }

    /// Get a node by id.
    pub fn get_node(&self, node_id: u32) -> (r: ArenaNode)
        requires
            node_id < hdr_node_count(self.bytes()),
        ensures
            r == buffer_nodes(self.bytes())[node_id as int],
    {
        proof {
            use_type_invariant(self);
        }
        let b = self.buf;
        let blen = b.len();
        let count = self.header.node_count;
        let off = self.header.nodes_offset;
        assert(off + 52 * node_id + 52 <= blen) by (nonlinear_arith)
            requires
                node_id < count,
                off + 52 * count <= blen,
        ;
        let at = self.header.nodes_offset as usize + node_id as usize * 52;
        ArenaNode {
            id: get_le32(b, at),
            node_type: b[at + 4],
            _pad: [b[at + 5], b[at + 6], b[at + 7]],
            parent: get_le32(b, at + 8),
            start_offset: get_le32(b, at + 12),
            end_offset: get_le32(b, at + 16),
            start_line: get_le32(b, at + 20),
            start_column: get_le32(b, at + 24),
            end_line: get_le32(b, at + 28),
            end_column: get_le32(b, at + 32),
            children_start: get_le32(b, at + 36),
            children_count: get_le32(b, at + 40),
            data_offset: get_le32(b, at + 44),
            data_len: get_le32(b, at + 48),
        }
    }

    /// The child ids of a node live in the buffer.
    pub open spec fn children_ok(&self, node_id: u32) -> bool {
        &&& node_id < hdr_node_count(self.bytes())
        &&& children_in_buffer(self.bytes(), buffer_nodes(self.bytes())[node_id as int])
    }

    /// The child ids of a node, as the buffer stores them.
    pub open spec fn children_spec(&self, node_id: u32) -> Seq<u32> {
        node_children(self.bytes(), buffer_nodes(self.bytes())[node_id as int])
    }

    /// Get all child ids of a node.
    pub fn get_children(&self, node_id: u32) -> (r: Vec<u32>)
        requires
            self.children_ok(node_id),
        ensures
            r@ == self.children_spec(node_id),
    {
        proof {
            use_type_invariant(self);
        }
        let node = self.get_node(node_id);
        let count = node.children_count as usize;
        let mut out: Vec<u32> = Vec::new();
        if count == 0 {
            assert(out@ =~= self.children_spec(node_id));
            return out;
        }
        let blen = self.buf.len();
        assert(self.header.children_offset + 4 * node.children_start + 4 * count <= blen);
        let start = self.header.children_offset as usize + node.children_start as usize * 4;
        let mut k: usize = 0;
        while k < count
            invariant
                k <= count,
                count == node.children_count,
                node == buffer_nodes(self.bytes())[node_id as int],
                start == hdr_children_offset(self.bytes()) + 4 * node.children_start,
                start + 4 * count <= self.buf@.len(),
                blen == self.buf@.len(),
                self.buf@ == self.bytes(),
                out@ == self.children_spec(node_id).subrange(0, k as int),
            decreases count - k,
        {
            assert(start + 4 * k + 4 <= self.buf@.len());
            let w = get_le32(self.buf, start + 4 * k);
            out.push(w);
            k = k + 1;
            assert(out@ =~= self.children_spec(node_id).subrange(0, k as int));
        }
        assert(out@ =~= self.children_spec(node_id));
        out
    }

    /// The type data of a node lives in the buffer.
    pub open spec fn type_data_ok(&self, node_id: u32) -> bool {
        &&& node_id < hdr_node_count(self.bytes())
        &&& data_in_buffer(self.bytes(), buffer_nodes(self.bytes())[node_id as int])
    }

    /// Get the raw type-data bytes of a node.
    pub fn get_type_data(&self, node_id: u32) -> (r: &[u8])
        requires
            self.type_data_ok(node_id),
        ensures
            r@ == node_data(self.bytes(), buffer_nodes(self.bytes())[node_id as int]),
    {
        proof {
            use_type_invariant(self);
        }
        let node = self.get_node(node_id);
        let blen = self.buf.len();
        assert(self.header.type_data_offset + node.data_offset + node.data_len <= blen);
        let start = self.header.type_data_offset as usize + node.data_offset as usize;
        let end = start + node.data_len as usize;
        vstd::slice::slice_subrange(self.buf, start, end)
    }

    /// Get the source text.
    pub fn get_source(&self) -> (r: &str)
        ensures
            r.spec_bytes() == source_region(self.bytes()),
            r@ == decode_utf8(source_region(self.bytes())),
    {
        proof {
            use_type_invariant(self);
            encode_utf8_decode_utf8(self.source@);
        }
        self.source
    }

    /// Get a string from the source via a StringRef.
    pub fn get_str(&self, string_ref: StringRef) -> (r: &str)
        requires
            buffer_str_ok(self.bytes(), string_ref),
        ensures
            r.spec_bytes() == source_region(self.bytes()).subrange(
                string_ref.offset as int,
                string_ref.offset + string_ref.len,
            ),
            r@ == buffer_str(self.bytes(), string_ref),
    {
        let source = self.get_source();
        substr(source, string_ref.offset as usize, string_ref.len as usize)
    }

    /// Whether the type data of a node lies in the buffer.
    pub fn data_fits(&self, node_id: u32) -> (r: bool)
        requires
            node_id < hdr_node_count(self.bytes()),
        ensures
            r == data_in_buffer(self.bytes(), buffer_nodes(self.bytes())[node_id as int]),
    {
        proof {
            use_type_invariant(self);
        }
        let node = self.get_node(node_id);
        let end = self.header.type_data_offset as u64 + node.data_offset as u64 + node.data_len as u64;
        end <= self.buf.len() as u64
    }

    /// Whether the child ids of a node lie in the buffer.
    pub fn children_fit(&self, node_id: u32) -> (r: bool)
        requires
            node_id < hdr_node_count(self.bytes()),
        ensures
            r == children_in_buffer(self.bytes(), buffer_nodes(self.bytes())[node_id as int]),
    {
        proof {
            use_type_invariant(self);
        }
        let node = self.get_node(node_id);
        if node.children_count == 0 {
            return true;
        }
        let end = self.header.children_offset as u64 + 4 * (node.children_start as u64
            + node.children_count as u64);
        end <= self.buf.len() as u64
    }

    /// Whether a string reference points at whole characters of the source.
    pub fn str_fits(&self, string_ref: StringRef) -> (r: bool)
        ensures
            r == buffer_str_ok(self.bytes(), string_ref),
    {
        let source = self.get_source();
        crate::text::check_range(source.as_bytes(), string_ref.offset, string_ref.len)
    }

    pub fn node_count(&self) -> (r: u32)
        ensures
            r == hdr_node_count(self.bytes()),
    {
        proof {
            use_type_invariant(self);
        }
        self.header.node_count
    }

    /// Copy the viewed buffer into an owned arena.
    pub fn to_arena(&self) -> (r: Arena)
        ensures
            r.nodes_view() == buffer_nodes(self.bytes()),
            r.children_view() == buffer_children(self.bytes()),
            r.type_data_view() == buffer_type_data(self.bytes()),
            r.source_view() == decode_utf8(source_region(self.bytes())),
    {
        proof {
            use_type_invariant(self);
        }
        let node_count = self.header.node_count;
        let mut nodes: Vec<ArenaNode> = Vec::new();
        let mut i: u32 = 0;
        while i < node_count
            invariant
                i <= node_count,
                node_count == hdr_node_count(self.bytes()),
                nodes@ == buffer_nodes(self.bytes()).subrange(0, i as int),
            decreases node_count - i,
        {
            let n = self.get_node(i);
            nodes.push(n);
            i = i + 1;
            assert(nodes@ =~= buffer_nodes(self.bytes()).subrange(0, i as int));
        }
        assert(nodes@ =~= buffer_nodes(self.bytes()));
        let children_count = self.header.children_count as usize;
        let start = self.header.children_offset as usize;
        let blen = self.buf.len();
        assert(start + 4 * children_count <= blen);
        let mut children: Vec<u32> = Vec::new();
        let mut k: usize = 0;
        while k < children_count
            invariant
                k <= children_count,
                children_count == hdr_children_count(self.bytes()),
                start == hdr_children_offset(self.bytes()),
                start + 4 * children_count <= self.buf@.len(),
                blen == self.buf@.len(),
                self.buf@ == self.bytes(),
                children@ == buffer_children(self.bytes()).subrange(0, k as int),
            decreases children_count - k,
        {
            assert(start + 4 * k + 4 <= self.buf@.len());
            children.push(get_le32(self.buf, start + 4 * k));
            k = k + 1;
            assert(children@ =~= buffer_children(self.bytes()).subrange(0, k as int));
        }
        assert(children@ =~= buffer_children(self.bytes()));
        assert(self.header.type_data_offset + self.header.type_data_len <= blen);
        let td_start = self.header.type_data_offset as usize;
        let td_end = td_start + self.header.type_data_len as usize;
        let type_data = vstd::slice::slice_to_vec(vstd::slice::slice_subrange(self.buf, td_start, td_end));
        let source = self.get_source().to_owned();
        Arena::from_parts(nodes, children, type_data, source)
    }
}

impl Arena {
    /// Check a raw buffer and view it read-only, borrowing the buffer.
    pub fn from_raw_buffer(buf: &[u8]) -> (r: Result<MdastView<'_>, BufferError>)
        ensures
            match r {
                Ok(v) => buffer_error(buf@) is None && v.bytes() == buf@,
                Err(e) => buffer_error(buf@) == Some(e),
            },
    {
        let len = buf.len();
        if len < 44 {
            return Err(BufferError::TooShort);
        }
        if !(buf[0] == 77u8 && buf[1] == 68u8 && buf[2] == 65u8 && buf[3] == 82u8) {
            proof {
                if buf@.subrange(0, 4) == magic_bytes() {
                    assert(buf@.subrange(0, 4)[0] == buf@[0]);
                    assert(buf@.subrange(0, 4)[1] == buf@[1]);
                    assert(buf@.subrange(0, 4)[2] == buf@[2]);
                    assert(buf@.subrange(0, 4)[3] == buf@[3]);
                }
            }
            return Err(BufferError::BadMagic);
        }
        assert(buf@.subrange(0, 4) =~= magic_bytes());
        let version = get_le32(buf, 4);
        if version != BUFFER_VERSION {
            return Err(BufferError::VersionMismatch);
        }
        let node_struct_size = get_le32(buf, 8);
        if node_struct_size != 52 {
            return Err(BufferError::NodeSizeMismatch);
        }
        let header = BufferHeader {
            magic: [buf[0], buf[1], buf[2], buf[3]],
            version,
            node_struct_size,
            node_count: get_le32(buf, 12),
            nodes_offset: get_le32(buf, 16),
            children_count: get_le32(buf, 20),
            children_offset: get_le32(buf, 24),
            type_data_len: get_le32(buf, 28),
            type_data_offset: get_le32(buf, 32),
            source_len: get_le32(buf, 36),
            source_offset: get_le32(buf, 40),
        };
        let blen = len as u64;
        let nodes_end = header.nodes_offset as u64 + header.node_count as u64 * 52;
        let children_end = header.children_offset as u64 + header.children_count as u64 * 4;
        let type_data_end = header.type_data_offset as u64 + header.type_data_len as u64;
        let source_end = header.source_offset as u64 + header.source_len as u64;
        if nodes_end > blen || children_end > blen || type_data_end > blen || source_end > blen {
            return Err(BufferError::OutOfBounds);
        }
        let source_bytes = vstd::slice::slice_subrange(
            buf,
            header.source_offset as usize,
            source_end as usize,
        );
        match str_from_utf8(source_bytes) {
            None => Err(BufferError::InvalidUtf8),
            Some(source) => Ok(MdastView { header, buf, source }),
        }
    }
}

} // verus!
