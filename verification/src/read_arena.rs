//! `ReadMdast`: read-only access to a tree, implemented by both `Arena`
//! (owned) and `MdastView` (over a raw buffer), so that code which only reads
//! the tree can take either.
use vstd::prelude::*;
use vstd::utf8::*;
use crate::arena::Arena;
use crate::node::{ArenaNode, StringRef};
use crate::raw_buffer::{
    buffer_nodes, buffer_str, buffer_str_ok, children_in_buffer, data_in_buffer, hdr_node_count,
    node_children, node_data, source_region, MdastView,
};

verus! {

/// Read-only access to a tree's nodes, child lists, type data and source.
pub trait ReadMdast {
    /// The number of nodes.
    spec fn node_count_spec(&self) -> nat;

    /// The record of node `id`.
    spec fn node_spec(&self, id: int) -> ArenaNode;

    /// The child list of node `id` can be read.
    spec fn children_readable(&self, id: int) -> bool;

    /// The child ids of node `id`.
    spec fn children_spec(&self, id: int) -> Seq<u32>;

    /// The type data of node `id` can be read.
    spec fn data_readable(&self, id: int) -> bool;

    /// The type data of node `id`.
    spec fn data_spec(&self, id: int) -> Seq<u8>;

    /// The string reference lies on whole characters of the source.
    spec fn str_readable(&self, sr: StringRef) -> bool;

    /// The text the string reference points at.
    spec fn str_spec(&self, sr: StringRef) -> Seq<char>;

    /// The source text.
    spec fn source_spec(&self) -> Seq<char>;

    fn get_node(&self, node_id: u32) -> (r: ArenaNode)
        requires
            node_id < self.node_count_spec(),
        ensures
            r == self.node_spec(node_id as int),
    ;

    fn get_children(&self, node_id: u32) -> (r: Vec<u32>)
        requires
            node_id < self.node_count_spec(),
            self.children_readable(node_id as int),
        ensures
            r@ == self.children_spec(node_id as int),
    ;

    fn get_type_data(&self, node_id: u32) -> (r: &[u8])
        requires
            node_id < self.node_count_spec(),
            self.data_readable(node_id as int),
        ensures
            r@ == self.data_spec(node_id as int),
    ;

    fn get_str(&self, string_ref: StringRef) -> (r: &str)
        requires
            self.str_readable(string_ref),
        ensures
            r@ == self.str_spec(string_ref),
    ;

    fn source(&self) -> (r: &str)
        ensures
            r@ == self.source_spec(),
    ;

    fn len(&self) -> (r: usize)
        ensures
            r == self.node_count_spec(),
    ;

    fn is_empty(&self) -> (r: bool)
        ensures
            r == (self.node_count_spec() == 0),
    {
        self.len() == 0
    }
}

impl ReadMdast for Arena {
    open spec fn node_count_spec(&self) -> nat {
        self.nodes_view().len()
    }

    open spec fn node_spec(&self, id: int) -> ArenaNode {
        self.nodes_view()[id]
    }

    open spec fn children_readable(&self, id: int) -> bool {
        self.children_in_bounds(id)
    }

    open spec fn children_spec(&self, id: int) -> Seq<u32> {
        self.children_of(id)
    }

    open spec fn data_readable(&self, id: int) -> bool {
        self.data_in_bounds(id)
    }

    open spec fn data_spec(&self, id: int) -> Seq<u8> {
        self.data_of(id)
    }

    open spec fn str_readable(&self, sr: StringRef) -> bool {
        self.str_ok(sr)
    }

    open spec fn str_spec(&self, sr: StringRef) -> Seq<char> {
        self.str_of(sr)
    }

    open spec fn source_spec(&self) -> Seq<char> {
        self.source_view()
    }

    fn get_node(&self, node_id: u32) -> (r: ArenaNode) {
        *Arena::get_node(self, node_id)
    }

    fn get_children(&self, node_id: u32) -> (r: Vec<u32>) {
        let kids = Arena::get_children(self, node_id);
        let mut out: Vec<u32> = Vec::new();
        let mut k: usize = 0;
        while k < kids.len()
            invariant
                k <= kids@.len(),
                out@ == kids@.subrange(0, k as int),
            decreases kids@.len() - k,
        {
            out.push(kids[k]);
            k = k + 1;
            assert(out@ =~= kids@.subrange(0, k as int));
        }
        assert(kids@.subrange(0, k as int) =~= kids@);
        out
    }

    fn get_type_data(&self, node_id: u32) -> (r: &[u8]) {
        Arena::get_type_data(self, node_id)
    }

    fn get_str(&self, string_ref: StringRef) -> (r: &str) {
        Arena::get_str(self, string_ref)
    }

    fn source(&self) -> (r: &str) {
        Arena::source(self)
    }

    fn len(&self) -> (r: usize) {
        Arena::len(self)
    }
}

impl<'a> ReadMdast for MdastView<'a> {
    open spec fn node_count_spec(&self) -> nat {
        hdr_node_count(self.bytes()) as nat
    }

    open spec fn node_spec(&self, id: int) -> ArenaNode {
        buffer_nodes(self.bytes())[id]
    }

    open spec fn children_readable(&self, id: int) -> bool {
        children_in_buffer(self.bytes(), buffer_nodes(self.bytes())[id])
    }

    open spec fn children_spec(&self, id: int) -> Seq<u32> {
        node_children(self.bytes(), buffer_nodes(self.bytes())[id])
    }

    open spec fn data_readable(&self, id: int) -> bool {
        data_in_buffer(self.bytes(), buffer_nodes(self.bytes())[id])
    }

    open spec fn data_spec(&self, id: int) -> Seq<u8> {
        node_data(self.bytes(), buffer_nodes(self.bytes())[id])
    }

    open spec fn str_readable(&self, sr: StringRef) -> bool {
        buffer_str_ok(self.bytes(), sr)
    }

    open spec fn str_spec(&self, sr: StringRef) -> Seq<char> {
        buffer_str(self.bytes(), sr)
    }

    open spec fn source_spec(&self) -> Seq<char> {
        decode_utf8(source_region(self.bytes()))
    }

    fn get_node(&self, node_id: u32) -> (r: ArenaNode) {
        MdastView::get_node(self, node_id)
    }

    fn get_children(&self, node_id: u32) -> (r: Vec<u32>) {
        MdastView::get_children(self, node_id)
    }

    fn get_type_data(&self, node_id: u32) -> (r: &[u8]) {
        MdastView::get_type_data(self, node_id)
    }

    fn get_str(&self, string_ref: StringRef) -> (r: &str) {
        MdastView::get_str(self, string_ref)
    }

    fn source(&self) -> (r: &str) {
        self.get_source()
    }

    fn len(&self) -> (r: usize) {
        self.node_count() as usize
    }
}

} // verus!
