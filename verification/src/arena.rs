//! The arena: all nodes of one tree, the flat array of child ids, the packed
//! type-specific data and the source text that string references point into.
use vstd::prelude::*;
use vstd::string::*;
use vstd::utf8::*;
use crate::node::{ArenaNode, NodeType, StringRef};
use crate::text::{decode_range, lemma_decode_range_of_encoding, lemma_encode_concat, range_ok, substr};

verus! {

/// The central arena that owns all nodes and associated data for one parse.
///
/// Strings are not copied: the arena holds the source and nodes reference it
/// via `StringRef` (byte offset + length into `source`).
#[derive(Debug, Clone)]
pub struct Arena {
    /// All nodes in order of creation.
    pub(crate) nodes: Vec<ArenaNode>,
    /// Flat array of child node ids, indexed by node.children_start..+children_count.
    pub(crate) children: Vec<u32>,
    /// Variable-length type-specific data, packed.
    pub(crate) type_data: Vec<u8>,
    /// The source Markdown text.
    pub(crate) source: String,
}

/// A node with its parent replaced.
pub open spec fn with_parent(n: ArenaNode, parent: u32) -> ArenaNode {
    ArenaNode { parent, ..n }
}

/// A node with its children range replaced.
pub open spec fn with_children(n: ArenaNode, start: u32, count: u32) -> ArenaNode {
    ArenaNode { children_start: start, children_count: count, ..n }
}

/// A node with its type-data range replaced.
pub open spec fn with_data(n: ArenaNode, offset: u32, len: u32) -> ArenaNode {
    ArenaNode { data_offset: offset, data_len: len, ..n }
}

/// A node with its position replaced.
pub open spec fn with_position(
    n: ArenaNode,
    start_offset: u32,
    end_offset: u32,
    start_line: u32,
    start_column: u32,
    end_line: u32,
    end_column: u32,
) -> ArenaNode {
    ArenaNode { start_offset, end_offset, start_line, start_column, end_line, end_column, ..n }
}

/// Node `i` is among the ids `kids`.
pub open spec fn lists_id(kids: Seq<u32>, i: int) -> bool {
    exists|k: int| 0 <= k < kids.len() && kids[k] as int == i
}

/// What `set_children(id, kids)` makes of node `i`, given the start of the
/// appended range.
pub open spec fn after_set_children(
    n: ArenaNode,
    i: int,
    id: u32,
    start: u32,
    kids: Seq<u32>,
) -> ArenaNode {
    let n1 = if i == id { with_children(n, start, kids.len() as u32) } else { n };
    if lists_id(kids, i) { with_parent(n1, id) } else { n1 }
}

impl Arena {
    /// The nodes, in order of creation (index = id).
    pub closed spec fn nodes_view(&self) -> Seq<ArenaNode> {
        self.nodes@
    }

    /// The flat array of child ids.
    pub closed spec fn children_view(&self) -> Seq<u32> {
        self.children@
    }

    /// The packed type-specific data.
    pub closed spec fn type_data_view(&self) -> Seq<u8> {
        self.type_data@
    }

    /// The source text.
    pub closed spec fn source_view(&self) -> Seq<char> {
        self.source@
    }

    /// The UTF-8 bytes of the source text, which string references index.
    pub open spec fn source_bytes(&self) -> Seq<u8> {
        encode_utf8(self.source_view())
    }

    pub open spec fn has_node(&self, id: int) -> bool {
        0 <= id < self.nodes_view().len()
    }

    /// The children range of node `id` lies in the flat children array.
    pub open spec fn children_in_bounds(&self, id: int) -> bool {
        self.has_node(id) && self.nodes_view()[id].children_start
            + self.nodes_view()[id].children_count <= self.children_view().len()
    }

    /// The child ids of node `id`.
    pub open spec fn children_of(&self, id: int) -> Seq<u32> {
        let n = self.nodes_view()[id];
        self.children_view().subrange(
            n.children_start as int,
            n.children_start + n.children_count,
        )
    }

    /// The type-data range of node `id` lies in the type-data array.
    pub open spec fn data_in_bounds(&self, id: int) -> bool {
        self.has_node(id) && self.nodes_view()[id].data_offset + self.nodes_view()[id].data_len
            <= self.type_data_view().len()
    }

    /// The type-specific data bytes of node `id`.
    pub open spec fn data_of(&self, id: int) -> Seq<u8> {
        let n = self.nodes_view()[id];
        self.type_data_view().subrange(n.data_offset as int, n.data_offset + n.data_len)
    }

    /// Every node's children and data ranges lie in bounds, and every child
    /// id is a node allocated after its parent (so the child lists form a
    /// forest in which following children always reaches higher ids).
    pub open spec fn well_formed(&self) -> bool {
        forall|i: int|
            #![trigger self.nodes_view()[i]]
            0 <= i < self.nodes_view().len() ==> {
                &&& self.children_in_bounds(i)
                &&& self.data_in_bounds(i)
                &&& forall|k: int|
                    0 <= k < self.children_of(i).len() ==> i < #[trigger] self.children_of(i)[k]
                        < self.nodes_view().len()
            }
    }

    /// The string reference points at whole characters of the source.
    pub open spec fn str_ok(&self, sr: StringRef) -> bool {
        range_ok(self.source_bytes(), sr.offset as int, sr.len as int)
    }

    /// The text a string reference points at.
    pub open spec fn str_of(&self, sr: StringRef) -> Seq<char> {
        decode_range(self.source_bytes(), sr.offset as int, sr.len as int)
    }

    pub fn new(source: String) -> (r: Self)
        ensures
            r.nodes_view() == Seq::<ArenaNode>::empty(),
            r.children_view() == Seq::<u32>::empty(),
            r.type_data_view() == Seq::<u8>::empty(),
            r.source_view() == source@,
    {
        Arena { nodes: Vec::new(), children: Vec::new(), type_data: Vec::new(), source }
    }

    /// An arena made of the given parts.
    pub(crate) fn from_parts(
        nodes: Vec<ArenaNode>,
        children: Vec<u32>,
        type_data: Vec<u8>,
        source: String,
    ) -> (r: Self)
        ensures
            r.nodes_view() == nodes@,
            r.children_view() == children@,
            r.type_data_view() == type_data@,
            r.source_view() == source@,
    {
        Arena { nodes, children, type_data, source }
    }

    /// The views are the fields' views.
    pub(crate) proof fn lemma_views(&self)
        ensures
            self.nodes_view() == self.nodes@,
            self.children_view() == self.children@,
            self.type_data_view() == self.type_data@,
            self.source_view() == self.source@,
    {
    }

    /// Allocate a new node and return its id (== index in the nodes).
    pub fn alloc_node(&mut self, node_type: NodeType) -> (id: u32)
        requires
            old(self).nodes_view().len() < u32::MAX,
        ensures
            id == old(self).nodes_view().len(),
            final(self).nodes_view() == old(self).nodes_view().push(
                ArenaNode::fresh(id, node_type.code()),
            ),
            final(self).children_view() == old(self).children_view(),
            final(self).type_data_view() == old(self).type_data_view(),
            final(self).source_view() == old(self).source_view(),
            keeps_data(*old(self), *final(self), -1),
            keeps_children(*old(self), *final(self), -1),
    {
        let id = self.nodes.len() as u32;
        self.nodes.push(ArenaNode::new(id, node_type));
        proof { lemma_keeps(*old(self), *self, -1, -1); }
        id
    }

    /// Allocate a new node using a raw type byte (for HAST and other trees
    /// stored in the same format).
    pub fn alloc_node_raw(&mut self, node_type_byte: u8) -> (id: u32)
        requires
            old(self).nodes_view().len() < u32::MAX,
        ensures
            id == old(self).nodes_view().len(),
            final(self).nodes_view() == old(self).nodes_view().push(
                ArenaNode::fresh(id, node_type_byte),
            ),
            final(self).children_view() == old(self).children_view(),
            final(self).type_data_view() == old(self).type_data_view(),
            final(self).source_view() == old(self).source_view(),
            keeps_data(*old(self), *final(self), -1),
            keeps_children(*old(self), *final(self), -1),
    {
        let id = self.nodes.len() as u32;
        let mut node = ArenaNode::new(id, NodeType::Root);
        node.node_type = node_type_byte;
        self.nodes.push(node);
        proof { lemma_keeps(*old(self), *self, -1, -1); }
        id
    }

    /// Set the parent of a node.
    pub fn set_parent(&mut self, node_id: u32, parent_id: u32)
        requires
            old(self).has_node(node_id as int),
        ensures
            final(self).nodes_view() == old(self).nodes_view().update(
                node_id as int,
                with_parent(old(self).nodes_view()[node_id as int], parent_id),
            ),
            final(self).children_view() == old(self).children_view(),
            final(self).type_data_view() == old(self).type_data_view(),
            final(self).source_view() == old(self).source_view(),
            keeps_data(*old(self), *final(self), -1),
            keeps_children(*old(self), *final(self), -1),
    {
        let mut n = self.nodes[node_id as usize];
        n.parent = parent_id;
        self.nodes.set(node_id as usize, n);
        proof { lemma_keeps(*old(self), *self, -1, -1); }
    }

    /// Set position data on a node.
    pub fn set_position(
        &mut self,
        node_id: u32,
        start_offset: u32,
        end_offset: u32,
        start_line: u32,
        start_column: u32,
        end_line: u32,
        end_column: u32,
    )
        requires
            old(self).has_node(node_id as int),
        ensures
            final(self).nodes_view() == old(self).nodes_view().update(
                node_id as int,
                with_position(
                    old(self).nodes_view()[node_id as int],
                    start_offset,
                    end_offset,
                    start_line,
                    start_column,
                    end_line,
                    end_column,
                ),
            ),
            final(self).children_view() == old(self).children_view(),
            final(self).type_data_view() == old(self).type_data_view(),
            final(self).source_view() == old(self).source_view(),
            keeps_data(*old(self), *final(self), -1),
            keeps_children(*old(self), *final(self), -1),
    {
        let mut n = self.nodes[node_id as usize];
        n.start_offset = start_offset;
        n.end_offset = end_offset;
        n.start_line = start_line;
        n.start_column = start_column;
        n.end_line = end_line;
        n.end_column = end_column;
        self.nodes.set(node_id as usize, n);
        proof { lemma_keeps(*old(self), *self, -1, -1); }
    }

    /// Set children for a node: appends the ids to the flat children array,
    /// records the start index and count on the node, and makes the node the
    /// parent of each child.
    pub fn set_children(&mut self, node_id: u32, child_ids: &[u32])
        requires
            old(self).has_node(node_id as int),
            forall|k: int| 0 <= k < child_ids@.len() ==> old(self).has_node(#[trigger] child_ids@[k] as int),
            old(self).children_view().len() + child_ids@.len() <= u32::MAX,
        ensures
            final(self).children_view() == old(self).children_view() + child_ids@,
            final(self).nodes_view().len() == old(self).nodes_view().len(),
            forall|i: int|
                0 <= i < old(self).nodes_view().len() ==> #[trigger] final(self).nodes_view()[i]
                    == after_set_children(
                    old(self).nodes_view()[i],
                    i,
                    node_id,
                    old(self).children_view().len() as u32,
                    child_ids@,
                ),
            final(self).type_data_view() == old(self).type_data_view(),
            final(self).source_view() == old(self).source_view(),
            keeps_data(*old(self), *final(self), -1),
            keeps_children(*old(self), *final(self), node_id as int),
            final(self).children_in_bounds(node_id as int),
            final(self).children_of(node_id as int) == child_ids@,
    {
        let start = self.children.len() as u32;
        let mut k: usize = 0;
        while k < child_ids.len()
            invariant
                k <= child_ids@.len(),
                self.children@ == old(self).children@ + child_ids@.subrange(0, k as int),
                self.nodes@ == old(self).nodes@,
                self.type_data@ == old(self).type_data@,
                self.source@ == old(self).source@,
            decreases child_ids@.len() - k,
        {
            self.children.push(child_ids[k]);
            k = k + 1;
            assert(child_ids@.subrange(0, k as int) =~= child_ids@.subrange(0, k - 1).push(
                child_ids@[k - 1],
            ));
        }
        assert(child_ids@.subrange(0, k as int) =~= child_ids@);
        let mut node = self.nodes[node_id as usize];
        node.children_start = start;
        node.children_count = child_ids.len() as u32;
        self.nodes.set(node_id as usize, node);
        let ghost mid = self.nodes@;
        let mut j: usize = 0;
        while j < child_ids.len()
            invariant
                j <= child_ids@.len(),
                self.nodes@.len() == mid.len(),
                mid.len() == old(self).nodes@.len(),
                forall|k: int| 0 <= k < child_ids@.len() ==> (#[trigger] child_ids@[k] as int) < mid.len(),
                forall|i: int|
                    0 <= i < mid.len() ==> #[trigger] self.nodes@[i] == (if lists_id(
                        child_ids@.subrange(0, j as int),
                        i,
                    ) {
                        with_parent(mid[i], node_id)
                    } else {
                        mid[i]
                    }),
                self.children@ == old(self).children@ + child_ids@,
                self.type_data@ == old(self).type_data@,
                self.source@ == old(self).source@,
            decreases child_ids@.len() - j,
        {
            let c = child_ids[j];
            let mut n = self.nodes[c as usize];
            n.parent = node_id;
            self.nodes.set(c as usize, n);
            j = j + 1;
            assert forall|i: int| 0 <= i < mid.len() implies #[trigger] self.nodes@[i] == (
            if lists_id(child_ids@.subrange(0, j as int), i) {
                with_parent(mid[i], node_id)
            } else {
                mid[i]
            }) by {
                let pre = child_ids@.subrange(0, j - 1);
                let post = child_ids@.subrange(0, j as int);
                assert(post =~= pre.push(c));
                if i == c as int {
                    assert(post[j - 1] as int == i);
                } else {
                    if lists_id(post, i) {
                        let w = choose|w: int| 0 <= w < post.len() && post[w] as int == i;
                        assert(pre[w] as int == i);
                    }
                    if lists_id(pre, i) {
                        let w = choose|w: int| 0 <= w < pre.len() && pre[w] as int == i;
                        assert(post[w] as int == i);
                    }
                }
            }
        }
        assert(child_ids@.subrange(0, j as int) =~= child_ids@);
        proof { lemma_keeps(*old(self), *self, -1, node_id as int); }
    }

    /// Add a single child: appends one id to the flat children array,
    /// starts the parent's range there if it had no children, and counts it.
    pub fn add_child(&mut self, parent_id: u32, child_id: u32)
        requires
            old(self).has_node(parent_id as int),
            old(self).has_node(child_id as int),
            old(self).children_view().len() < u32::MAX,
            old(self).nodes_view()[parent_id as int].children_count < u32::MAX,
        ensures
            final(self).children_view() == old(self).children_view().push(child_id),
            ({
                let p = old(self).nodes_view()[parent_id as int];
                let start = if p.children_count == 0 {
                    old(self).children_view().len() as u32
                } else {
                    p.children_start
                };
                let p2 = with_children(p, start, (p.children_count + 1) as u32);
                let mid = old(self).nodes_view().update(parent_id as int, p2);
                final(self).nodes_view() == mid.update(
                    child_id as int,
                    with_parent(mid[child_id as int], parent_id),
                )
            }),
            final(self).type_data_view() == old(self).type_data_view(),
            final(self).source_view() == old(self).source_view(),
            keeps_data(*old(self), *final(self), -1),
            keeps_children(*old(self), *final(self), parent_id as int),
            old(self).children_in_bounds(parent_id as int) && (old(self).nodes_view()[parent_id as int].children_count == 0
                || old(self).nodes_view()[parent_id as int].children_start + old(self).nodes_view()[parent_id as int].children_count
                == old(self).children_view().len()) ==> final(self).children_in_bounds(parent_id as int)
                && final(self).children_of(parent_id as int) == old(self).children_of(parent_id as int).push(child_id),
            final(self).nodes_view()[child_id as int].parent == parent_id,
    {
        let start = self.children.len() as u32;
        self.children.push(child_id);
        let mut parent = self.nodes[parent_id as usize];
        if parent.children_count == 0 {
            parent.children_start = start;
        }
        parent.children_count = parent.children_count + 1;
        self.nodes.set(parent_id as usize, parent);
        let mut child = self.nodes[child_id as usize];
        child.parent = parent_id;
        self.nodes.set(child_id as usize, child);
        proof { lemma_keeps(*old(self), *self, -1, parent_id as int); }
    }

    /// Write type-specific data bytes at the end of the type data and point
    /// the node's data range at them.
    pub fn set_type_data(&mut self, node_id: u32, data: &[u8])
        requires
            old(self).has_node(node_id as int),
            old(self).type_data_view().len() + data@.len() <= u32::MAX,
        ensures
            final(self).type_data_view() == old(self).type_data_view() + data@,
            final(self).nodes_view() == old(self).nodes_view().update(
                node_id as int,
                with_data(
                    old(self).nodes_view()[node_id as int],
                    old(self).type_data_view().len() as u32,
                    data@.len() as u32,
                ),
            ),
            final(self).children_view() == old(self).children_view(),
            final(self).source_view() == old(self).source_view(),
            keeps_data(*old(self), *final(self), node_id as int),
            keeps_children(*old(self), *final(self), -1),
            final(self).data_in_bounds(node_id as int),
            final(self).data_of(node_id as int) == data@,
    {
        let offset = self.type_data.len() as u32;
        let mut k: usize = 0;
        while k < data.len()
            invariant
                k <= data@.len(),
                self.type_data@ == old(self).type_data@ + data@.subrange(0, k as int),
                self.nodes@ == old(self).nodes@,
                self.children@ == old(self).children@,
                self.source@ == old(self).source@,
            decreases data@.len() - k,
        {
            self.type_data.push(data[k]);
            k = k + 1;
            assert(data@.subrange(0, k as int) =~= data@.subrange(0, k - 1).push(data@[k - 1]));
        }
        assert(data@.subrange(0, k as int) =~= data@);
        let mut node = self.nodes[node_id as usize];
        node.data_offset = offset;
        node.data_len = data.len() as u32;
        self.nodes.set(node_id as usize, node);
        proof { lemma_keeps(*old(self), *self, node_id as int, -1); }
    }

    /// Replace node `id` in its parent's child list by the nodes `new_kids`
    /// (each of which then has that parent): the parent gets a fresh child
    /// list, the old one with `id` replaced.
    pub fn replace_node_with_children(&mut self, id: u32, new_kids: &[u32])
        requires
            old(self).well_formed(),
            old(self).has_node(id as int),
            old(self).has_node(old(self).nodes_view()[id as int].parent as int),
            old(self).children_in_bounds(old(self).nodes_view()[id as int].parent as int),
            lists_id(old(self).children_of(old(self).nodes_view()[id as int].parent as int), id as int),
            forall|k: int|
                0 <= k < new_kids@.len() ==> old(self).nodes_view()[id as int].parent < #[trigger] new_kids@[k]
                    < old(self).nodes_view().len(),
            old(self).children_view().len() + replaced(
                old(self).children_of(old(self).nodes_view()[id as int].parent as int),
                id,
                new_kids@,
            ).len() <= u32::MAX,
        ensures
            ({
                let p = old(self).nodes_view()[id as int].parent as int;
                &&& final(self).well_formed()
                &&& final(self).nodes_view().len() == old(self).nodes_view().len()
                &&& keeps_data(*old(self), *final(self), -1)
                &&& keeps_children(*old(self), *final(self), p)
                &&& final(self).children_of(p) == replaced(old(self).children_of(p), id, new_kids@)
                &&& forall|k: int|
                    0 <= k < new_kids@.len() ==> final(self).nodes_view()[#[trigger] new_kids@[k] as int].parent
                        == p
                &&& forall|i: int|
                    0 <= i < old(self).nodes_view().len() ==> same_record(
                        #[trigger] final(self).nodes_view()[i],
                        old(self).nodes_view()[i],
                    )
                &&& forall|i: int|
                    0 <= i < old(self).nodes_view().len() && !lists_id(final(self).children_of(p), i)
                        ==> (#[trigger] final(self).nodes_view()[i]).parent == old(self).nodes_view()[i].parent
            }),
            final(self).source_view() == old(self).source_view(),
    {
        let ghost a = *self;
        let p = self.nodes[id as usize].parent;
        assert(self.nodes_view()[id as int].parent == p);
        let old_kids = self.get_children(p);
        let mut list: Vec<u32> = Vec::new();
        let mut k: usize = 0;
        while k < old_kids.len()
            invariant
                k <= old_kids@.len(),
                old_kids@ == a.children_of(p as int),
                a.well_formed(),
                0 <= p < a.nodes_view().len(),
                forall|j: int| 0 <= j < new_kids@.len() ==> p < #[trigger] new_kids@[j] < a.nodes_view().len(),
                list@ == replaced(old_kids@.subrange(0, k as int), id, new_kids@),
                forall|j: int| 0 <= j < list@.len() ==> p < #[trigger] list@[j] < a.nodes_view().len(),
                replaced(old_kids@, id, new_kids@).len() <= u32::MAX,
            decreases old_kids@.len() - k,
        {
            let c = old_kids[k];
            proof {
                assert(old_kids@.subrange(0, k + 1).drop_last() =~= old_kids@.subrange(0, k as int));
                assert(old_kids@.subrange(0, k + 1).last() == c);
                assert(a.nodes_view()[p as int] == a.nodes_view()[p as int]);
                assert(p < a.children_of(p as int)[k as int]);
            }
            if c == id {
                let ghost before = list@;
                let mut j: usize = 0;
                while j < new_kids.len()
                    invariant
                        j <= new_kids@.len(),
                        list@ == before + new_kids@.subrange(0, j as int),
                        forall|i: int| 0 <= i < new_kids@.len() ==> p < #[trigger] new_kids@[i] < a.nodes_view().len(),
                        forall|i: int| 0 <= i < before.len() ==> p < #[trigger] before[i] < a.nodes_view().len(),
                        forall|i: int| 0 <= i < list@.len() ==> p < #[trigger] list@[i] < a.nodes_view().len(),
                    decreases new_kids@.len() - j,
                {
                    list.push(new_kids[j]);
                    j = j + 1;
                    assert(new_kids@.subrange(0, j as int) =~= new_kids@.subrange(0, j - 1).push(new_kids@[j - 1]));
                }
                assert(new_kids@.subrange(0, j as int) =~= new_kids@);
            } else {
                list.push(c);
            }
            k = k + 1;
        }
        assert(old_kids@.subrange(0, k as int) =~= old_kids@);
        assert forall|j: int| 0 <= j < list@.len() implies a.has_node(#[trigger] list@[j] as int) by {}
        self.set_children(p, list.as_slice());
        proof {
            lemma_set_children_wf(a, *self, p as int);
            assert forall|kk: int| 0 <= kk < new_kids@.len() implies self.nodes_view()[#[trigger] new_kids@[kk] as int].parent
                == p by {
                assert(self.nodes_view()[new_kids@[kk] as int] == after_set_children(
                    a.nodes_view()[new_kids@[kk] as int],
                    new_kids@[kk] as int,
                    p,
                    a.children_view().len() as u32,
                    list@,
                ));
                lemma_replaced_lists(a.children_of(p as int), id, new_kids@, kk);
            }
        }
    }

    /// Get a node by id.
    pub fn get_node(&self, node_id: u32) -> (r: &ArenaNode)
        requires
            self.has_node(node_id as int),
        ensures
            *r == self.nodes_view()[node_id as int],
    {
        &self.nodes[node_id as usize]
    }

    /// Get a mutable reference to a node by id.
    pub fn get_node_mut(&mut self, node_id: u32) -> (r: &mut ArenaNode)
        requires
            old(self).has_node(node_id as int),
        ensures
            *r == old(self).nodes_view()[node_id as int],
            final(self).nodes_view() == old(self).nodes_view().update(node_id as int, *final(r)),
            final(self).children_view() == old(self).children_view(),
            final(self).type_data_view() == old(self).type_data_view(),
            final(self).source_view() == old(self).source_view(),
    {
        &mut self.nodes[node_id as usize]
    }

    /// Get all child ids of a node.
    pub fn get_children(&self, node_id: u32) -> (r: &[u32])
        requires
            self.children_in_bounds(node_id as int),
        ensures
            r@ == self.children_of(node_id as int),
    {
        let node = self.nodes[node_id as usize];
        assert(node == self.nodes_view()[node_id as int]);
        let total = self.children.len();
        assert(node.children_start + node.children_count <= total);
        let start = node.children_start as usize;
        let end = start + node.children_count as usize;
        vstd::slice::slice_subrange(self.children.as_slice(), start, end)
    }

    /// Read a string from the source by StringRef.
    pub fn get_str(&self, string_ref: StringRef) -> (r: &str)
        requires
            self.str_ok(string_ref),
        ensures
            r@ == self.str_of(string_ref),
            r.spec_bytes() == self.source_bytes().subrange(
                string_ref.offset as int,
                string_ref.offset + string_ref.len,
            ),
    {
        let s = self.source.as_str();
        substr(s, string_ref.offset as usize, string_ref.len as usize)
    }

    /// Get the source text.
    pub fn source(&self) -> (r: &str)
        ensures
            r@ == self.source_view(),
    {
        self.source.as_str()
    }

    /// Number of nodes.
    pub fn len(&self) -> (r: usize)
        ensures
            r == self.nodes_view().len(),
    {
        self.nodes.len()
    }

    pub fn is_empty(&self) -> (r: bool)
        ensures
            r == (self.nodes_view().len() == 0),
    {
        self.nodes.len() == 0
    }

    /// Append a computed string to the source buffer and return a `StringRef`
    /// pointing to it; reading that reference back gives the string.
    pub fn alloc_string(&mut self, s: &str) -> (r: StringRef)
        requires
            old(self).source_bytes().len() + s.spec_bytes().len() <= u32::MAX,
        ensures
            final(self).source_view() == old(self).source_view() + s@,
            r.offset == old(self).source_bytes().len(),
            r.len == s.spec_bytes().len(),
            final(self).str_ok(r),
            final(self).str_of(r) == s@,
            final(self).nodes_view() == old(self).nodes_view(),
            final(self).children_view() == old(self).children_view(),
            final(self).type_data_view() == old(self).type_data_view(),
            keeps_data(*old(self), *final(self), -1),
            keeps_children(*old(self), *final(self), -1),
            forall|sr: StringRef| #[trigger] old(self).str_ok(sr) ==> final(self).str_ok(sr) && final(self).str_of(sr)
                == old(self).str_of(sr),
    {
        let offset = self.source.as_str().len() as u32;
        let len = s.len() as u32;
        self.source.append(s);
        proof {
            lemma_alloc_string_readback(old(self).source@, s@);
        }
        proof { lemma_keeps(*old(self), *self, -1, -1); }
        proof {
            assert forall|sr: StringRef| #[trigger] old(self).str_ok(sr) implies self.str_ok(sr)
                && self.str_of(sr) == old(self).str_of(sr) by {
                lemma_str_kept(old(self).source_view(), s@, sr);
            }
        }
        StringRef::new(offset, len)
    }

    /// Change the node kind of an already-allocated node.
    pub fn change_node_type(&mut self, node_id: u32, new_type: NodeType)
        requires
            old(self).has_node(node_id as int),
        ensures
            final(self).nodes_view() == old(self).nodes_view().update(
                node_id as int,
                ArenaNode { node_type: new_type.code(), ..old(self).nodes_view()[node_id as int] },
            ),
            final(self).children_view() == old(self).children_view(),
            final(self).type_data_view() == old(self).type_data_view(),
            final(self).source_view() == old(self).source_view(),
            keeps_data(*old(self), *final(self), -1),
            keeps_children(*old(self), *final(self), -1),
    {
        let mut n = self.nodes[node_id as usize];
        n.node_type = new_type.as_u8();
        self.nodes.set(node_id as usize, n);
        proof { lemma_keeps(*old(self), *self, -1, -1); }
    }

    /// Access the raw type-data bytes.
    pub fn arena_type_data(&self) -> (r: &[u8])
        ensures
            r@ == self.type_data_view(),
    {
        self.type_data.as_slice()
    }

    /// Get the type-specific data bytes of a node.
    pub fn get_type_data(&self, node_id: u32) -> (r: &[u8])
        requires
            self.data_in_bounds(node_id as int),
        ensures
            r@ == self.data_of(node_id as int),
    {
        let node = self.nodes[node_id as usize];
        assert(node == self.nodes_view()[node_id as int]);
        let total = self.type_data.len();
        assert(node.data_offset + node.data_len <= total);
        let start = node.data_offset as usize;
        let end = start + node.data_len as usize;
        vstd::slice::slice_subrange(self.type_data.as_slice(), start, end)
    }
}

/// `b` keeps every type-data range of `a` (but that of node `skip`): the
/// nodes of `a` are still there with the same data ranges, and the bytes
/// `a` holds are a prefix of `b`'s.
pub open spec fn keeps_data(a: Arena, b: Arena, skip: int) -> bool {
    &&& a.nodes_view().len() <= b.nodes_view().len()
    &&& a.type_data_view().len() <= b.type_data_view().len()
    &&& b.type_data_view().subrange(0, a.type_data_view().len() as int) == a.type_data_view()
    &&& forall|i: int|
        0 <= i < a.nodes_view().len() && i != skip ==> {
            &&& (#[trigger] b.nodes_view()[i]).data_offset == a.nodes_view()[i].data_offset
            &&& b.nodes_view()[i].data_len == a.nodes_view()[i].data_len
        }
}

/// `b` keeps every child list of `a` (but that of node `skip`): the nodes of
/// `a` are still there with the same children ranges, and the children
/// array of `a` is a prefix of `b`'s.
pub open spec fn keeps_children(a: Arena, b: Arena, skip: int) -> bool {
    &&& a.nodes_view().len() <= b.nodes_view().len()
    &&& a.children_view().len() <= b.children_view().len()
    &&& b.children_view().subrange(0, a.children_view().len() as int) == a.children_view()
    &&& forall|i: int|
        0 <= i < a.nodes_view().len() && i != skip ==> {
            &&& (#[trigger] b.nodes_view()[i]).children_start == a.nodes_view()[i].children_start
            &&& b.nodes_view()[i].children_count == a.nodes_view()[i].children_count
        }
}

/// Type data read after it was written: a node's data bytes stay what they
/// were through every later operation that keeps its data range.
pub proof fn law_data_kept(a: Arena, b: Arena, skip: int, i: int)
    requires
        keeps_data(a, b, skip),
        a.data_in_bounds(i),
        i != skip,
    ensures
        b.data_in_bounds(i),
        b.data_of(i) == a.data_of(i),
{
    assert(b.nodes_view()[i].data_offset == a.nodes_view()[i].data_offset);
    assert(b.data_of(i) =~= a.data_of(i)) by {
        let n = a.nodes_view()[i];
        assert forall|k: int| 0 <= k < n.data_len implies b.data_of(i)[k] == a.data_of(i)[k] by {
            assert(b.type_data_view().subrange(0, a.type_data_view().len() as int)[n.data_offset + k]
                == b.type_data_view()[n.data_offset + k]);
        }
    }
}

/// A node's child list stays what it was through every later operation that
/// keeps its children range.
pub proof fn law_children_kept(a: Arena, b: Arena, skip: int, i: int)
    requires
        keeps_children(a, b, skip),
        a.children_in_bounds(i),
        i != skip,
    ensures
        b.children_in_bounds(i),
        b.children_of(i) == a.children_of(i),
{
    assert(b.nodes_view()[i].children_start == a.nodes_view()[i].children_start);
    assert(b.children_of(i) =~= a.children_of(i)) by {
        let n = a.nodes_view()[i];
        assert forall|k: int| 0 <= k < n.children_count implies b.children_of(i)[k] == a.children_of(
            i,
        )[k] by {
            assert(b.children_view().subrange(0, a.children_view().len() as int)[n.children_start
                + k] == b.children_view()[n.children_start + k]);
        }
    }
}

/// Keeping data ranges composes over a run of operations.
pub proof fn law_keeps_data_trans(a: Arena, b: Arena, c: Arena, s1: int, s2: int, skip: int)
    requires
        keeps_data(a, b, s1),
        keeps_data(b, c, s2),
        s1 == -1 || s1 == skip,
        s2 == -1 || s2 == skip,
    ensures
        keeps_data(a, c, skip),
{
    assert(c.type_data_view().subrange(0, a.type_data_view().len() as int) =~= a.type_data_view())
        by {
        assert forall|k: int| 0 <= k < a.type_data_view().len() implies c.type_data_view()[k]
            == a.type_data_view()[k] by {
            assert(c.type_data_view().subrange(0, b.type_data_view().len() as int)[k]
                == c.type_data_view()[k]);
            assert(b.type_data_view().subrange(0, a.type_data_view().len() as int)[k]
                == b.type_data_view()[k]);
        }
    }
    assert forall|i: int| 0 <= i < a.nodes_view().len() && i != skip implies {
        &&& (#[trigger] c.nodes_view()[i]).data_offset == a.nodes_view()[i].data_offset
        &&& c.nodes_view()[i].data_len == a.nodes_view()[i].data_len
    } by {
        assert(b.nodes_view()[i].data_offset == a.nodes_view()[i].data_offset);
    }
}

/// Keeping child lists composes over a run of operations.
pub proof fn law_keeps_children_trans(a: Arena, b: Arena, c: Arena, s1: int, s2: int, skip: int)
    requires
        keeps_children(a, b, s1),
        keeps_children(b, c, s2),
        s1 == -1 || s1 == skip,
        s2 == -1 || s2 == skip,
    ensures
        keeps_children(a, c, skip),
{
    assert(c.children_view().subrange(0, a.children_view().len() as int) =~= a.children_view())
        by {
        assert forall|k: int| 0 <= k < a.children_view().len() implies c.children_view()[k]
            == a.children_view()[k] by {
            assert(c.children_view().subrange(0, b.children_view().len() as int)[k]
                == c.children_view()[k]);
            assert(b.children_view().subrange(0, a.children_view().len() as int)[k]
                == b.children_view()[k]);
        }
    }
    assert forall|i: int| 0 <= i < a.nodes_view().len() && i != skip implies {
        &&& (#[trigger] c.nodes_view()[i]).children_start == a.nodes_view()[i].children_start
        &&& c.nodes_view()[i].children_count == a.nodes_view()[i].children_count
    } by {
        assert(b.nodes_view()[i].children_start == a.nodes_view()[i].children_start);
    }
}

/// Arenas related as every operation relates its arena before and after:
/// the nodes, type data and children of the first are kept in the second,
/// and so are the ranges of each node but the two named.
pub(crate) proof fn lemma_keeps(a: Arena, b: Arena, sd: int, sc: int)
    requires
        a.nodes_view().len() <= b.nodes_view().len(),
        a.type_data_view().len() <= b.type_data_view().len(),
        forall|k: int| 0 <= k < a.type_data_view().len() ==> b.type_data_view()[k] == a.type_data_view()[k],
        a.children_view().len() <= b.children_view().len(),
        forall|k: int| 0 <= k < a.children_view().len() ==> b.children_view()[k] == a.children_view()[k],
        forall|i: int| 0 <= i < a.nodes_view().len() && i != sd ==> {
            &&& (#[trigger] b.nodes_view()[i]).data_offset == a.nodes_view()[i].data_offset
            &&& b.nodes_view()[i].data_len == a.nodes_view()[i].data_len
        },
        forall|i: int| 0 <= i < a.nodes_view().len() && i != sc ==> {
            &&& (#[trigger] b.nodes_view()[i]).children_start == a.nodes_view()[i].children_start
            &&& b.nodes_view()[i].children_count == a.nodes_view()[i].children_count
        },
    ensures
        keeps_data(a, b, sd),
        keeps_children(a, b, sc),
{
    assert(b.type_data_view().subrange(0, a.type_data_view().len() as int) =~= a.type_data_view());
    assert(b.children_view().subrange(0, a.children_view().len() as int) =~= a.children_view());
}

/// A reference to whole characters of a source still reads the same text
/// after more text is appended to the source.
pub(crate) proof fn lemma_str_kept(src: Seq<char>, t: Seq<char>, sr: StringRef)
    requires
        range_ok(encode_utf8(src), sr.offset as int, sr.len as int),
    ensures
        range_ok(encode_utf8(src + t), sr.offset as int, sr.len as int),
        decode_range(encode_utf8(src + t), sr.offset as int, sr.len as int) == decode_range(
            encode_utf8(src),
            sr.offset as int,
            sr.len as int,
        ),
{
    lemma_encode_concat(src, t);
    let sa = encode_utf8(src);
    let sb = encode_utf8(src + t);
    assert(sb.subrange(sr.offset as int, sr.offset + sr.len) =~= sa.subrange(sr.offset as int, sr.offset + sr.len));
    assert forall|i: int| 0 <= i <= sa.len() && #[trigger] crate::text::on_boundary(sa, i) implies crate::text::on_boundary(sb, i) by {
        if i < sa.len() {
            assert(sb[i] == sa[i]);
        } else if sb.len() > sa.len() {
            lemma_first_byte_not_continuation(t);
            assert(sb[i] == encode_utf8(t)[0]);
        }
    }
    assert(crate::text::on_boundary(sa, sr.offset as int));
    assert(crate::text::on_boundary(sa, sr.offset + sr.len));
}

/// Two node records agree in kind, position and data range.
pub open spec fn same_record(m: ArenaNode, n: ArenaNode) -> bool {
    &&& m.node_type == n.node_type
    &&& m.start_offset == n.start_offset
    &&& m.end_offset == n.end_offset
    &&& m.start_line == n.start_line
    &&& m.start_column == n.start_column
    &&& m.end_line == n.end_line
    &&& m.end_column == n.end_column
    &&& m.data_offset == n.data_offset
    &&& m.data_len == n.data_len
}

/// A child list with every occurrence of `id` replaced by the list `new`.
pub open spec fn replaced(kids: Seq<u32>, id: u32, new: Seq<u32>) -> Seq<u32>
    decreases kids.len(),
{
    if kids.len() == 0 {
        Seq::empty()
    } else {
        replaced(kids.drop_last(), id, new) + if kids.last() == id {
            new
        } else {
            seq![kids.last()]
        }
    }
}

/// Where `id` occurs in `kids`, every node of `new` is in the replaced list.
proof fn lemma_replaced_lists(kids: Seq<u32>, id: u32, new: Seq<u32>, kk: int)
    requires
        0 <= kk < new.len(),
        lists_id(kids, id as int),
    ensures
        lists_id(replaced(kids, id, new), new[kk] as int),
    decreases kids.len(),
{
    let r = replaced(kids, id, new);
    let pre = replaced(kids.drop_last(), id, new);
    if kids.last() == id {
        assert(r[pre.len() + kk] == new[kk]);
    } else {
        let w = choose|w: int| 0 <= w < kids.len() && kids[w] as int == id as int;
        assert(kids.drop_last()[w] == kids[w]);
        lemma_replaced_lists(kids.drop_last(), id, new, kk);
        let v = choose|v: int| 0 <= v < pre.len() && pre[v] as int == new[kk] as int;
        assert(r[v] == pre[v]);
    }
}

/// Setting a child list of ids above the parent keeps an arena well formed.
pub(crate) proof fn lemma_set_children_wf(a: Arena, b: Arena, p: int)
    requires
        a.well_formed(),
        keeps_children(a, b, p),
        keeps_data(a, b, -1),
        b.nodes_view().len() == a.nodes_view().len(),
        0 <= p < a.nodes_view().len(),
        b.children_in_bounds(p),
        forall|k: int| 0 <= k < b.children_of(p).len() ==> p < #[trigger] b.children_of(p)[k] < b.nodes_view().len(),
    ensures
        b.well_formed(),
{
    assert forall|i: int| 0 <= i < b.nodes_view().len() implies {
        &&& b.children_in_bounds(i)
        &&& b.data_in_bounds(i)
        &&& forall|k: int|
            0 <= k < b.children_of(i).len() ==> i < #[trigger] b.children_of(i)[k] < b.nodes_view().len()
    } by {
        assert(a.nodes_view()[i] == a.nodes_view()[i]);
        law_data_kept(a, b, -1, i);
        if i != p {
            law_children_kept(a, b, p, i);
        }
    }
}

/// Two nodes have the same children and data ranges.
pub open spec fn same_ranges(a: ArenaNode, b: ArenaNode) -> bool {
    &&& a.children_start == b.children_start
    &&& a.children_count == b.children_count
    &&& a.data_offset == b.data_offset
    &&& a.data_len == b.data_len
}

/// Arenas whose nodes differ only outside the children and data ranges have
/// the same child lists, the same data and the same well-formedness.
pub proof fn lemma_same_shape(a: Arena, b: Arena)
    requires
        a.nodes_view().len() == b.nodes_view().len(),
        a.children_view() == b.children_view(),
        a.type_data_view() == b.type_data_view(),
        forall|i: int| 0 <= i < a.nodes_view().len() ==> same_ranges(#[trigger] a.nodes_view()[i], b.nodes_view()[i]),
    ensures
        a.well_formed() ==> b.well_formed(),
        forall|i: int| 0 <= i < a.nodes_view().len() ==> #[trigger] b.children_of(i) == a.children_of(i),
        forall|i: int| 0 <= i < a.nodes_view().len() ==> #[trigger] b.data_of(i) == a.data_of(i),
{
    assert forall|i: int| 0 <= i < a.nodes_view().len() implies #[trigger] b.children_of(i) == a.children_of(i) && b.data_of(i) == a.data_of(i) by {
        assert(same_ranges(a.nodes_view()[i], b.nodes_view()[i]));
    }
    if a.well_formed() {
        assert forall|i: int| 0 <= i < b.nodes_view().len() implies {
            &&& b.children_in_bounds(i)
            &&& b.data_in_bounds(i)
            &&& forall|k: int|
                0 <= k < b.children_of(i).len() ==> i < #[trigger] b.children_of(i)[k]
                    < b.nodes_view().len()
        } by {
            assert(same_ranges(a.nodes_view()[i], b.nodes_view()[i]));
            assert(b.children_of(i) == a.children_of(i));
        }
    }
}

/// Appending `t` to a source leaves a reference to exactly `t` at its end.
pub proof fn lemma_alloc_string_readback(s: Seq<char>, t: Seq<char>)
    ensures
        range_ok(encode_utf8(s + t), encode_utf8(s).len() as int, encode_utf8(t).len() as int),
        decode_range(encode_utf8(s + t), encode_utf8(s).len() as int, encode_utf8(t).len() as int)
            == t,
{
    lemma_encode_concat(s, t);
    lemma_decode_range_of_encoding(s + t, s, t, Seq::<char>::empty());
    assert(s + t + Seq::<char>::empty() =~= s + t);
    let es = encode_utf8(s);
    let et = encode_utf8(t);
    let b = encode_utf8(s + t);
    assert(b =~= es + et);
    if 0 < es.len() < b.len() {
        lemma_first_byte_not_continuation(t);
        assert(b[es.len() as int] == et[0]);
    }
}

/// The first byte of a non-empty encoding starts a character.
pub proof fn lemma_first_byte_not_continuation(t: Seq<char>)
    requires
        encode_utf8(t).len() > 0,
    ensures
        !is_continuation_byte(encode_utf8(t)[0]),
{
    let b = encode_utf8(t);
    encode_utf8_valid_utf8(t);
    is_char_boundary_start_end_of_seq(b);
    is_char_boundary_iff_not_is_continuation_byte(b, 0);
}

} // verus!
