//! ArenaBuilder: construct an arena incrementally with an open/close
//! discipline (nodes are pushed on a stack when opened and get their
//! children when closed).
use vstd::prelude::*;
use vstd::string::*;
use crate::arena::{Arena, after_set_children, with_children, with_parent, with_position, with_data, lists_id, same_ranges, lemma_same_shape};
use crate::node::{ArenaNode, NodeType, StringRef};

verus! {

/// The number of entries that closing every open node adds to the flat
/// children array: all pending children plus one entry per node that gets a
/// parent.
pub open spec fn pending_total(frames: Seq<(u32, Seq<u32>)>) -> int
    decreases frames.len(),
{
    if frames.len() == 0 {
        0
    } else {
        pending_total(frames.drop_last()) + frames.last().1.len() + 1
    }
}

/// One close step on the state (nodes, children array, open frames): the
/// top node gets its pending children and, when a node lies below it, that
/// node as parent and as a new pending child.
pub open spec fn close_step(
    nodes: Seq<ArenaNode>,
    children: Seq<u32>,
    fs: Seq<(u32, Seq<u32>)>,
) -> (Seq<ArenaNode>, Seq<u32>, Seq<(u32, Seq<u32>)>) {
    let top = fs.last();
    let id = top.0;
    let start = children.len() as u32;
    let nodes2 = Seq::new(
        nodes.len(),
        |i: int|
            {
                let n = after_set_children(nodes[i], i, id, start, top.1);
                if fs.len() > 1 && i == id {
                    with_parent(n, fs[fs.len() - 2].0)
                } else {
                    n
                }
            },
    );
    let fs2 = if fs.len() > 1 {
        fs.subrange(0, fs.len() - 2).push((fs[fs.len() - 2].0, fs[fs.len() - 2].1.push(id)))
    } else {
        Seq::<(u32, Seq<u32>)>::empty()
    };
    (nodes2, children + top.1, fs2)
}

/// The nodes and children array after closing every open frame, top first.
pub open spec fn close_all(
    nodes: Seq<ArenaNode>,
    children: Seq<u32>,
    fs: Seq<(u32, Seq<u32>)>,
) -> (Seq<ArenaNode>, Seq<u32>)
    decreases fs.len(),
{
    if fs.len() == 0 {
        (nodes, children)
    } else {
        let st = close_step(nodes, children, fs);
        if st.2.len() < fs.len() {
            close_all(st.0, st.1, st.2)
        } else {
            (nodes, children)
        }
    }
}

/// Builds an `Arena` using an open/close node pattern suitable for
/// depth-first tree construction.
pub struct ArenaBuilder {
    arena: Arena,
    /// Stack of `(node_id, children_collected_so_far)`.
    stack: Vec<(u32, Vec<u32>)>,
}

impl ArenaBuilder {
    /// The arena built so far.
    pub closed spec fn arena_view(&self) -> Arena {
        self.arena
    }

    /// The open nodes, bottom first, each with the children closed under it so far.
    pub closed spec fn frames(&self) -> Seq<(u32, Seq<u32>)> {
        self.stack@.map_values(|f: (u32, Vec<u32>)| (f.0, f.1@))
    }

    /// The arena is well formed; open nodes have increasing ids, have no
    /// children yet, and their pending children are nodes allocated after them.
    pub open spec fn wf(&self) -> bool {
        let a = self.arena_view();
        let fs = self.frames();
        &&& a.well_formed()
        &&& forall|k: int|
            #![trigger fs[k]]
            0 <= k < fs.len() ==> {
                &&& a.has_node(fs[k].0 as int)
                &&& a.nodes_view()[fs[k].0 as int].children_count == 0
                &&& forall|j: int|
                    0 <= j < fs[k].1.len() ==> fs[k].0 < #[trigger] fs[k].1[j] < a.nodes_view().len()
                &&& forall|j: int| 0 <= j < k ==> #[trigger] fs[j].0 < fs[k].0
            }
    }

    /// Closing every open node fits the u32 children index.
    pub open spec fn fits(&self) -> bool {
        self.arena_view().children_view().len() + pending_total(self.frames()) <= u32::MAX
    }

    pub fn new(source: String) -> (r: Self)
        ensures
            r.wf(),
            r.fits(),
            r.frames() == Seq::<(u32, Seq<u32>)>::empty(),
            r.arena_view().nodes_view() == Seq::<ArenaNode>::empty(),
            r.arena_view().children_view() == Seq::<u32>::empty(),
            r.arena_view().type_data_view() == Seq::<u8>::empty(),
            r.arena_view().source_view() == source@,
    {
        let r = ArenaBuilder { arena: Arena::new(source), stack: Vec::new() };
        assert(r.frames() =~= Seq::<(u32, Seq<u32>)>::empty());
        r
    }

    /// Push an already allocated fresh node as a new open node.
    fn push_frame(&mut self, node_id: u32)
        requires
            old(self).wf(),
            node_id + 1 == old(self).arena_view().nodes_view().len(),
            old(self).arena_view().nodes_view()[node_id as int].children_count == 0,
            old(self).arena_view().nodes_view()[node_id as int].children_start == 0,
            old(self).arena_view().nodes_view()[node_id as int].data_len == 0,
            old(self).arena_view().nodes_view()[node_id as int].data_offset == 0,
            forall|k: int| 0 <= k < old(self).frames().len() ==> #[trigger] old(self).frames()[k].0 < node_id,
            forall|k: int, m: int|
                0 <= k < old(self).frames().len() && 0 <= m < old(self).frames()[k].1.len()
                    ==> #[trigger] old(self).frames()[k].1[m] < node_id,
        ensures
            final(self).wf(),
            final(self).arena_view() == old(self).arena_view(),
            final(self).frames() == old(self).frames().push((node_id, Seq::<u32>::empty())),
    {
        self.stack.push((node_id, Vec::new()));
        assert(self.frames() =~= old(self).frames().push((node_id, Seq::<u32>::empty())));
    }

    /// Open a new node (push it on the stack) and return its id.
    pub fn open_node(&mut self, node_type: NodeType) -> (id: u32)
        requires
            old(self).wf(),
            old(self).arena_view().nodes_view().len() < u32::MAX,
        ensures
            final(self).wf(),
            id == old(self).arena_view().nodes_view().len(),
            final(self).arena_view().nodes_view() == old(self).arena_view().nodes_view().push(
                ArenaNode::fresh(id, node_type.code()),
            ),
            final(self).arena_view().children_view() == old(self).arena_view().children_view(),
            final(self).arena_view().type_data_view() == old(self).arena_view().type_data_view(),
            final(self).arena_view().source_view() == old(self).arena_view().source_view(),
            final(self).frames() == old(self).frames().push((id, Seq::<u32>::empty())),
            pending_total(final(self).frames()) == pending_total(old(self).frames()) + 1,
    {
        let id = self.arena.alloc_node(node_type);
        proof {
            assert(self.arena.nodes_view().drop_last() =~= old(self).arena.nodes_view());
            self.lemma_alloc_keeps_wf(old(self).arena);
        }
        self.push_frame(id);
        proof {
            assert(self.frames().drop_last() =~= old(self).frames());
        }
        id
    }

    /// Open a new node with a raw type byte.
    pub fn open_node_raw(&mut self, node_type_byte: u8) -> (id: u32)
        requires
            old(self).wf(),
            old(self).arena_view().nodes_view().len() < u32::MAX,
        ensures
            final(self).wf(),
            id == old(self).arena_view().nodes_view().len(),
            final(self).arena_view().nodes_view() == old(self).arena_view().nodes_view().push(
                ArenaNode::fresh(id, node_type_byte),
            ),
            final(self).arena_view().children_view() == old(self).arena_view().children_view(),
            final(self).arena_view().type_data_view() == old(self).arena_view().type_data_view(),
            final(self).arena_view().source_view() == old(self).arena_view().source_view(),
            final(self).frames() == old(self).frames().push((id, Seq::<u32>::empty())),
            pending_total(final(self).frames()) == pending_total(old(self).frames()) + 1,
    {
        let id = self.arena.alloc_node_raw(node_type_byte);
        proof {
            assert(self.arena.nodes_view().drop_last() =~= old(self).arena.nodes_view());
            self.lemma_alloc_keeps_wf(old(self).arena);
        }
        self.push_frame(id);
        proof {
            assert(self.frames().drop_last() =~= old(self).frames());
        }
        id
    }

    /// After a node was appended to the arena, the builder is still well formed.
    proof fn lemma_alloc_keeps_wf(&self, prev: Arena)
        requires
            ({
                let pre = ArenaBuilder { arena: prev, stack: self.stack };
                pre.wf()
            }),
            self.arena.nodes_view().len() == prev.nodes_view().len() + 1,
            self.arena.nodes_view().drop_last() == prev.nodes_view(),
            self.arena.children_view() == prev.children_view(),
            self.arena.type_data_view() == prev.type_data_view(),
            self.arena.nodes_view().last().children_count == 0,
            self.arena.nodes_view().last().children_start == 0,
            self.arena.nodes_view().last().data_len == 0,
            self.arena.nodes_view().last().data_offset == 0,
        ensures
            self.wf(),
            forall|k: int| 0 <= k < self.frames().len() ==> #[trigger] self.frames()[k].0 < self.arena.nodes_view().len() - 1,
            forall|k: int, m: int|
                0 <= k < self.frames().len() && 0 <= m < self.frames()[k].1.len()
                    ==> #[trigger] self.frames()[k].1[m] < self.arena.nodes_view().len() - 1,
    {
        let a = self.arena;
        let n = prev.nodes_view().len();
        let pre = ArenaBuilder { arena: prev, stack: self.stack };
        assert(pre.frames() == self.frames());
        let fs = self.frames();
        assert forall|k: int| 0 <= k < fs.len() implies {
            &&& a.has_node(#[trigger] fs[k].0 as int)
            &&& a.nodes_view()[fs[k].0 as int].children_count == 0
            &&& fs[k].0 < n
            &&& forall|j: int|
                0 <= j < fs[k].1.len() ==> fs[k].0 < #[trigger] fs[k].1[j] < n
        } by {
            assert(pre.frames()[k] == fs[k]);
            assert(a.nodes_view()[fs[k].0 as int] == a.nodes_view().drop_last()[fs[k].0 as int]);
        }
        assert forall|i: int| 0 <= i < a.nodes_view().len() implies {
            &&& a.children_in_bounds(i)
            &&& a.data_in_bounds(i)
            &&& forall|k: int|
                0 <= k < a.children_of(i).len() ==> i < #[trigger] a.children_of(i)[k]
                    < a.nodes_view().len()
        } by {
            if i < n {
                assert(a.nodes_view()[i] == a.nodes_view().drop_last()[i]);
                assert(a.nodes_view()[i] == prev.nodes_view()[i]);
                assert(a.children_of(i) == prev.children_of(i));
            } else {
                assert(a.children_of(i) =~= Seq::<u32>::empty());
            }
        }
    }

    /// Close the current node: give it the children collected under it and
    /// register it as a child of the node below it on the stack. Returns the
    /// closed node's id.
    pub fn close_node(&mut self) -> (id: u32)
        requires
            old(self).wf(),
            old(self).fits(),
            old(self).frames().len() > 0,
        ensures
            final(self).wf(),
            final(self).fits(),
            ({
                let fs = old(self).frames();
                let top = fs.last();
                let a = old(self).arena_view();
                let start = a.children_view().len() as u32;
                &&& id == top.0
                &&& final(self).arena_view().children_view() == a.children_view() + top.1
                &&& final(self).arena_view().nodes_view().len() == a.nodes_view().len()
                &&& forall|i: int|
                    0 <= i < a.nodes_view().len() ==> #[trigger] final(self).arena_view().nodes_view()[i]
                        == ({
                        let n = after_set_children(a.nodes_view()[i], i, id, start, top.1);
                        if fs.len() > 1 && i == id {
                            with_parent(n, fs[fs.len() - 2].0)
                        } else {
                            n
                        }
                    })
                &&& final(self).frames() == if fs.len() > 1 {
                    fs.subrange(0, fs.len() - 2).push(
                        (fs[fs.len() - 2].0, fs[fs.len() - 2].1.push(id)),
                    )
                } else {
                    Seq::<(u32, Seq<u32>)>::empty()
                }
            }),
            ({
                let st = close_step(
                    old(self).arena_view().nodes_view(),
                    old(self).arena_view().children_view(),
                    old(self).frames(),
                );
                &&& final(self).arena_view().nodes_view() == st.0
                &&& final(self).arena_view().children_view() == st.1
                &&& final(self).frames() == st.2
            }),
            final(self).arena_view().type_data_view() == old(self).arena_view().type_data_view(),
            final(self).arena_view().source_view() == old(self).arena_view().source_view(),
            final(self).arena_view().children_view().len() + pending_total(final(self).frames())
                <= old(self).arena_view().children_view().len() + pending_total(old(self).frames()),
    {
        let ghost fs = self.frames();
        let ghost a0 = self.arena;
        proof {
            assert forall|k: int| 0 <= k < fs.len() - 1 implies #[trigger] fs[k].0 < fs.last().0 by {
                assert(fs[k].0 < fs[fs.len() - 1].0);
            }
        }
        let popped = self.stack.pop();
        let (node_id, children) = match popped {
            Some(f) => f,
            None => { proof { assert(false); } (0, Vec::new()) },
        };
        proof {
            assert(self.frames() =~= fs.drop_last());
            assert(fs.last() == (node_id, children@));
            assert(pending_total(fs) == pending_total(fs.drop_last()) + children@.len() + 1);
            assert(pending_total(fs.drop_last()) >= 0) by { lemma_pending_total_nonneg(fs.drop_last()); }
        }
        self.arena.set_children(node_id, children.as_slice());
        proof {
            self.lemma_set_children_keeps_tree(a0, node_id, children@);
            let fsd = fs.drop_last();
            assert forall|k: int| 0 <= k < fsd.len() implies self.arena.nodes_view()[#[trigger] fsd[k].0 as int].children_count == 0 by {
                assert(fsd[k] == fs[k]);
                assert(fs[k].0 < node_id);
            }
        }
        let depth = self.stack.len();
        if depth > 0 {
            let ghost fs1 = self.frames();
            let parent = self.stack.pop();
            let (parent_id, mut parent_children) = match parent {
                Some(f) => f,
                None => { proof { assert(false); } (0, Vec::new()) },
            };
            parent_children.push(node_id);
            self.stack.push((parent_id, parent_children));
            let ghost a1 = self.arena;
            self.arena.set_parent(node_id, parent_id);
            proof {
                assert(self.frames() =~= fs.subrange(0, fs.len() - 2).push(
                    (fs[fs.len() - 2].0, fs[fs.len() - 2].1.push(node_id)),
                ));
                assert(fs.subrange(0, fs.len() - 2) =~= fs1.drop_last());
                assert(self.frames().drop_last() =~= fs1.drop_last());
                assert(pending_total(fs1) == pending_total(fs1.drop_last()) + fs1.last().1.len() + 1);
                assert(fs1 == fs.drop_last());
                assert(self.frames().last().1 =~= fs1.last().1.push(node_id));
                assert(pending_total(self.frames()) == pending_total(self.frames().drop_last()) + self.frames().last().1.len() + 1);
                assert(pending_total(self.frames()) == pending_total(fs1.drop_last()) + fs1.last().1.len() + 2);
                assert forall|i: int| 0 <= i < a1.nodes_view().len() implies same_ranges(#[trigger] a1.nodes_view()[i], self.arena.nodes_view()[i]) by {}
                lemma_same_shape(a1, self.arena);
                let a = self.arena;
                let f2 = self.frames();
                assert forall|k: int| 0 <= k < f2.len() implies {
                    &&& a.has_node(#[trigger] f2[k].0 as int)
                    &&& a.nodes_view()[f2[k].0 as int].children_count == 0
                    &&& forall|j: int|
                        0 <= j < f2[k].1.len() ==> f2[k].0 < #[trigger] f2[k].1[j] < a.nodes_view().len()
                    &&& forall|j: int| 0 <= j < k ==> #[trigger] f2[j].0 < f2[k].0
                } by {
                    assert(f2[k].0 == fs[k].0);
                    assert(fs1[k] == fs[k]);
                    if k < f2.len() - 1 {
                        assert(f2[k] == fs[k]);
                    } else {
                        assert(f2[k].1 =~= fs[k].1.push(node_id));
                    }
                }
            }
        } else {
            proof {
                assert(self.frames() =~= Seq::<(u32, Seq<u32>)>::empty());
                assert(fs.drop_last().len() == 0);
                assert(pending_total(fs.drop_last()) == 0);
                assert(pending_total(self.frames()) == 0);
            }
        }
        proof {
            let st = close_step(a0.nodes_view(), a0.children_view(), fs);
            assert(self.arena.nodes_view() =~= st.0);
        }
        node_id
    }

    /// Set the position of the open node on top of the stack.
    pub fn set_position_current(
        &mut self,
        start_offset: u32,
        end_offset: u32,
        start_line: u32,
        start_column: u32,
        end_line: u32,
        end_column: u32,
    )
        requires
            old(self).wf(),
            old(self).frames().len() > 0,
        ensures
            final(self).wf(),
            final(self).frames() == old(self).frames(),
            ({
                let a = old(self).arena_view();
                let id = old(self).frames().last().0 as int;
                final(self).arena_view().nodes_view() == a.nodes_view().update(
                    id,
                    with_position(
                        a.nodes_view()[id],
                        start_offset,
                        end_offset,
                        start_line,
                        start_column,
                        end_line,
                        end_column,
                    ),
                )
            }),
            final(self).arena_view().children_view() == old(self).arena_view().children_view(),
            final(self).arena_view().type_data_view() == old(self).arena_view().type_data_view(),
            final(self).arena_view().source_view() == old(self).arena_view().source_view(),
    {
        let k = self.stack.len() - 1;
        let node_id = self.stack[k].0;
        assert(node_id == self.frames()[k as int].0);
        let ghost a0 = self.arena;
        self.arena.set_position(
            node_id,
            start_offset,
            end_offset,
            start_line,
            start_column,
            end_line,
            end_column,
        );
        proof {
            assert forall|i: int| 0 <= i < a0.nodes_view().len() implies same_ranges(#[trigger] a0.nodes_view()[i], self.arena.nodes_view()[i]) by {}
            lemma_same_shape(a0, self.arena);
        }
    }

    /// Set the type-specific data of the open node on top of the stack.
    pub fn set_data_current(&mut self, data: &[u8])
        requires
            old(self).wf(),
            old(self).frames().len() > 0,
            old(self).arena_view().type_data_view().len() + data@.len() <= u32::MAX,
        ensures
            final(self).wf(),
            final(self).frames() == old(self).frames(),
            ({
                let a = old(self).arena_view();
                let id = old(self).frames().last().0 as int;
                final(self).arena_view().nodes_view() == a.nodes_view().update(
                    id,
                    with_data(a.nodes_view()[id], a.type_data_view().len() as u32, data@.len() as u32),
                )
            }),
            final(self).arena_view().type_data_view() == old(self).arena_view().type_data_view() + data@,
            final(self).arena_view().children_view() == old(self).arena_view().children_view(),
            final(self).arena_view().source_view() == old(self).arena_view().source_view(),
    {
        let k = self.stack.len() - 1;
        let node_id = self.stack[k].0;
        assert(node_id == self.frames()[k as int].0);
        let ghost a0 = self.arena;
        self.arena.set_type_data(node_id, data);
        proof {
            let a = self.arena;
            assert forall|i: int| 0 <= i < a.nodes_view().len() implies {
                &&& a.children_in_bounds(i)
                &&& a.data_in_bounds(i)
                &&& forall|k: int|
                    0 <= k < a.children_of(i).len() ==> i < #[trigger] a.children_of(i)[k]
                        < a.nodes_view().len()
            } by {
                assert(a0.nodes_view()[i] == a0.nodes_view()[i]);
                assert(a.children_of(i) == a0.children_of(i));
            }
        }
    }

    /// Append a computed string to the arena's source and return a reference to it.
    pub fn alloc_string(&mut self, s: &str) -> (r: StringRef)
        requires
            old(self).wf(),
            old(self).arena_view().source_bytes().len() + s.spec_bytes().len() <= u32::MAX,
        ensures
            final(self).wf(),
            final(self).frames() == old(self).frames(),
            final(self).arena_view().source_view() == old(self).arena_view().source_view() + s@,
            r.offset == old(self).arena_view().source_bytes().len(),
            r.len == s.spec_bytes().len(),
            final(self).arena_view().str_ok(r),
            final(self).arena_view().str_of(r) == s@,
            final(self).arena_view().nodes_view() == old(self).arena_view().nodes_view(),
            final(self).arena_view().children_view() == old(self).arena_view().children_view(),
            final(self).arena_view().type_data_view() == old(self).arena_view().type_data_view(),
    {
        let r = self.arena.alloc_string(s);
        proof {
            let a = self.arena;
            let a0 = old(self).arena;
            assert forall|i: int| 0 <= i < a.nodes_view().len() implies {
                &&& a.children_in_bounds(i)
                &&& a.data_in_bounds(i)
                &&& forall|k: int|
                    0 <= k < a.children_of(i).len() ==> i < #[trigger] a.children_of(i)[k]
                        < a.nodes_view().len()
            } by {
                assert(a0.nodes_view()[i] == a0.nodes_view()[i]);
                assert(a.children_of(i) == a0.children_of(i));
            }
            self.lemma_wf_transfer(*old(self));
        }
        r
    }

    /// Change the kind of an already allocated node.
    pub fn change_node_type(&mut self, node_id: u32, new_type: NodeType)
        requires
            old(self).wf(),
            old(self).arena_view().has_node(node_id as int),
        ensures
            final(self).wf(),
            final(self).frames() == old(self).frames(),
            final(self).arena_view().nodes_view() == old(self).arena_view().nodes_view().update(
                node_id as int,
                ArenaNode {
                    node_type: new_type.code(),
                    ..old(self).arena_view().nodes_view()[node_id as int]
                },
            ),
            final(self).arena_view().children_view() == old(self).arena_view().children_view(),
            final(self).arena_view().type_data_view() == old(self).arena_view().type_data_view(),
            final(self).arena_view().source_view() == old(self).arena_view().source_view(),
    {
        let ghost a0 = self.arena;
        self.arena.change_node_type(node_id, new_type);
        proof {
            assert forall|i: int| 0 <= i < a0.nodes_view().len() implies same_ranges(#[trigger] a0.nodes_view()[i], self.arena.nodes_view()[i]) by {}
            lemma_same_shape(a0, self.arena);
            self.lemma_wf_transfer(*old(self));
        }
    }

    /// The id of the open node on top of the stack.
    pub fn current_node_id(&self) -> (r: u32)
        requires
            self.frames().len() > 0,
        ensures
            r == self.frames().last().0,
    {
        let k = self.stack.len() - 1;
        self.stack[k].0
    }

    /// The number of open nodes.
    pub fn stack_depth(&self) -> (r: usize)
        ensures
            r == self.frames().len(),
    {
        self.stack.len()
    }

    /// The id of the open node at a stack position (0 = bottom), if any.
    pub fn stack_node_id(&self, depth: usize) -> (r: Option<u32>)
        ensures
            depth < self.frames().len() ==> r == Some(self.frames()[depth as int].0),
            depth >= self.frames().len() ==> r is None,
    {
        if depth < self.stack.len() {
            Some(self.stack[depth].0)
        } else {
            None
        }
    }

    /// Read-only access to the arena built so far.
    pub fn arena_ref(&self) -> (r: &Arena)
        ensures
            *r == self.arena_view(),
    {
        &self.arena
    }

    /// Mutable access to the pending children of the open node on top of the stack.
    pub fn current_children_mut(&mut self) -> (r: &mut Vec<u32>)
        requires
            old(self).frames().len() > 0,
        ensures
            r@ == old(self).frames().last().1,
            final(self).frames() == old(self).frames().update(
                old(self).frames().len() - 1,
                (old(self).frames().last().0, final(r)@),
            ),
            final(self).arena_view() == old(self).arena_view(),
    {
        let k = self.stack.len() - 1;
        let frame = &mut self.stack[k];
        &mut frame.1
    }

    /// Mutable access to the arena built so far.
    pub fn arena_mut(&mut self) -> (r: &mut Arena)
        ensures
            *r == old(self).arena_view(),
            final(self).arena_view() == *final(r),
            final(self).frames() == old(self).frames(),
    {
        &mut self.arena
    }

    /// Finish building: close every node still open (top first) and return
    /// the arena.
    pub fn finish(self) -> (r: Arena)
        requires
            self.wf(),
            self.fits(),
        ensures
            r.well_formed(),
            ({
                let st = close_all(
                    self.arena_view().nodes_view(),
                    self.arena_view().children_view(),
                    self.frames(),
                );
                &&& r.nodes_view() == st.0
                &&& r.children_view() == st.1
            }),
            r.type_data_view() == self.arena_view().type_data_view(),
            r.source_view() == self.arena_view().source_view(),
    {
        let mut b = self;
        while b.stack.len() > 0
            invariant
                b.wf(),
                b.fits(),
                close_all(b.arena_view().nodes_view(), b.arena_view().children_view(), b.frames())
                    == close_all(
                    self.arena_view().nodes_view(),
                    self.arena_view().children_view(),
                    self.frames(),
                ),
                b.arena_view().type_data_view() == self.arena_view().type_data_view(),
                b.arena_view().source_view() == self.arena_view().source_view(),
            decreases b.stack.len(),
        {
            let ghost pre = b;
            assert(pre.frames().len() > 0);
            b.close_node();
            proof {
                let st = close_step(pre.arena_view().nodes_view(), pre.arena_view().children_view(), pre.frames());
                assert(st.2.len() < pre.frames().len());
            }
        }
        assert(b.frames().len() == 0);
        b.arena
    }

    /// The stack part of `wf` carries over when only node fields other than
    /// the children count changed.
    proof fn lemma_wf_transfer(&self, prev: ArenaBuilder)
        requires
            prev.wf(),
            self.frames() == prev.frames(),
            self.arena_view().well_formed(),
            self.arena_view().nodes_view().len() == prev.arena_view().nodes_view().len(),
            forall|i: int|
                0 <= i < self.arena_view().nodes_view().len() ==> (#[trigger] self.arena_view().nodes_view()[i]).children_count
                    == prev.arena_view().nodes_view()[i].children_count,
        ensures
            self.wf(),
    {
        let fs = self.frames();
        let a = self.arena_view();
        assert forall|k: int| 0 <= k < fs.len() implies {
            &&& a.has_node(#[trigger] fs[k].0 as int)
            &&& a.nodes_view()[fs[k].0 as int].children_count == 0
        } by {
            assert(prev.frames()[k] == fs[k]);
        }
    }

    /// Setting children of the top node on the stack keeps the arena well formed.
    proof fn lemma_set_children_keeps_tree(&self, prev: Arena, id: u32, kids: Seq<u32>)
        requires
            prev.well_formed(),
            prev.has_node(id as int),
            prev.nodes_view()[id as int].children_count == 0,
            forall|j: int| 0 <= j < kids.len() ==> id < #[trigger] kids[j] < prev.nodes_view().len(),
            self.arena.children_view() == prev.children_view() + kids,
            self.arena.nodes_view().len() == prev.nodes_view().len(),
            self.arena.type_data_view() == prev.type_data_view(),
            forall|i: int|
                0 <= i < prev.nodes_view().len() ==> #[trigger] self.arena.nodes_view()[i]
                    == after_set_children(
                    prev.nodes_view()[i],
                    i,
                    id,
                    prev.children_view().len() as u32,
                    kids,
                ),
            prev.children_view().len() + kids.len() <= u32::MAX,
        ensures
            self.arena.well_formed(),
            self.arena.children_of(id as int) == kids,
            forall|i: int| 0 <= i < prev.nodes_view().len() && i != id ==>
                #[trigger] self.arena.children_of(i) == prev.children_of(i),
            forall|i: int| 0 <= i < prev.nodes_view().len() && i != id ==>
                (#[trigger] self.arena.nodes_view()[i]).children_count == prev.nodes_view()[i].children_count,
    {
        let a = self.arena;
        assert forall|i: int| 0 <= i < a.nodes_view().len() implies {
            &&& a.children_in_bounds(i)
            &&& a.data_in_bounds(i)
            &&& forall|k: int|
                0 <= k < a.children_of(i).len() ==> i < #[trigger] a.children_of(i)[k]
                    < a.nodes_view().len()
        } && (i != id ==> a.children_of(i) == prev.children_of(i)) && (i == id ==> a.children_of(i) == kids) by {
            assert(prev.nodes_view()[i] == prev.nodes_view()[i]);
            if i == id {
                assert(a.children_of(i) =~= kids);
            } else {
                assert(a.children_of(i) =~= prev.children_of(i));
            }
        }
    }

    /// Add a leaf node (opens and immediately closes it). Returns its id.
    pub fn add_leaf(&mut self, node_type: NodeType) -> (id: u32)
        requires
            old(self).wf(),
            old(self).fits(),
            old(self).arena_view().children_view().len() + pending_total(old(self).frames()) + 1 <= u32::MAX,
            old(self).arena_view().nodes_view().len() < u32::MAX,
        ensures
            final(self).wf(),
            final(self).fits(),
            id == old(self).arena_view().nodes_view().len(),
            ({
                let fs = old(self).frames();
                let a = old(self).arena_view();
                let fresh = ArenaNode::fresh(id, node_type.code());
                let leaf = if fs.len() > 0 {
                    with_parent(with_children(fresh, a.children_view().len() as u32, 0), fs.last().0)
                } else {
                    with_children(fresh, a.children_view().len() as u32, 0)
                };
                &&& final(self).arena_view().nodes_view() == a.nodes_view().push(leaf)
                &&& final(self).arena_view().children_view() == a.children_view()
                &&& final(self).frames() == if fs.len() > 0 {
                    fs.drop_last().push((fs.last().0, fs.last().1.push(id)))
                } else {
                    fs
                }
            }),
            final(self).arena_view().type_data_view() == old(self).arena_view().type_data_view(),
            final(self).arena_view().source_view() == old(self).arena_view().source_view(),
    {
        let id = self.open_node(node_type);
        let r = self.close_node();
        proof {
            let a = old(self).arena_view();
            let fs = old(self).frames();
            let nv = self.arena_view().nodes_view();
            let fresh = nv[id as int];
            assert forall|i: int| 0 <= i < a.nodes_view().len() implies nv[i] == a.nodes_view()[i] by {
                assert(!lists_id(Seq::<u32>::empty(), i));
            }
            assert(!lists_id(Seq::<u32>::empty(), id as int));
            assert(nv =~= a.nodes_view().push(nv[id as int]));
            assert(self.frames() =~= (if old(self).frames().len() > 0 {
                old(self).frames().drop_last().push((old(self).frames().last().0, old(self).frames().last().1.push(id)))
            } else {
                old(self).frames()
            }));
        }
        r
    }

    /// Add a leaf node with a raw type byte.
    pub fn add_leaf_raw(&mut self, node_type_byte: u8) -> (id: u32)
        requires
            old(self).wf(),
            old(self).fits(),
            old(self).arena_view().children_view().len() + pending_total(old(self).frames()) + 1 <= u32::MAX,
            old(self).arena_view().nodes_view().len() < u32::MAX,
        ensures
            final(self).wf(),
            final(self).fits(),
            id == old(self).arena_view().nodes_view().len(),
            ({
                let fs = old(self).frames();
                let a = old(self).arena_view();
                let fresh = ArenaNode::fresh(id, node_type_byte);
                let leaf = if fs.len() > 0 {
                    with_parent(with_children(fresh, a.children_view().len() as u32, 0), fs.last().0)
                } else {
                    with_children(fresh, a.children_view().len() as u32, 0)
                };
                &&& final(self).arena_view().nodes_view() == a.nodes_view().push(leaf)
                &&& final(self).arena_view().children_view() == a.children_view()
                &&& final(self).frames() == if fs.len() > 0 {
                    fs.drop_last().push((fs.last().0, fs.last().1.push(id)))
                } else {
                    fs
                }
            }),
            final(self).arena_view().type_data_view() == old(self).arena_view().type_data_view(),
            final(self).arena_view().source_view() == old(self).arena_view().source_view(),
    {
        let id = self.open_node_raw(node_type_byte);
        let r = self.close_node();
        proof {
            let a = old(self).arena_view();
            let fs = old(self).frames();
            let nv = self.arena_view().nodes_view();
            let fresh = nv[id as int];
            assert forall|i: int| 0 <= i < a.nodes_view().len() implies nv[i] == a.nodes_view()[i] by {
                assert(!lists_id(Seq::<u32>::empty(), i));
            }
            assert(!lists_id(Seq::<u32>::empty(), id as int));
            assert(nv =~= a.nodes_view().push(nv[id as int]));
            assert(self.frames() =~= (if old(self).frames().len() > 0 {
                old(self).frames().drop_last().push((old(self).frames().last().0, old(self).frames().last().1.push(id)))
            } else {
                old(self).frames()
            }));
        }
        r
    }

}

pub proof fn lemma_pending_total_nonneg(fs: Seq<(u32, Seq<u32>)>)
    ensures
        pending_total(fs) >= 0,
    decreases fs.len(),
{
    if fs.len() > 0 {
        lemma_pending_total_nonneg(fs.drop_last());
    }
}

} // verus!
