//! Arena rebuild: apply a list of structural patches to an arena, producing
//! a new one whose nodes are numbered afresh in the order they are emitted.
//!
//! The rebuild walks the original tree from the root, depth first, and emits
//! every node it keeps (with its kind, position and data bytes) into an
//! `ArenaBuilder`, emitting the patch sub-trees where the patches say. Its
//! effect is stated as the list of builder steps it performs.
use vstd::prelude::*;
use vstd::std_specs::hash::*;
use std::collections::{HashMap, HashSet};
use crate::arena::{Arena, after_set_children, lists_id, with_data, with_parent, with_position};
use crate::builder::{ArenaBuilder, close_step, lemma_pending_total_nonneg, pending_total};
use crate::node::{ArenaNode, NodeType, NO_PARENT};

verus! {

broadcast use vstd::std_specs::hash::group_hash_axioms;

/// A patch to apply during arena rebuild.
#[derive(Debug, Clone)]
pub enum Patch {
    /// Replace a node with a new subtree (built externally).
    Replace { node_id: u32, new_tree: Arena },
    /// Remove a node (and its entire subtree).
    Remove { node_id: u32 },
    /// Insert a new subtree before the target node (as a sibling).
    InsertBefore { node_id: u32, new_tree: Arena },
    /// Insert a new subtree after the target node (as a sibling).
    InsertAfter { node_id: u32, new_tree: Arena },
    /// Wrap a node in a new parent (the root of `parent_tree`).
    Wrap { node_id: u32, parent_tree: Arena },
    /// Prepend a new subtree as the first child of the target node.
    PrependChild { node_id: u32, child_tree: Arena },
    /// Append a new subtree as the last child of the target node.
    AppendChild { node_id: u32, child_tree: Arena },
}

impl Patch {
    /// The node the patch applies to.
    pub open spec fn target(self) -> u32 {
        match self {
            Patch::Replace { node_id, .. } => node_id,
            Patch::Remove { node_id } => node_id,
            Patch::InsertBefore { node_id, .. } => node_id,
            Patch::InsertAfter { node_id, .. } => node_id,
            Patch::Wrap { node_id, .. } => node_id,
            Patch::PrependChild { node_id, .. } => node_id,
            Patch::AppendChild { node_id, .. } => node_id,
        }
    }

    /// The patch takes its node out of the normal walk (removed or replaced).
    pub open spec fn deletes(self) -> bool {
        self is Remove || self is Replace
    }
}

/// For each target, the index of the last patch that names it.
pub open spec fn index_map(ps: Seq<Patch>) -> Map<u32, usize>
    decreases ps.len(),
{
    if ps.len() == 0 {
        Map::empty()
    } else {
        index_map(ps.drop_last()).insert(ps.last().target(), (ps.len() - 1) as usize)
    }
}

/// Each stored index is in range and names a patch on its key.
pub proof fn lemma_index_map(ps: Seq<Patch>)
    requires
        ps.len() <= usize::MAX,
    ensures
        forall|id: u32|
            #[trigger] index_map(ps).contains_key(id) ==> index_map(ps)[id] < ps.len() && ps[index_map(
                ps,
            )[id] as int].target() == id,
    decreases ps.len(),
{
    if ps.len() > 0 {
        let d = ps.drop_last();
        lemma_index_map(d);
        assert forall|id: u32| #[trigger] index_map(ps).contains_key(id) implies (index_map(ps)[id] < ps.len()
            && ps[index_map(ps)[id] as int].target() == id) by {
            if id != ps.last().target() {
                assert(index_map(d).contains_key(id));
                assert(ps[index_map(d)[id] as int] == d[index_map(d)[id] as int]);
            }
        }
    }
}

/// The targets of all remove and replace patches.
pub open spec fn deleted_set(ps: Seq<Patch>) -> Set<u32>
    decreases ps.len(),
{
    if ps.len() == 0 {
        Set::empty()
    } else if ps.last().deletes() {
        deleted_set(ps.drop_last()).insert(ps.last().target())
    } else {
        deleted_set(ps.drop_last())
    }
}

/// The patch that applies to node `id`: the last one naming it.
pub open spec fn patch_for(ps: Seq<Patch>, id: u32) -> Option<Patch> {
    if index_map(ps).contains_key(id) {
        Some(ps[index_map(ps)[id] as int])
    } else {
        None
    }
}

/// One step of building: open a node with the kind and position of a node
/// record and the given data bytes, or close the open node on top.
pub enum Step {
    Open(ArenaNode, Seq<u8>),
    Close,
}

/// The steps that emit the subtree of `sub` rooted at `id`, depth first;
/// `None` when a node on the way is missing, has an unknown kind or has its
/// children or data out of bounds, or when `fuel` levels do not suffice.
pub open spec fn emit_steps(sub: Arena, id: int, fuel: nat) -> Option<Seq<Step>>
    decreases fuel, 0nat,
{
    if fuel == 0 || !sub.has_node(id) {
        None
    } else {
        let n = sub.nodes_view()[id];
        if !NodeType::is_known_code(n.node_type) || !sub.children_in_bounds(id) || !sub.data_in_bounds(id) {
            None
        } else {
            match emit_kids(sub, sub.children_of(id), (fuel - 1) as nat) {
                Some(ks) => Some(seq![Step::Open(n, sub.data_of(id))] + ks + seq![Step::Close]),
                None => None,
            }
        }
    }
}

/// The steps that emit each subtree of a list, one after the other.
pub open spec fn emit_kids(sub: Arena, kids: Seq<u32>, fuel: nat) -> Option<Seq<Step>>
    decreases fuel, kids.len() + 1,
{
    if kids.len() == 0 {
        Some(Seq::empty())
    } else {
        match (emit_kids(sub, kids.drop_last(), fuel), emit_steps(sub, kids.last() as int, fuel)) {
            (Some(a), Some(b)) => Some(a + b),
            _ => None,
        }
    }
}

/// The steps that emit a whole patch tree: nothing for an empty arena,
/// else the subtree of its root.
pub open spec fn tree_steps(sub: Arena, fuel: nat) -> Option<Seq<Step>> {
    if sub.nodes_view().len() == 0 {
        Some(Seq::empty())
    } else {
        emit_steps(sub, 0, fuel)
    }
}

/// The steps for a removed or replaced node: its replacement tree, if any.
pub open spec fn deleted_steps(ps: Seq<Patch>, id: u32, fuel: nat) -> Option<Seq<Step>> {
    match patch_for(ps, id) {
        Some(Patch::Replace { new_tree, .. }) => tree_steps(new_tree, fuel),
        _ => Some(Seq::empty()),
    }
}

/// Two optional step lists, one after the other.
pub open spec fn then(a: Option<Seq<Step>>, b: Option<Seq<Step>>) -> Option<Seq<Step>> {
    match (a, b) {
        (Some(x), Some(y)) => Some(x + y),
        _ => None,
    }
}

/// The subtree a patch on `id` inserts before it, if it is an insert-before.
pub open spec fn before_steps(ps: Seq<Patch>, id: u32, fuel: nat) -> Option<Seq<Step>> {
    match patch_for(ps, id) {
        Some(Patch::InsertBefore { new_tree, .. }) => tree_steps(new_tree, fuel),
        _ => Some(Seq::empty()),
    }
}

/// The subtree a patch on `id` prepends to its children, if it is a prepend.
pub open spec fn prepend_steps(ps: Seq<Patch>, id: u32, fuel: nat) -> Option<Seq<Step>> {
    match patch_for(ps, id) {
        Some(Patch::PrependChild { child_tree, .. }) => tree_steps(child_tree, fuel),
        _ => Some(Seq::empty()),
    }
}

/// The subtree a patch on `id` appends to its children, if it is an append.
pub open spec fn append_steps(ps: Seq<Patch>, id: u32, fuel: nat) -> Option<Seq<Step>> {
    match patch_for(ps, id) {
        Some(Patch::AppendChild { child_tree, .. }) => tree_steps(child_tree, fuel),
        _ => Some(Seq::empty()),
    }
}

/// The subtree a patch on `id` inserts after it, if it is an insert-after.
pub open spec fn after_steps(ps: Seq<Patch>, id: u32, fuel: nat) -> Option<Seq<Step>> {
    match patch_for(ps, id) {
        Some(Patch::InsertAfter { new_tree, .. }) => tree_steps(new_tree, fuel),
        _ => Some(Seq::empty()),
    }
}

/// The steps that copying node `id` of `a` under the patches `ps` performs:
/// the replacement (or nothing) for a deleted node; the wrapper around the
/// node's copy for a wrapped node; otherwise the copy of the node itself.
/// `None` when copying does not finish normally: a missing node, an
/// unknown kind, a range out of bounds, or too little `fuel`.
pub open spec fn copy_steps(a: Arena, ps: Seq<Patch>, id: u32, fuel: nat) -> Option<Seq<Step>>
    decreases fuel, 2nat,
{
    if fuel == 0 {
        None
    } else if deleted_set(ps).contains(id) {
        deleted_steps(ps, id, (fuel - 1) as nat)
    } else {
        match patch_for(ps, id) {
            Some(Patch::Wrap { parent_tree, .. }) => wrap_steps(parent_tree, a, ps, id, fuel),
            _ => body_steps(a, ps, id, fuel),
        }
    }
}

/// The steps of copying node `id` itself: the subtree inserted before it,
/// the node, the prepended subtree, its copied children, the appended
/// subtree, the close of the node, then the subtree inserted after it.
pub open spec fn body_steps(a: Arena, ps: Seq<Patch>, id: u32, fuel: nat) -> Option<Seq<Step>>
    decreases fuel, 0nat,
{
    if fuel == 0 || !a.has_node(id as int) {
        None
    } else {
        let f = (fuel - 1) as nat;
        let n = a.nodes_view()[id as int];
        if !NodeType::is_known_code(n.node_type) || !a.children_in_bounds(id as int)
            || !a.data_in_bounds(id as int) {
            None
        } else {
            let open = Some(seq![Step::Open(n, a.data_of(id as int))]);
            let kids = copy_kids(a, ps, a.children_of(id as int), f);
            then(
                then(
                    then(
                        then(then(then(before_steps(ps, id, f), open), prepend_steps(ps, id, f)), kids),
                        append_steps(ps, id, f),
                    ),
                    Some(seq![Step::Close]),
                ),
                after_steps(ps, id, f),
            )
        }
    }
}

/// The steps of a wrap: the wrapper (the root of `parent_tree`) opened,
/// the copy of node `id` itself inside it, the wrapper closed; just the
/// copy when `parent_tree` is empty.
pub open spec fn wrap_steps(parent_tree: Arena, a: Arena, ps: Seq<Patch>, id: u32, fuel: nat) -> Option<Seq<Step>>
    decreases fuel, 1nat,
{
    if parent_tree.nodes_view().len() == 0 {
        body_steps(a, ps, id, fuel)
    } else {
        let w = parent_tree.nodes_view()[0];
        if !NodeType::is_known_code(w.node_type) || !parent_tree.data_in_bounds(0) {
            None
        } else {
            then(
                then(Some(seq![Step::Open(w, parent_tree.data_of(0))]), body_steps(a, ps, id, fuel)),
                Some(seq![Step::Close]),
            )
        }
    }
}

/// The steps for the children of a copied node: a deleted child gives its
/// replacement (or nothing), any other child is copied.
pub open spec fn copy_kids(a: Arena, ps: Seq<Patch>, kids: Seq<u32>, fuel: nat) -> Option<Seq<Step>>
    decreases fuel, kids.len() + 3,
{
    if kids.len() == 0 {
        Some(Seq::empty())
    } else {
        let c = kids.last();
        let last = if deleted_set(ps).contains(c) {
            deleted_steps(ps, c, fuel)
        } else {
            copy_steps(a, ps, c, fuel)
        };
        then(copy_kids(a, ps, kids.drop_last(), fuel), last)
    }
}

/// Rebuilding finishes normally with `fuel` levels: the copy of the root.
pub open spec fn rebuild_steps(a: Arena, ps: Seq<Patch>, fuel: nat) -> Option<Seq<Step>> {
    copy_steps(a, ps, 0, fuel)
}

/// Rebuilding `a` under `ps` finishes normally (some depth suffices).
pub open spec fn rebuild_ok(a: Arena, ps: Seq<Patch>) -> bool {
    exists|fuel: nat| #[trigger] rebuild_steps(a, ps, fuel) is Some
}

/// The steps rebuilding performs, when it finishes normally.
pub open spec fn rebuild_plan(a: Arena, ps: Seq<Patch>) -> Seq<Step> {
    rebuild_steps(a, ps, choose|fuel: nat| #[trigger] rebuild_steps(a, ps, fuel) is Some)->0
}

// ---------------------------------------------------------------------------
// What the steps do to a builder
// ---------------------------------------------------------------------------

/// A builder's state: nodes, children array, type data and open frames.
pub type BuildState = (Seq<ArenaNode>, Seq<u32>, Seq<u8>, Seq<(u32, Seq<u32>)>);

/// The state of a builder.
pub open spec fn state_of(b: ArenaBuilder) -> BuildState {
    (b.arena_view().nodes_view(), b.arena_view().children_view(), b.arena_view().type_data_view(), b.frames())
}

/// The record of node `id` opened for a copy of record `n` with data `data`
/// appended at `data_at`.
pub open spec fn opened_record(n: ArenaNode, id: u32, data: Seq<u8>, data_at: nat) -> ArenaNode {
    let m = with_position(
        ArenaNode::fresh(id, n.node_type),
        n.start_offset,
        n.end_offset,
        n.start_line,
        n.start_column,
        n.end_line,
        n.end_column,
    );
    if data.len() > 0 {
        with_data(m, data_at as u32, data.len() as u32)
    } else {
        m
    }
}

/// What one step does to a builder's state.
pub open spec fn apply_step(st: BuildState, s: Step) -> BuildState {
    match s {
        Step::Open(n, data) => {
            let id = st.0.len() as u32;
            (st.0.push(opened_record(n, id, data, st.2.len())), st.1, st.2 + data, st.3.push((id, Seq::empty())))
        },
        Step::Close => {
            let c = close_step(st.0, st.1, st.3);
            (c.0, c.1, st.2, c.2)
        },
    }
}

/// What a list of steps does to a builder's state, first step first.
pub open spec fn apply_steps(st: BuildState, ss: Seq<Step>) -> BuildState
    decreases ss.len(),
{
    if ss.len() == 0 {
        st
    } else {
        apply_step(apply_steps(st, ss.drop_last()), ss.last())
    }
}

/// The number of nodes the steps open.
pub open spec fn opens(ss: Seq<Step>) -> nat
    decreases ss.len(),
{
    if ss.len() == 0 {
        0
    } else {
        opens(ss.drop_last()) + if ss.last() is Open { 1nat } else { 0nat }
    }
}

/// The number of data bytes the steps append.
pub open spec fn data_total(ss: Seq<Step>) -> nat
    decreases ss.len(),
{
    if ss.len() == 0 {
        0
    } else {
        data_total(ss.drop_last()) + match ss.last() {
            Step::Open(_, d) => d.len(),
            Step::Close => 0nat,
        }
    }
}

/// Steps applied one list after the other.
pub proof fn lemma_apply_concat(st: BuildState, a: Seq<Step>, b: Seq<Step>)
    ensures
        apply_steps(st, a + b) == apply_steps(apply_steps(st, a), b),
        opens(a + b) == opens(a) + opens(b),
        data_total(a + b) == data_total(a) + data_total(b),
    decreases b.len(),
{
    if b.len() == 0 {
        assert(a + b =~= a);
    } else {
        lemma_apply_concat(st, a, b.drop_last());
        assert((a + b).drop_last() =~= a + b.drop_last());
        assert((a + b).last() == b.last());
    }
}

/// Applying steps adds one node per open and appends each opened node's data.
pub proof fn lemma_apply_counts(st: BuildState, ss: Seq<Step>)
    ensures
        apply_steps(st, ss).0.len() == st.0.len() + opens(ss),
        apply_steps(st, ss).2.len() == st.2.len() + data_total(ss),
    decreases ss.len(),
{
    if ss.len() > 0 {
        lemma_apply_counts(st, ss.drop_last());
        let prev = apply_steps(st, ss.drop_last());
        match ss.last() {
            Step::Open(n, d) => {}
            Step::Close => {
                let c = close_step(prev.0, prev.1, prev.3);
                assert(c.0.len() == prev.0.len());
            }
        }
    }
}

// ---------------------------------------------------------------------------
// Emitting
// ---------------------------------------------------------------------------

/// No open node is `c`.
pub open spec fn not_open(fs: Seq<(u32, Seq<u32>)>, c: u32) -> bool {
    forall|f: int| 0 <= f < fs.len() ==> #[trigger] fs[f].0 != c
}

/// `c` is a node whose parent field names `i` and which is not open.
pub open spec fn kid_ok(ns: Seq<ArenaNode>, fs: Seq<(u32, Seq<u32>)>, i: int, c: u32) -> bool {
    &&& c < ns.len()
    &&& ns[c as int].parent as int == i
    &&& not_open(fs, c)
}

/// Node `i`'s children range lies in the children array and each child
/// names `i` as its parent.
pub open spec fn closed_ok(ns: Seq<ArenaNode>, ch: Seq<u32>, fs: Seq<(u32, Seq<u32>)>, i: int) -> bool {
    &&& ns[i].children_start + ns[i].children_count <= ch.len()
    &&& forall|k: int|
        0 <= k < ns[i].children_count ==> kid_ok(ns, fs, i, #[trigger] ch[ns[i].children_start + k])
}

/// Open frame `f` is a node with no children yet, opened after the frames
/// below it, whose pending children name it as their parent.
pub open spec fn frame_ok(ns: Seq<ArenaNode>, fs: Seq<(u32, Seq<u32>)>, f: int) -> bool {
    &&& fs[f].0 < ns.len()
    &&& ns[fs[f].0 as int].children_count == 0
    &&& forall|j: int| 0 <= j < fs[f].1.len() ==> kid_ok(ns, fs, fs[f].0 as int, #[trigger] fs[f].1[j])
    &&& forall|g: int| 0 <= g < f ==> #[trigger] fs[g].0 < fs[f].0
}

/// The parent fields of a build state agree with its child lists: every
/// listed or pending child names its parent, and the first node has none.
pub open spec fn parents_inv(st: BuildState) -> bool {
    let (ns, ch, fs) = (st.0, st.1, st.3);
    &&& ns.len() <= u32::MAX
    &&& forall|i: int| 0 <= i < ns.len() ==> #[trigger] closed_ok(ns, ch, fs, i)
    &&& forall|f: int| 0 <= f < fs.len() ==> #[trigger] frame_ok(ns, fs, f)
    &&& ns.len() > 0 ==> ns[0].parent == NO_PARENT
}

proof fn lemma_parents_open(st: BuildState, n: ArenaNode, data: Seq<u8>)
    requires
        parents_inv(st),
        st.0.len() < u32::MAX,
    ensures
        parents_inv(apply_step(st, Step::Open(n, data))),
{
    let st2 = apply_step(st, Step::Open(n, data));
    let (ns, ch, fs) = (st.0, st.1, st.3);
    let (ns2, ch2, fs2) = (st2.0, st2.1, st2.3);
    let id = ns.len() as u32;
    assert forall|c: u32| c < ns.len() && #[trigger] not_open(fs, c) implies not_open(fs2, c) by {
        assert forall|f: int| 0 <= f < fs2.len() implies #[trigger] fs2[f].0 != c by {
            if f < fs.len() {
                assert(fs2[f] == fs[f]);
            }
        }
    }
    assert forall|i: int| 0 <= i < ns2.len() implies #[trigger] closed_ok(ns2, ch2, fs2, i) by {
        if i < ns.len() {
            assert(closed_ok(ns, ch, fs, i));
            assert(ns2[i] == ns[i]);
            assert forall|k: int| 0 <= k < ns2[i].children_count implies kid_ok(
                ns2,
                fs2,
                i,
                #[trigger] ch2[ns2[i].children_start + k],
            ) by {
                let c = ch[ns[i].children_start + k];
                assert(kid_ok(ns, fs, i, c));
                assert(ns2[c as int] == ns[c as int]);
            }
        }
    }
    assert forall|f: int| 0 <= f < fs2.len() implies #[trigger] frame_ok(ns2, fs2, f) by {
        if f < fs.len() {
            assert(frame_ok(ns, fs, f));
            assert(fs2[f] == fs[f]);
            assert forall|j: int| 0 <= j < fs2[f].1.len() implies kid_ok(
                ns2,
                fs2,
                fs2[f].0 as int,
                #[trigger] fs2[f].1[j],
            ) by {
                let c = fs[f].1[j];
                assert(kid_ok(ns, fs, fs[f].0 as int, c));
                assert(ns2[c as int] == ns[c as int]);
            }
            assert forall|g: int| 0 <= g < f implies #[trigger] fs2[g].0 < fs2[f].0 by {
                assert(fs2[g] == fs[g]);
            }
        } else {
            assert forall|g: int| 0 <= g < f implies #[trigger] fs2[g].0 < fs2[f].0 by {
                assert(fs2[g] == fs[g]);
                assert(frame_ok(ns, fs, g));
            }
        }
    }
}

proof fn lemma_parents_close(st: BuildState)
    requires
        parents_inv(st),
        st.3.len() > 0,
        st.1.len() <= u32::MAX,
    ensures
        parents_inv(apply_step(st, Step::Close)),
{
    let st2 = apply_step(st, Step::Close);
    let (ns, ch, fs) = (st.0, st.1, st.3);
    let (ns2, ch2, fs2) = (st2.0, st2.1, st2.3);
    let last = fs.len() - 1;
    let top = fs[last];
    let id = top.0;
    let pend = top.1;
    let start = ch.len() as u32;
    assert(frame_ok(ns, fs, last));
    assert(ch2 == ch + pend);
    // The frames that stay open are the lower ones.
    assert forall|f: int| 0 <= f < fs2.len() implies #[trigger] fs2[f].0 == fs[f].0 by {}
    // A node whose parent field is not `id` is not pending under `id`.
    assert forall|c: int| 0 <= c < ns.len() && ns[c].parent != id implies !lists_id(pend, c) by {
        if lists_id(pend, c) {
            let j = choose|j: int| 0 <= j < pend.len() && pend[j] as int == c;
            assert(kid_ok(ns, fs, id as int, pend[j]));
        }
    }
    // Every node other than `id` keeps its record but for the parent of
    // pending children.
    assert forall|c: int| 0 <= c < ns.len() && c != id && ns[c].parent != id implies #[trigger] ns2[c]
        == ns[c] by {}
    assert forall|c: u32| c < ns.len() && #[trigger] not_open(fs, c) implies not_open(fs2, c) && c
        != id by {
        assert(fs[last].0 != c);
        assert forall|f: int| 0 <= f < fs2.len() implies #[trigger] fs2[f].0 != c by {
            assert(fs[f].0 != c);
        }
    }
    assert forall|i: int| 0 <= i < ns2.len() implies #[trigger] closed_ok(ns2, ch2, fs2, i) by {
        assert(closed_ok(ns, ch, fs, i));
        if i == id {
            assert forall|k: int| 0 <= k < ns2[i].children_count implies kid_ok(
                ns2,
                fs2,
                i,
                #[trigger] ch2[ns2[i].children_start + k],
            ) by {
                let c = pend[k];
                assert(ns2[i].children_start == start);
                assert(ch2[start + k] == c);
                assert(kid_ok(ns, fs, id as int, c));
                assert(not_open(fs, c));
                assert(c != id);
                assert(lists_id(pend, c as int));
            }
        } else {
            assert forall|k: int| 0 <= k < ns2[i].children_count implies kid_ok(
                ns2,
                fs2,
                i,
                #[trigger] ch2[ns2[i].children_start + k],
            ) by {
                assert(ns2[i].children_start == ns[i].children_start);
                let c = ch[ns[i].children_start + k];
                assert(ch2[ns[i].children_start + k] == c);
                assert(kid_ok(ns, fs, i, c));
                assert(not_open(fs, c));
                if ns[c as int].parent == id {
                    assert(closed_ok(ns, ch, fs, id as int));
                    assert(ns[id as int].children_count == 0);
                    assert(i == id);
                }
                assert(ns2[c as int] == ns[c as int]);
            }
        }
    }
    assert forall|f: int| 0 <= f < fs2.len() implies #[trigger] frame_ok(ns2, fs2, f) by {
        assert(frame_ok(ns, fs, f));
        assert(fs[f].0 < id);
        assert(ns2[fs[f].0 as int].children_count == ns[fs[f].0 as int].children_count) by {
            if ns[fs[f].0 as int].parent == id {
                assert(lists_id(pend, fs[f].0 as int) ==> true);
            }
        }
        assert forall|j: int| 0 <= j < fs2[f].1.len() implies kid_ok(
            ns2,
            fs2,
            fs2[f].0 as int,
            #[trigger] fs2[f].1[j],
        ) by {
            if f == fs.len() - 2 && j == fs[f].1.len() {
                assert(fs2[f].1[j] == id);
                assert forall|g: int| 0 <= g < fs2.len() implies #[trigger] fs2[g].0 != id by {
                    assert(frame_ok(ns, fs, last));
                    assert(fs[g].0 < fs[last].0);
                }
            } else {
                assert(fs2[f].1[j] == fs[f].1[j]);
                let c = fs[f].1[j];
                assert(kid_ok(ns, fs, fs[f].0 as int, c));
                assert(not_open(fs, c));
                assert(ns2[c as int] == ns[c as int]);
            }
        }
        assert forall|g: int| 0 <= g < f implies #[trigger] fs2[g].0 < fs2[f].0 by {}
    }
    if ns.len() > 0 {
        if lists_id(pend, 0) {
            let j = choose|j: int| 0 <= j < pend.len() && pend[j] as int == 0;
            assert(kid_ok(ns, fs, id as int, pend[j]));
        }
        if id == 0 && fs.len() > 1 {
            assert(frame_ok(ns, fs, last));
            assert(fs[0].0 < fs[last].0);
        }
    }
}

/// The builder is well formed, and its children array plus pending child
/// entries number at most twice its nodes.
pub open spec fn builder_ready(b: ArenaBuilder) -> bool {
    &&& b.wf()
    &&& parents_inv(state_of(b))
    &&& b.arena_view().children_view().len() + pending_total(b.frames()) <= 2 * b.arena_view().nodes_view().len()
}

/// The nodes and data that the steps add keep every count within 32 bits.
pub open spec fn steps_fit(b: ArenaBuilder, ss: Seq<Step>) -> bool {
    &&& 2 * (b.arena_view().nodes_view().len() + opens(ss)) <= u32::MAX
    &&& b.arena_view().type_data_view().len() + data_total(ss) <= u32::MAX
}

/// The builder went from `b0` to `b1` by the steps `ss`, which open and
/// close alike, and kept its source.
pub open spec fn built_by(b0: ArenaBuilder, b1: ArenaBuilder, ss: Seq<Step>) -> bool {
    &&& builder_ready(b1)
    &&& state_of(b1) == apply_steps(state_of(b0), ss)
    &&& b1.frames().len() == b0.frames().len()
    &&& b1.arena_view().source_view() == b0.arena_view().source_view()
}

/// Pushing a fresh frame adds one to the pending total.
proof fn lemma_pending_push(fs: Seq<(u32, Seq<u32>)>, id: u32)
    ensures
        pending_total(fs.push((id, Seq::<u32>::empty()))) == pending_total(fs) + 1,
{
    assert(fs.push((id, Seq::<u32>::empty())).drop_last() =~= fs);
}

/// Open a copy of node record `n` with data `data`.
fn open_copy(builder: &mut ArenaBuilder, n: &ArenaNode, data: &[u8])
    requires
        builder_ready(*old(builder)),
        NodeType::is_known_code(n.node_type),
        2 * (old(builder).arena_view().nodes_view().len() + 1) <= u32::MAX,
        old(builder).arena_view().type_data_view().len() + data@.len() <= u32::MAX,
    ensures
        builder_ready(*final(builder)),
        state_of(*final(builder)) == apply_step(state_of(*old(builder)), Step::Open(*n, data@)),
        final(builder).frames().len() == old(builder).frames().len() + 1,
        final(builder).arena_view().source_view() == old(builder).arena_view().source_view(),
{
    let ghost st = state_of(*builder);
    let node_type = NodeType::from_u8(n.node_type).expect("unknown node type in arena — corrupt data");
    let id = builder.open_node(node_type);
    proof {
        lemma_pending_push(st.3, id);
    }
    builder.set_position_current(
        n.start_offset,
        n.end_offset,
        n.start_line,
        n.start_column,
        n.end_line,
        n.end_column,
    );
    if data.len() > 0 {
        builder.set_data_current(data);
    }
    proof {
        let st1 = state_of(*builder);
        let expect = apply_step(st, Step::Open(*n, data@));
        assert(st1.0 =~= expect.0);
        assert(st1.2 =~= expect.2);
        lemma_parents_open(st, *n, data@);
    }
}

/// Close the open node on top of the builder.
fn close_copy(builder: &mut ArenaBuilder)
    requires
        builder_ready(*old(builder)),
        old(builder).frames().len() > 0,
        2 * old(builder).arena_view().nodes_view().len() <= u32::MAX,
    ensures
        builder_ready(*final(builder)),
        state_of(*final(builder)) == apply_step(state_of(*old(builder)), Step::Close),
        final(builder).frames().len() == old(builder).frames().len() - 1,
        final(builder).arena_view().source_view() == old(builder).arena_view().source_view(),
{
    let ghost st = state_of(*builder);
    proof {
        lemma_pending_total_nonneg(builder.frames());
        lemma_parents_close(st);
    }
    builder.close_node();
}

/// Recursively emit the subtree of `sub_arena` rooted at `node_id`.
fn emit_subtree_node(node_id: u32, sub_arena: &Arena, builder: &mut ArenaBuilder, Ghost(fuel): Ghost<nat>)
    requires
        emit_steps(*sub_arena, node_id as int, fuel) is Some,
        builder_ready(*old(builder)),
        steps_fit(*old(builder), emit_steps(*sub_arena, node_id as int, fuel)->0),
    ensures
        built_by(*old(builder), *final(builder), emit_steps(*sub_arena, node_id as int, fuel)->0),
    decreases fuel,
{
    let ghost b0 = *builder;
    let ghost st0 = state_of(*builder);
    let node = sub_arena.get_node(node_id);
    let type_data = sub_arena.get_type_data(node_id);
    let ghost kids_all = sub_arena.children_of(node_id as int);
    let ghost ks = emit_kids(*sub_arena, kids_all, (fuel - 1) as nat)->0;
    let ghost open = seq![Step::Open(*node, type_data@)];
    proof {
        lemma_apply_concat(st0, open, ks);
        lemma_apply_concat(st0, open + ks, seq![Step::Close]);
        lemma_apply_counts(st0, open + ks + seq![Step::Close]);
        lemma_single_steps(st0, *node, type_data@);
    }
    open_copy(builder, node, type_data);
    let child_ids = sub_arena.get_children(node_id);
    let mut i: usize = 0;
    while i < child_ids.len()
        invariant
            child_ids@ == kids_all,
            i <= child_ids@.len(),
            emit_kids(*sub_arena, kids_all, (fuel - 1) as nat) is Some,
            ks == emit_kids(*sub_arena, kids_all, (fuel - 1) as nat)->0,
            open == seq![Step::Open(*node, type_data@)],
            fuel > 0,
            builder_ready(*builder),
            builder.frames().len() == b0.frames().len() + 1,
            builder.arena_view().source_view() == b0.arena_view().source_view(),
            emit_kids(*sub_arena, kids_all.subrange(0, i as int), (fuel - 1) as nat) is Some,
            state_of(*builder) == apply_steps(
                st0,
                open + emit_kids(*sub_arena, kids_all.subrange(0, i as int), (fuel - 1) as nat)->0,
            ),
            2 * (st0.0.len() + opens(open + ks + seq![Step::Close])) <= u32::MAX,
            st0.2.len() + data_total(open + ks + seq![Step::Close]) <= u32::MAX,
        decreases child_ids@.len() - i,
    {
        let child_id = child_ids[i];
        proof {
            lemma_single_steps(st0, *node, type_data@);
            lemma_emit_kids_prefix(*sub_arena, kids_all, i as int + 1, (fuel - 1) as nat);
            let pre = kids_all.subrange(0, i as int);
            let pre1 = kids_all.subrange(0, i + 1);
            assert(pre1.drop_last() =~= pre);
            assert(pre1.last() == child_id);
            let a = emit_kids(*sub_arena, pre, (fuel - 1) as nat)->0;
            let b = emit_steps(*sub_arena, child_id as int, (fuel - 1) as nat)->0;
            lemma_apply_concat(st0, open + ks, seq![Step::Close]);
            lemma_apply_concat(st0, open, ks);
            lemma_apply_concat(st0, open, a + b);
            lemma_apply_counts(st0, open + a);
            lemma_apply_concat(st0, open, a);
            lemma_apply_concat(st0, open + a, b);
            assert(open + a + b =~= open + (a + b));
            assert(a + b == emit_kids(*sub_arena, pre1, (fuel - 1) as nat)->0);
            assert(opens(a + b) <= opens(ks));
            assert(data_total(a + b) <= data_total(ks));
            assert(builder.arena_view().nodes_view().len() == st0.0.len() + opens(open + a));
            assert(builder.arena_view().type_data_view().len() == st0.2.len() + data_total(open + a));
            assert(opens(open + a) + opens(b) <= opens(open + ks + seq![Step::Close]));
            assert(data_total(open + a) + data_total(b) <= data_total(open + ks + seq![Step::Close]));
        }
        emit_subtree_node(child_id, sub_arena, builder, Ghost((fuel - 1) as nat));
        i = i + 1;
    }
    proof {
        assert(kids_all.subrange(0, i as int) =~= kids_all);
        lemma_apply_counts(st0, open + ks);
        lemma_single_steps(apply_steps(st0, open + ks), *node, type_data@);
    }
    close_copy(builder);
}

/// Emitting a prefix of a list succeeds when emitting the list does; the
/// prefix's steps are those of the shorter prefix and then those of its last
/// subtree, and they open and append no more than the whole list's.
proof fn lemma_emit_kids_prefix(sub: Arena, kids: Seq<u32>, j: int, fuel: nat)
    requires
        emit_kids(sub, kids, fuel) is Some,
        1 <= j <= kids.len(),
    ensures
        emit_kids(sub, kids.subrange(0, j - 1), fuel) is Some,
        emit_steps(sub, kids[j - 1] as int, fuel) is Some,
        emit_kids(sub, kids.subrange(0, j), fuel) == Some(
            emit_kids(sub, kids.subrange(0, j - 1), fuel)->0 + emit_steps(sub, kids[j - 1] as int, fuel)->0,
        ),
        opens(emit_kids(sub, kids.subrange(0, j), fuel)->0) <= opens(emit_kids(sub, kids, fuel)->0),
        data_total(emit_kids(sub, kids.subrange(0, j), fuel)->0) <= data_total(emit_kids(sub, kids, fuel)->0),
    decreases kids.len() - j,
{
    let pre = kids.subrange(0, j);
    assert(pre.drop_last() =~= kids.subrange(0, j - 1));
    if j == kids.len() {
        assert(pre =~= kids);
    } else {
        let d = kids.drop_last();
        lemma_emit_kids_prefix(sub, d, j, fuel);
        assert(d.subrange(0, j) =~= pre);
        assert(d.subrange(0, j - 1) =~= kids.subrange(0, j - 1));
        assert(d[j - 1] == kids[j - 1]);
        let a = emit_kids(sub, d, fuel)->0;
        let b = emit_steps(sub, kids.last() as int, fuel)->0;
        lemma_apply_concat((Seq::empty(), Seq::empty(), Seq::empty(), Seq::empty()), a, b);
    }
}

/// A single step applied as a list, and what it counts.
proof fn lemma_single_steps(st: BuildState, n: ArenaNode, data: Seq<u8>)
    ensures
        apply_steps(st, seq![Step::Open(n, data)]) == apply_step(st, Step::Open(n, data)),
        apply_steps(st, seq![Step::Close]) == apply_step(st, Step::Close),
        opens(seq![Step::Open(n, data)]) == 1,
        data_total(seq![Step::Open(n, data)]) == data.len(),
        opens(seq![Step::Close]) == 0,
        data_total(seq![Step::Close]) == 0,
{
    assert(seq![Step::Open(n, data)].drop_last() =~= Seq::<Step>::empty());
    assert(seq![Step::Close].drop_last() =~= Seq::<Step>::empty());
    assert(apply_steps(st, Seq::<Step>::empty()) == st);
    assert(opens(Seq::<Step>::empty()) == 0);
    assert(data_total(Seq::<Step>::empty()) == 0);
}

/// A prefix of a step list opens and appends no more than the whole list.
proof fn lemma_prefix_counts(x: Seq<Step>, y: Seq<Step>)
    ensures
        opens(x) <= opens(x + y),
        data_total(x) <= data_total(x + y),
{
    lemma_apply_concat((Seq::empty(), Seq::empty(), Seq::empty(), Seq::empty()), x, y);
}

/// Emit all nodes of a sub-arena into the builder, from its root; nothing
/// for an empty sub-arena.
fn emit_subtree(sub_arena: &Arena, builder: &mut ArenaBuilder, Ghost(fuel): Ghost<nat>)
    requires
        tree_steps(*sub_arena, fuel) is Some,
        builder_ready(*old(builder)),
        steps_fit(*old(builder), tree_steps(*sub_arena, fuel)->0),
    ensures
        built_by(*old(builder), *final(builder), tree_steps(*sub_arena, fuel)->0),
{
    if sub_arena.is_empty() {
        proof {
            assert(apply_steps(state_of(*builder), Seq::<Step>::empty()) == state_of(*builder));
        }
        return;
    }
    emit_subtree_node(0, sub_arena, builder, Ghost(fuel));
}

/// The index of the patch that applies to `id`, if any.
fn lookup(patch_map: &HashMap<u32, usize>, id: u32) -> (r: Option<usize>)
    ensures
        r == (if patch_map@.contains_key(id) {
            Some(patch_map@[id])
        } else {
            None::<usize>
        }),
{
    match patch_map.get(&id) {
        Some(k) => Some(*k),
        None => None,
    }
}

/// Copying a prefix of a child list succeeds when copying the list does;
/// the prefix's steps are those of the shorter prefix and then those of its
/// last child, and they open and append no more than the whole list's.
proof fn lemma_copy_kids_prefix(a: Arena, ps: Seq<Patch>, kids: Seq<u32>, j: int, fuel: nat)
    requires
        copy_kids(a, ps, kids, fuel) is Some,
        1 <= j <= kids.len(),
    ensures
        copy_kids(a, ps, kids.subrange(0, j - 1), fuel) is Some,
        ({
            let c = kids[j - 1];
            let last = if deleted_set(ps).contains(c) {
                deleted_steps(ps, c, fuel)
            } else {
                copy_steps(a, ps, c, fuel)
            };
            &&& last is Some
            &&& copy_kids(a, ps, kids.subrange(0, j), fuel) == Some(
                copy_kids(a, ps, kids.subrange(0, j - 1), fuel)->0 + last->0,
            )
        }),
        opens(copy_kids(a, ps, kids.subrange(0, j), fuel)->0) <= opens(copy_kids(a, ps, kids, fuel)->0),
        data_total(copy_kids(a, ps, kids.subrange(0, j), fuel)->0) <= data_total(copy_kids(a, ps, kids, fuel)->0),
    decreases kids.len() - j,
{
    let pre = kids.subrange(0, j);
    assert(pre.drop_last() =~= kids.subrange(0, j - 1));
    if j == kids.len() {
        assert(pre =~= kids);
    } else {
        let d = kids.drop_last();
        lemma_copy_kids_prefix(a, ps, d, j, fuel);
        assert(d.subrange(0, j) =~= pre);
        assert(d.subrange(0, j - 1) =~= kids.subrange(0, j - 1));
        assert(d[j - 1] == kids[j - 1]);
        let c = kids.last();
        let last = if deleted_set(ps).contains(c) {
            deleted_steps(ps, c, fuel)
        } else {
            copy_steps(a, ps, c, fuel)
        };
        lemma_prefix_counts(copy_kids(a, ps, d, fuel)->0, last->0);
    }
}

/// Emit a wrap: open the wrapper node (the root of `parent_tree`), copy the
/// wrapped node itself as its child, then close the wrapper. Children that
/// `parent_tree`'s root already has are not emitted; an empty
/// `parent_tree` leaves just the copy.
fn emit_wrap_node(
    parent_tree: &Arena,
    original_node_id: u32,
    orig: &Arena,
    builder: &mut ArenaBuilder,
    patches: &[Patch],
    patch_map: &HashMap<u32, usize>,
    deleted: &HashSet<u32>,
    Ghost(fuel): Ghost<nat>,
)
    requires
        patches@.len() <= usize::MAX,
        patch_map@ == index_map(patches@),
        deleted@ == deleted_set(patches@),
        wrap_steps(*parent_tree, *orig, patches@, original_node_id, fuel) is Some,
        builder_ready(*old(builder)),
        steps_fit(*old(builder), wrap_steps(*parent_tree, *orig, patches@, original_node_id, fuel)->0),
    ensures
        built_by(*old(builder), *final(builder), wrap_steps(*parent_tree, *orig, patches@, original_node_id, fuel)->0),
    decreases fuel, 1nat,
{
    if parent_tree.is_empty() {
        copy_body(original_node_id, orig, builder, patches, patch_map, deleted, Ghost(fuel));
        return;
    }
    let ghost st0 = state_of(*builder);
    let wrapper = parent_tree.get_node(0);
    let wrapper_data = parent_tree.get_type_data(0);
    let ghost o = seq![Step::Open(*wrapper, wrapper_data@)];
    let ghost c = body_steps(*orig, patches@, original_node_id, fuel)->0;
    proof {
        lemma_single_steps(st0, *wrapper, wrapper_data@);
        lemma_apply_concat(st0, o, c);
        lemma_apply_concat(st0, o + c, seq![Step::Close]);
        lemma_prefix_counts(o + c, seq![Step::Close]);
    }
    open_copy(builder, wrapper, wrapper_data);
    proof {
        lemma_apply_counts(st0, o);
    }
    copy_body(original_node_id, orig, builder, patches, patch_map, deleted, Ghost(fuel));
    proof {
        lemma_apply_counts(st0, o + c);
        lemma_single_steps(apply_steps(st0, o + c), *wrapper, wrapper_data@);
    }
    close_copy(builder);
}

/// Recursively copy node `node_id` of `orig` into `builder`, applying the
/// patches. Returns whether the node (or its replacement) was emitted.
fn copy_node(
    node_id: u32,
    orig: &Arena,
    builder: &mut ArenaBuilder,
    patches: &[Patch],
    patch_map: &HashMap<u32, usize>,
    deleted: &HashSet<u32>,
    Ghost(fuel): Ghost<nat>,
) -> (emitted: bool)
    requires
        patches@.len() <= usize::MAX,
        patch_map@ == index_map(patches@),
        deleted@ == deleted_set(patches@),
        copy_steps(*orig, patches@, node_id, fuel) is Some,
        builder_ready(*old(builder)),
        steps_fit(*old(builder), copy_steps(*orig, patches@, node_id, fuel)->0),
    ensures
        built_by(*old(builder), *final(builder), copy_steps(*orig, patches@, node_id, fuel)->0),
        emitted == (!deleted_set(patches@).contains(node_id) || patch_for(patches@, node_id) matches Some(
            Patch::Replace { .. },
        )),
    decreases fuel, 2nat,
{
    let ghost ps = patches@;
    let ghost f = (fuel - 1) as nat;
    proof {
        lemma_index_map(ps);
    }
    if deleted.contains(&node_id) {
        let found = lookup(patch_map, node_id);
        if let Some(k) = found {
            if let Patch::Replace { new_tree, .. } = &patches[k] {
                emit_subtree(new_tree, builder, Ghost(f));
                return true;
            }
        }
        proof {
            assert(apply_steps(state_of(*builder), Seq::<Step>::empty()) == state_of(*builder));
        }
        return false;
    }
    let found = lookup(patch_map, node_id);
    if let Some(k) = found {
        if let Patch::Wrap { parent_tree, .. } = &patches[k] {
            emit_wrap_node(parent_tree, node_id, orig, builder, patches, patch_map, deleted, Ghost(fuel));
            return true;
        }
    }
    copy_body(node_id, orig, builder, patches, patch_map, deleted, Ghost(fuel));
    true
}

/// Copy node `node_id` itself (not its wrap): the subtree inserted before
/// it, the node with its prepended subtree, children and appended subtree,
/// then the subtree inserted after it.
fn copy_body(
    node_id: u32,
    orig: &Arena,
    builder: &mut ArenaBuilder,
    patches: &[Patch],
    patch_map: &HashMap<u32, usize>,
    deleted: &HashSet<u32>,
    Ghost(fuel): Ghost<nat>,
)
    requires
        patches@.len() <= usize::MAX,
        patch_map@ == index_map(patches@),
        deleted@ == deleted_set(patches@),
        body_steps(*orig, patches@, node_id, fuel) is Some,
        builder_ready(*old(builder)),
        steps_fit(*old(builder), body_steps(*orig, patches@, node_id, fuel)->0),
    ensures
        built_by(*old(builder), *final(builder), body_steps(*orig, patches@, node_id, fuel)->0),
    decreases fuel, 0nat,
{
    let ghost ps = patches@;
    let ghost f = (fuel - 1) as nat;
    let ghost st0 = state_of(*builder);
    proof {
        assert(apply_steps(st0, Seq::<Step>::empty()) == st0);
        lemma_index_map(ps);
    }
    let found = lookup(patch_map, node_id);
    let ghost full = body_steps(*orig, ps, node_id, fuel)->0;
    let ghost bs = before_steps(ps, node_id, f)->0;
    let ghost n = orig.nodes_view()[node_id as int];
    let ghost os = seq![Step::Open(n, orig.data_of(node_id as int))];
    let ghost pr = prepend_steps(ps, node_id, f)->0;
    let ghost kids_all = orig.children_of(node_id as int);
    let ghost ks = copy_kids(*orig, ps, kids_all, f)->0;
    let ghost ap = append_steps(ps, node_id, f)->0;
    let ghost cs = seq![Step::Close];
    let ghost af = after_steps(ps, node_id, f)->0;
    let ghost d1 = bs;
    let ghost d2 = d1 + os;
    let ghost d3 = d2 + pr;
    let ghost d4 = d3 + ks;
    let ghost d5 = d4 + ap;
    let ghost d6 = d5 + cs;
    proof {
        assert(full == d6 + af);
        lemma_prefix_counts(d1, os);
        lemma_prefix_counts(d2, pr);
        lemma_prefix_counts(d3, ks);
        lemma_prefix_counts(d4, ap);
        lemma_prefix_counts(d5, cs);
        lemma_prefix_counts(d6, af);
        lemma_apply_concat(st0, Seq::<Step>::empty(), d1);
        assert(Seq::<Step>::empty() + d1 =~= d1);
    }
    // InsertBefore: emit the new sibling before this node.
    if let Some(k) = found {
        if let Patch::InsertBefore { new_tree, .. } = &patches[k] {
            emit_subtree(new_tree, builder, Ghost(f));
        }
    }
    proof {
        lemma_apply_counts(st0, d1);
        lemma_apply_concat(st0, d1, os);
        lemma_single_steps(apply_steps(st0, d1), n, orig.data_of(node_id as int));
    }
    // Open this node in the new arena, with its position and data.
    let node = orig.get_node(node_id);
    let type_data = orig.get_type_data(node_id);
    open_copy(builder, node, type_data);
    proof {
        lemma_apply_counts(st0, d2);
        lemma_apply_concat(st0, d2, pr);
    }
    // PrependChild: emit a new child before the original children.
    if let Some(k) = found {
        if let Patch::PrependChild { child_tree, .. } = &patches[k] {
            emit_subtree(child_tree, builder, Ghost(f));
        }
    }
    // Children: copy each, handling per-child removes and replaces.
    let child_ids = orig.get_children(node_id);
    let mut i: usize = 0;
    while i < child_ids.len()
        invariant
            child_ids@ == kids_all,
            i <= child_ids@.len(),
            fuel > 0,
            f == (fuel - 1) as nat,
            ps == patches@,
            ps.len() <= usize::MAX,
            patch_map@ == index_map(ps),
            deleted@ == deleted_set(ps),
            copy_kids(*orig, ps, kids_all, f) is Some,
            ks == copy_kids(*orig, ps, kids_all, f)->0,
            d4 == d3 + ks,
            opens(d3) <= opens(d4),
            data_total(d3) <= data_total(d4),
            2 * (st0.0.len() + opens(d4)) <= u32::MAX,
            st0.2.len() + data_total(d4) <= u32::MAX,
            builder_ready(*builder),
            builder.frames().len() == st0.3.len() + 1,
            builder.arena_view().source_view() == old(builder).arena_view().source_view(),
            copy_kids(*orig, ps, kids_all.subrange(0, i as int), f) is Some,
            state_of(*builder) == apply_steps(st0, d3 + copy_kids(*orig, ps, kids_all.subrange(0, i as int), f)->0),
        decreases child_ids@.len() - i,
    {
        let child_id = child_ids[i];
        let ghost pre = kids_all.subrange(0, i as int);
        let ghost a = copy_kids(*orig, ps, pre, f)->0;
        let ghost b = (if deleted_set(ps).contains(child_id) {
            deleted_steps(ps, child_id, f)
        } else {
            copy_steps(*orig, ps, child_id, f)
        })->0;
        proof {
            lemma_copy_kids_prefix(*orig, ps, kids_all, i as int + 1, f);
            lemma_index_map(ps);
            let pre1 = kids_all.subrange(0, i + 1);
            assert(pre1.drop_last() =~= pre);
            assert(pre1.last() == child_id);
            lemma_apply_counts(st0, d3 + a);
            lemma_apply_concat(st0, d3 + a, b);
            lemma_apply_concat(st0, d3, a + b);
            lemma_apply_concat(st0, d3, ks);
            lemma_apply_concat(st0, d3, a);
            assert(d3 + a + b =~= d3 + (a + b));
        }
        if deleted.contains(&child_id) {
            let cfound = lookup(patch_map, child_id);
            if let Some(k) = cfound {
                if let Patch::Replace { new_tree, .. } = &patches[k] {
                    emit_subtree(new_tree, builder, Ghost(f));
                }
            }
        } else {
            copy_node(child_id, orig, builder, patches, patch_map, deleted, Ghost(f));
        }
        i = i + 1;
    }
    proof {
        assert(kids_all.subrange(0, i as int) =~= kids_all);
        lemma_apply_counts(st0, d4);
        lemma_apply_concat(st0, d4, ap);
    }
    // AppendChild: emit a new child after the original children.
    if let Some(k) = found {
        if let Patch::AppendChild { child_tree, .. } = &patches[k] {
            emit_subtree(child_tree, builder, Ghost(f));
        }
    }
    proof {
        lemma_apply_counts(st0, d5);
        lemma_apply_concat(st0, d5, cs);
        lemma_single_steps(apply_steps(st0, d5), n, orig.data_of(node_id as int));
    }
    close_copy(builder);
    proof {
        lemma_apply_counts(st0, d6);
        lemma_apply_concat(st0, d6, af);
    }
    // InsertAfter: emit the new sibling after this node.
    if let Some(k) = found {
        if let Patch::InsertAfter { new_tree, .. } = &patches[k] {
            emit_subtree(new_tree, builder, Ghost(f));
        }
    }
}

/// The state of a fresh builder: no nodes, children, data or open frames.
pub open spec fn empty_state() -> BuildState {
    (Seq::empty(), Seq::empty(), Seq::empty(), Seq::empty())
}

/// The node a patch applies to.
fn target_of(patch: &Patch) -> (r: u32)
    ensures
        r == patch.target(),
{
    match patch {
        Patch::Replace { node_id, .. } => *node_id,
        Patch::Remove { node_id } => *node_id,
        Patch::InsertBefore { node_id, .. } => *node_id,
        Patch::InsertAfter { node_id, .. } => *node_id,
        Patch::Wrap { node_id, .. } => *node_id,
        Patch::PrependChild { node_id, .. } => *node_id,
        Patch::AppendChild { node_id, .. } => *node_id,
    }
}

/// Apply patches to an arena, producing a new arena.
///
/// The original tree is walked from the root (node 0), depth first; each
/// node kept is emitted with its kind, position and data bytes, so node ids
/// in the new arena are assigned fresh, in the order of emission, while the
/// structure is preserved. Where several patches name one node, the last
/// one applies; a node named by any remove or replace patch is left out of
/// the walk (a replace emits its new tree in its place). The source of the
/// original arena is kept; the data bytes of patch trees are copied as they
/// are.
pub fn rebuild(arena: &Arena, patches: &[Patch]) -> (r: Arena)
    requires
        rebuild_ok(*arena, patches@),
        2 * opens(rebuild_plan(*arena, patches@)) <= u32::MAX,
        data_total(rebuild_plan(*arena, patches@)) <= u32::MAX,
    ensures
        ({
            let st = apply_steps(empty_state(), rebuild_plan(*arena, patches@));
            &&& r.nodes_view() == st.0
            &&& r.children_view() == st.1
            &&& r.type_data_view() == st.2
        }),
        r.source_view() == arena.source_view(),
        r.well_formed(),
        parents_consistent(r),
{
    // Index patches by target node id; the last patch for a node wins.
    let mut patch_map: HashMap<u32, usize> = HashMap::new();
    for i in 0..patches.len()
        invariant
            patch_map@ == index_map(patches@.subrange(0, i as int)),
    {
        let node_id = target_of(&patches[i]);
        patch_map.insert(node_id, i);
        proof {
            let sub = patches@.subrange(0, i + 1);
            assert(sub.drop_last() =~= patches@.subrange(0, i as int));
        }
    }
    proof {
        assert(patches@.subrange(0, patches@.len() as int) =~= patches@);
    }
    // The removed or replaced nodes are skipped in the normal walk.
    let mut deleted: HashSet<u32> = HashSet::new();
    for i in 0..patches.len()
        invariant
            deleted@ == deleted_set(patches@.subrange(0, i as int)),
    {
        let ghost prev = deleted@;
        match &patches[i] {
            Patch::Remove { node_id } => {
                deleted.insert(*node_id);
            },
            Patch::Replace { node_id, .. } => {
                deleted.insert(*node_id);
            },
            _ => {},
        }
        proof {
            let sub = patches@.subrange(0, i + 1);
            assert(sub.drop_last() =~= patches@.subrange(0, i as int));
            assert(deleted@ =~= deleted_set(sub));
        }
    }
    proof {
        assert(patches@.subrange(0, patches@.len() as int) =~= patches@);
    }
    // The new arena keeps the original source.
    let new_source = String::from_str(arena.source());
    let mut builder = ArenaBuilder::new(new_source);
    let ghost fuel = choose|f: nat| #[trigger] rebuild_steps(*arena, patches@, f) is Some;
    proof {
        assert(state_of(builder) == empty_state());
        assert(pending_total(builder.frames()) == 0);
    }
    copy_node(0, arena, &mut builder, patches, &patch_map, &deleted, Ghost(fuel));
    proof {
        lemma_apply_counts(empty_state(), rebuild_plan(*arena, patches@));
        assert(builder.frames() =~= Seq::<(u32, Seq<u32>)>::empty());
    }
    let ghost st = state_of(builder);
    let r = builder.finish();
    proof {
        assert(r.nodes_view() == st.0 && r.children_view() == st.1);
        assert forall|i: int, k: int|
            0 <= i < r.nodes_view().len() && 0 <= k < r.children_of(i).len() implies r.nodes_view()[
            #[trigger] r.children_of(i)[k] as int].parent == i by {
            assert(closed_ok(st.0, st.1, st.3, i));
            assert(r.children_of(i)[k] == st.1[st.0[i].children_start + k]);
        }
    }
    r
}

/// The parent fields agree with the child lists: every child names the
/// node that lists it as its parent, and the first node has no parent.
pub open spec fn parents_consistent(a: Arena) -> bool {
    &&& forall|i: int, k: int|
        0 <= i < a.nodes_view().len() && 0 <= k < a.children_of(i).len() ==> a.nodes_view()[
        #[trigger] a.children_of(i)[k] as int].parent == i
    &&& a.nodes_view().len() > 0 ==> a.nodes_view()[0].parent == NO_PARENT
}

/// In an arena whose parent fields agree with its child lists, no node is
/// listed as the child of two nodes, and the first node is nobody's child.
pub proof fn law_one_parent(a: Arena, i: int, j: int, k: int, l: int)
    requires
        a.well_formed(),
        parents_consistent(a),
        0 <= i < a.nodes_view().len(),
        0 <= j < a.nodes_view().len(),
        0 <= k < a.children_of(i).len(),
        0 <= l < a.children_of(j).len(),
    ensures
        a.children_of(i)[k] == a.children_of(j)[l] ==> i == j,
        a.children_of(i)[k] != 0,
{
    assert(i < a.children_of(i)[k]);
}

/// The ids of the subtree of `sub` rooted at `id`, in preorder, descending
/// at most `fuel` levels.
pub open spec fn preorder(sub: Arena, id: int, fuel: nat) -> Seq<int>
    decreases fuel, 0nat,
{
    if fuel == 0 || !sub.has_node(id) {
        Seq::empty()
    } else {
        seq![id] + preorder_kids(sub, sub.children_of(id), (fuel - 1) as nat)
    }
}

/// The preorders of a list of subtrees, one after the other.
pub open spec fn preorder_kids(sub: Arena, kids: Seq<u32>, fuel: nat) -> Seq<int>
    decreases fuel, kids.len() + 1,
{
    if kids.len() == 0 {
        Seq::empty()
    } else {
        preorder_kids(sub, kids.drop_last(), fuel) + preorder(sub, kids.last() as int, fuel)
    }
}

/// The node records and data that the steps open, in order.
pub open spec fn open_records(ss: Seq<Step>) -> Seq<(ArenaNode, Seq<u8>)>
    decreases ss.len(),
{
    if ss.len() == 0 {
        Seq::empty()
    } else {
        open_records(ss.drop_last()) + match ss.last() {
            Step::Open(n, d) => seq![(n, d)],
            Step::Close => Seq::empty(),
        }
    }
}

proof fn lemma_open_records_concat(a: Seq<Step>, b: Seq<Step>)
    ensures
        open_records(a + b) == open_records(a) + open_records(b),
    decreases b.len(),
{
    if b.len() == 0 {
        assert(a + b =~= a);
        assert(open_records(a) + open_records(b) =~= open_records(a));
    } else {
        lemma_open_records_concat(a, b.drop_last());
        assert((a + b).drop_last() =~= a + b.drop_last());
        let tail = match b.last() {
            Step::Open(n, d) => seq![(n, d)],
            Step::Close => Seq::<(ArenaNode, Seq<u8>)>::empty(),
        };
        assert(open_records(a) + open_records(b.drop_last()) + tail =~= open_records(a) + (
        open_records(b.drop_last()) + tail));
    }
}

/// A node record is a copy of `n` with data `d` at its place in `td`: same
/// kind and position, and its data range holds `d`.
pub open spec fn copies_record(m: ArenaNode, td: Seq<u8>, n: ArenaNode, d: Seq<u8>) -> bool {
    &&& m.node_type == n.node_type
    &&& m.start_offset == n.start_offset
    &&& m.end_offset == n.end_offset
    &&& m.start_line == n.start_line
    &&& m.start_column == n.start_column
    &&& m.end_line == n.end_line
    &&& m.end_column == n.end_column
    &&& m.data_offset + m.data_len <= td.len()
    &&& td.subrange(m.data_offset as int, m.data_offset + m.data_len) == d
}

proof fn lemma_apply_records(ss: Seq<Step>)
    requires
        data_total(ss) <= u32::MAX,
        opens(ss) <= u32::MAX,
    ensures
        apply_steps(empty_state(), ss).0.len() == open_records(ss).len(),
        forall|j: int|
            0 <= j < open_records(ss).len() ==> copies_record(
                #[trigger] apply_steps(empty_state(), ss).0[j],
                apply_steps(empty_state(), ss).2,
                open_records(ss)[j].0,
                open_records(ss)[j].1,
            ),
    decreases ss.len(),
{
    lemma_apply_counts(empty_state(), ss);
    if ss.len() > 0 {
        let pre = ss.drop_last();
        lemma_apply_concat(empty_state(), pre, seq![ss.last()]);
        assert(pre + seq![ss.last()] =~= ss);
        lemma_apply_counts(empty_state(), pre);
        lemma_apply_records(pre);
        let st = apply_steps(empty_state(), pre);
        let st2 = apply_steps(empty_state(), ss);
        assert(st2 == apply_step(st, ss.last()));
        assert(apply_steps(st, seq![ss.last()]) == apply_step(st, ss.last())) by {
            assert(seq![ss.last()].drop_last() =~= Seq::<Step>::empty());
        }
        match ss.last() {
            Step::Open(n, d) => {
                assert forall|j: int| 0 <= j < open_records(ss).len() implies copies_record(
                    #[trigger] st2.0[j],
                    st2.2,
                    open_records(ss)[j].0,
                    open_records(ss)[j].1,
                ) by {
                    if j < open_records(pre).len() {
                        assert(copies_record(st.0[j], st.2, open_records(pre)[j].0, open_records(pre)[j].1));
                        let m = st.0[j];
                        assert(st2.2.subrange(m.data_offset as int, m.data_offset + m.data_len)
                            =~= st.2.subrange(m.data_offset as int, m.data_offset + m.data_len));
                    } else {
                        assert(st2.2.subrange(st.2.len() as int, (st.2.len() + d.len()) as int) =~= d);
                        if d.len() == 0 {
                            assert(st2.2.subrange(0, 0) =~= d);
                        }
                    }
                }
            },
            Step::Close => {
                assert(open_records(ss) =~= open_records(pre));
                assert forall|j: int| 0 <= j < open_records(ss).len() implies copies_record(
                    #[trigger] st2.0[j],
                    st2.2,
                    open_records(ss)[j].0,
                    open_records(ss)[j].1,
                ) by {
                    assert(copies_record(st.0[j], st.2, open_records(pre)[j].0, open_records(pre)[j].1));
                }
            },
        }
    }
}

/// The node records and data of a preorder of `sub`.
pub open spec fn preorder_records(sub: Arena, ids: Seq<int>) -> Seq<(ArenaNode, Seq<u8>)> {
    ids.map_values(|p: int| (sub.nodes_view()[p], sub.data_of(p)))
}

proof fn lemma_emit_records(sub: Arena, id: int, fuel: nat)
    requires
        emit_steps(sub, id, fuel) is Some,
    ensures
        open_records(emit_steps(sub, id, fuel)->0) == preorder_records(sub, preorder(sub, id, fuel)),
    decreases fuel, 0nat,
{
    let f = (fuel - 1) as nat;
    let kids = sub.children_of(id);
    lemma_emit_kids_records(sub, kids, f);
    let ks = emit_kids(sub, kids, f)->0;
    let open = seq![Step::Open(sub.nodes_view()[id], sub.data_of(id))];
    lemma_open_records_concat(open, ks);
    lemma_open_records_concat(open + ks, seq![Step::Close]);
    assert(open_records(open) =~= seq![(sub.nodes_view()[id], sub.data_of(id))]) by {
        assert(open.drop_last() =~= Seq::<Step>::empty());
        assert(open.last() == Step::Open(sub.nodes_view()[id], sub.data_of(id)));
        assert(open_records(Seq::<Step>::empty()) =~= Seq::<(ArenaNode, Seq<u8>)>::empty());
    }
    assert(open_records(seq![Step::Close]) =~= Seq::<(ArenaNode, Seq<u8>)>::empty()) by {
        assert(seq![Step::Close].drop_last() =~= Seq::<Step>::empty());
        assert(seq![Step::Close].last() == Step::Close);
        assert(open_records(Seq::<Step>::empty()) =~= Seq::<(ArenaNode, Seq<u8>)>::empty());
    }
    assert(preorder_records(sub, preorder(sub, id, fuel)) =~= seq![
        (sub.nodes_view()[id], sub.data_of(id)),
    ] + preorder_records(sub, preorder_kids(sub, kids, f)));
}

proof fn lemma_emit_kids_records(sub: Arena, kids: Seq<u32>, fuel: nat)
    requires
        emit_kids(sub, kids, fuel) is Some,
    ensures
        open_records(emit_kids(sub, kids, fuel)->0) == preorder_records(sub, preorder_kids(sub, kids, fuel)),
    decreases fuel, kids.len() + 1,
{
    if kids.len() > 0 {
        lemma_emit_kids_records(sub, kids.drop_last(), fuel);
        lemma_emit_records(sub, kids.last() as int, fuel);
        let a = emit_kids(sub, kids.drop_last(), fuel)->0;
        let b = emit_steps(sub, kids.last() as int, fuel)->0;
        lemma_open_records_concat(a, b);
        assert(preorder_records(sub, preorder_kids(sub, kids, fuel)) =~= preorder_records(
            sub,
            preorder_kids(sub, kids.drop_last(), fuel),
        ) + preorder_records(sub, preorder(sub, kids.last() as int, fuel)));
    } else {
        assert(open_records(Seq::<Step>::empty()) =~= preorder_records(sub, Seq::<int>::empty()));
    }
}

/// Rebuilding without patches copies the tree: node `j` of the result is
/// the `j`-th node of the original in preorder from the root, with the same
/// kind, position and data bytes.
pub proof fn law_rebuild_without_patches_copies(a: Arena, r: Arena)
    requires
        rebuild_ok(a, Seq::<Patch>::empty()),
        2 * opens(rebuild_plan(a, Seq::<Patch>::empty())) <= u32::MAX,
        data_total(rebuild_plan(a, Seq::<Patch>::empty())) <= u32::MAX,
        r.nodes_view() == apply_steps(empty_state(), rebuild_plan(a, Seq::<Patch>::empty())).0,
        r.type_data_view() == apply_steps(empty_state(), rebuild_plan(a, Seq::<Patch>::empty())).2,
    ensures
        ({
            let fuel = choose|fuel: nat| #[trigger] rebuild_steps(a, Seq::<Patch>::empty(), fuel) is Some;
            let pre = preorder(a, 0, fuel);
            &&& r.nodes_view().len() == pre.len()
            &&& forall|j: int|
                0 <= j < pre.len() ==> copies_record(
                    #[trigger] r.nodes_view()[j],
                    r.type_data_view(),
                    a.nodes_view()[pre[j]],
                    a.data_of(pre[j]),
                )
        }),
{
    let ps = Seq::<Patch>::empty();
    let fuel = choose|fuel: nat| #[trigger] rebuild_steps(a, ps, fuel) is Some;
    let plan = rebuild_plan(a, ps);
    lemma_no_patches_copies_tree(a, 0, fuel);
    assert(plan == emit_steps(a, 0, fuel)->0);
    lemma_emit_records(a, 0, fuel);
    lemma_apply_records(plan);
    let pre = preorder(a, 0, fuel);
    assert forall|j: int| 0 <= j < pre.len() implies copies_record(
        #[trigger] r.nodes_view()[j],
        r.type_data_view(),
        a.nodes_view()[pre[j]],
        a.data_of(pre[j]),
    ) by {
        assert(open_records(plan)[j] == preorder_records(a, pre)[j]);
    }
}

/// With no patches, copying a node emits exactly its subtree: every node
/// is kept with its kind, position and data, its children in order.
/// The walk from the root that rebuilding with no patches copies, in
/// preorder.
pub open spec fn root_walk(a: Arena) -> Seq<int> {
    preorder(a, 0, choose|fuel: nat| #[trigger] rebuild_steps(a, Seq::<Patch>::empty(), fuel) is Some)
}

proof fn lemma_preorder_nodes(a: Arena, id: int, fuel: nat)
    ensures
        forall|k: int| 0 <= k < preorder(a, id, fuel).len() ==> a.has_node(#[trigger] preorder(a, id, fuel)[k]),
    decreases fuel, 0nat,
{
    if fuel > 0 && a.has_node(id) {
        let rest = preorder_kids(a, a.children_of(id), (fuel - 1) as nat);
        lemma_preorder_kids_nodes(a, a.children_of(id), (fuel - 1) as nat);
        assert forall|k: int| 0 <= k < preorder(a, id, fuel).len() implies a.has_node(
            #[trigger] preorder(a, id, fuel)[k],
        ) by {
            if k > 0 {
                assert(preorder(a, id, fuel)[k] == rest[k - 1]);
            }
        }
    }
}

proof fn lemma_preorder_kids_nodes(a: Arena, kids: Seq<u32>, fuel: nat)
    ensures
        forall|k: int|
            0 <= k < preorder_kids(a, kids, fuel).len() ==> a.has_node(#[trigger] preorder_kids(a, kids, fuel)[k]),
    decreases fuel, kids.len() + 1,
{
    if kids.len() > 0 {
        let x = preorder_kids(a, kids.drop_last(), fuel);
        let y = preorder(a, kids.last() as int, fuel);
        lemma_preorder_kids_nodes(a, kids.drop_last(), fuel);
        lemma_preorder_nodes(a, kids.last() as int, fuel);
        assert forall|k: int| 0 <= k < preorder_kids(a, kids, fuel).len() implies a.has_node(
            #[trigger] preorder_kids(a, kids, fuel)[k],
        ) by {
            if k < x.len() {
                assert(preorder_kids(a, kids, fuel)[k] == x[k]);
            } else {
                assert(preorder_kids(a, kids, fuel)[k] == y[k - x.len()]);
            }
        }
    }
}

/// Rebuilding with no patches an arena whose walk from the root visits
/// every node once (a tree with all its nodes reachable from the root)
/// gives an arena with as many nodes.
pub proof fn law_rebuild_without_patches_keeps_count(a: Arena, r: Arena)
    requires
        rebuild_ok(a, Seq::<Patch>::empty()),
        2 * opens(rebuild_plan(a, Seq::<Patch>::empty())) <= u32::MAX,
        data_total(rebuild_plan(a, Seq::<Patch>::empty())) <= u32::MAX,
        r.nodes_view() == apply_steps(empty_state(), rebuild_plan(a, Seq::<Patch>::empty())).0,
        r.type_data_view() == apply_steps(empty_state(), rebuild_plan(a, Seq::<Patch>::empty())).2,
        root_walk(a).no_duplicates(),
        forall|i: int| 0 <= i < a.nodes_view().len() ==> root_walk(a).contains(i),
    ensures
        r.nodes_view().len() == a.nodes_view().len(),
{
    law_rebuild_without_patches_copies(a, r);
    let fuel = choose|fuel: nat| #[trigger] rebuild_steps(a, Seq::<Patch>::empty(), fuel) is Some;
    let w = root_walk(a);
    let n = a.nodes_view().len() as int;
    lemma_preorder_nodes(a, 0, fuel);
    w.unique_seq_to_set();
    assert(w.to_set() =~= vstd::set_lib::set_int_range(0, n)) by {
        assert forall|x: int| w.to_set().contains(x) <==> vstd::set_lib::set_int_range(0, n).contains(x) by {
            if w.to_set().contains(x) {
                assert(w.contains(x));
                let k = choose|k: int| 0 <= k < w.len() && w[k] == x;
                assert(a.has_node(w[k]));
            }
        }
    }
    vstd::set_lib::lemma_int_range(0, n);
}

pub proof fn lemma_no_patches_copies_tree(a: Arena, id: u32, fuel: nat)
    ensures
        copy_steps(a, Seq::<Patch>::empty(), id, fuel) == emit_steps(a, id as int, fuel),
    decreases fuel, 0nat,
{
    let ps = Seq::<Patch>::empty();
    assert(index_map(ps) == Map::<u32, usize>::empty());
    assert(deleted_set(ps) == Set::<u32>::empty());
    if fuel > 0 && a.has_node(id as int) {
        let f = (fuel - 1) as nat;
        let n = a.nodes_view()[id as int];
        if NodeType::is_known_code(n.node_type) && a.children_in_bounds(id as int) && a.data_in_bounds(id as int) {
            lemma_no_patches_copies_kids(a, a.children_of(id as int), f);
            let e = Seq::<Step>::empty();
            let open = seq![Step::Open(n, a.data_of(id as int))];
            match emit_kids(a, a.children_of(id as int), f) {
                Some(ks) => {
                    assert(e + open + e + ks + e + seq![Step::Close] + e =~= open + ks + seq![Step::Close]);
                },
                None => {},
            }
        }
    }
}

/// With no patches, copying a list of children emits each of their subtrees.
pub proof fn lemma_no_patches_copies_kids(a: Arena, kids: Seq<u32>, fuel: nat)
    ensures
        copy_kids(a, Seq::<Patch>::empty(), kids, fuel) == emit_kids(a, kids, fuel),
    decreases fuel, kids.len() + 1,
{
    let ps = Seq::<Patch>::empty();
    assert(deleted_set(ps) == Set::<u32>::empty());
    if kids.len() > 0 {
        lemma_no_patches_copies_kids(a, kids.drop_last(), fuel);
        lemma_no_patches_copies_tree(a, kids.last(), fuel);
    }
}


proof fn lemma_opens_records(ss: Seq<Step>)
    ensures
        opens(ss) == open_records(ss).len(),
    decreases ss.len(),
{
    if ss.len() > 0 {
        lemma_opens_records(ss.drop_last());
    }
}

/// From any state, the `j`-th node that steps open copies the `j`-th
/// record they open.
proof fn lemma_apply_records_from(st: BuildState, ss: Seq<Step>)
    requires
        st.2.len() + data_total(ss) <= u32::MAX,
        st.0.len() + opens(ss) <= u32::MAX,
    ensures
        apply_steps(st, ss).0.len() == st.0.len() + open_records(ss).len(),
        forall|j: int|
            0 <= j < open_records(ss).len() ==> copies_record(
                #[trigger] apply_steps(st, ss).0[st.0.len() + j],
                apply_steps(st, ss).2,
                open_records(ss)[j].0,
                open_records(ss)[j].1,
            ),
    decreases ss.len(),
{
    lemma_apply_counts(st, ss);
    lemma_opens_records(ss);
    if ss.len() > 0 {
        let pre = ss.drop_last();
        lemma_apply_concat(st, pre, seq![ss.last()]);
        assert(pre + seq![ss.last()] =~= ss);
        lemma_apply_counts(st, pre);
        lemma_opens_records(pre);
        lemma_apply_records_from(st, pre);
        let s1 = apply_steps(st, pre);
        let s2 = apply_steps(st, ss);
        assert(s2 == apply_step(s1, ss.last()));
        let k = st.0.len() as int;
        match ss.last() {
            Step::Open(n, d) => {
                assert forall|j: int| 0 <= j < open_records(ss).len() implies copies_record(
                    #[trigger] s2.0[k + j],
                    s2.2,
                    open_records(ss)[j].0,
                    open_records(ss)[j].1,
                ) by {
                    if j < open_records(pre).len() {
                        assert(copies_record(s1.0[k + j], s1.2, open_records(pre)[j].0, open_records(pre)[j].1));
                        let m = s1.0[k + j];
                        assert(s2.2.subrange(m.data_offset as int, m.data_offset + m.data_len)
                            =~= s1.2.subrange(m.data_offset as int, m.data_offset + m.data_len));
                    } else {
                        assert(s2.2.subrange(s1.2.len() as int, (s1.2.len() + d.len()) as int) =~= d);
                        if d.len() == 0 {
                            assert(s2.2.subrange(0, 0) =~= d);
                        }
                    }
                }
            },
            Step::Close => {
                assert(open_records(ss) =~= open_records(pre));
                assert forall|j: int| 0 <= j < open_records(ss).len() implies copies_record(
                    #[trigger] s2.0[k + j],
                    s2.2,
                    open_records(ss)[j].0,
                    open_records(ss)[j].1,
                ) by {
                    assert(copies_record(s1.0[k + j], s1.2, open_records(pre)[j].0, open_records(pre)[j].1));
                }
            },
        }
    }
}

/// Wrapping node `id` in the root of a non-empty `parent_tree` opens, from
/// whatever state the builder is in, first a node that copies that root
/// (its kind, position and type-data bytes) and right after it a node that
/// copies node `id` (kind, position, type-data bytes).
pub proof fn law_wrap_opens_wrapper_then_node(
    parent_tree: Arena,
    a: Arena,
    ps: Seq<Patch>,
    id: u32,
    fuel: nat,
    st: BuildState,
)
    requires
        parent_tree.nodes_view().len() > 0,
        patch_for(ps, id) == Some(Patch::Wrap { node_id: id, parent_tree }),
        wrap_steps(parent_tree, a, ps, id, fuel) is Some,
        st.2.len() + data_total(wrap_steps(parent_tree, a, ps, id, fuel)->0) <= u32::MAX,
        st.0.len() + opens(wrap_steps(parent_tree, a, ps, id, fuel)->0) <= u32::MAX,
    ensures
        ({
            let r = apply_steps(st, wrap_steps(parent_tree, a, ps, id, fuel)->0);
            let k = st.0.len() as int;
            &&& r.0.len() >= k + 2
            &&& copies_record(r.0[k], r.2, parent_tree.nodes_view()[0], parent_tree.data_of(0))
            &&& copies_record(r.0[k + 1], r.2, a.nodes_view()[id as int], a.data_of(id as int))
        }),
{
    let ws = wrap_steps(parent_tree, a, ps, id, fuel)->0;
    let w = parent_tree.nodes_view()[0];
    let f = (fuel - 1) as nat;
    let n = a.nodes_view()[id as int];
    let o = seq![Step::Open(n, a.data_of(id as int))];
    let body = body_steps(a, ps, id, fuel)->0;
    assert(before_steps(ps, id, f) == Some(Seq::<Step>::empty()));
    let pr = prepend_steps(ps, id, f)->0;
    let ks = copy_kids(a, ps, a.children_of(id as int), f)->0;
    let ap = append_steps(ps, id, f)->0;
    let af = after_steps(ps, id, f)->0;
    let rest = pr + ks + ap + seq![Step::Close] + af;
    assert(body =~= o + rest);
    let wo = seq![Step::Open(w, parent_tree.data_of(0))];
    assert(ws == wo + body + seq![Step::Close]);
    lemma_open_records_concat(wo + body, seq![Step::Close]);
    lemma_open_records_concat(wo, body);
    lemma_open_records_concat(o, rest);
    assert(open_records(seq![Step::Close]) =~= Seq::<(ArenaNode, Seq<u8>)>::empty()) by {
        assert(seq![Step::Close].drop_last() =~= Seq::<Step>::empty());
        reveal_with_fuel(open_records, 2);
    }
    assert(open_records(wo) =~= seq![(w, parent_tree.data_of(0))]) by {
        assert(wo.drop_last() =~= Seq::<Step>::empty());
        reveal_with_fuel(open_records, 2);
    }
    assert(open_records(o) =~= seq![(n, a.data_of(id as int))]) by {
        assert(o.drop_last() =~= Seq::<Step>::empty());
        reveal_with_fuel(open_records, 2);
    }
    let recs = open_records(ws);
    assert(recs[0] == (w, parent_tree.data_of(0)));
    assert(recs[1] == (n, a.data_of(id as int)));
    lemma_apply_records_from(st, ws);
    assert(copies_record(apply_steps(st, ws).0[st.0.len() as int + 0], apply_steps(st, ws).2, recs[0].0, recs[0].1));
    assert(copies_record(apply_steps(st, ws).0[st.0.len() as int + 1], apply_steps(st, ws).2, recs[1].0, recs[1].1));
}


/// Rebuilding with one patch that wraps the root in the root of a
/// non-empty `parent_tree`: the new root copies that wrapper (kind,
/// position, type-data bytes), the next node copies the old root, and that
/// copy is the new root's only child.
pub proof fn law_rebuild_wrap_root(a: Arena, parent_tree: Arena, r: Arena)
    requires
        parent_tree.nodes_view().len() > 0,
        rebuild_ok(a, seq![Patch::Wrap { node_id: 0, parent_tree }]),
        2 * opens(rebuild_plan(a, seq![Patch::Wrap { node_id: 0, parent_tree }])) <= u32::MAX,
        data_total(rebuild_plan(a, seq![Patch::Wrap { node_id: 0, parent_tree }])) <= u32::MAX,
        r.nodes_view() == apply_steps(empty_state(), rebuild_plan(a, seq![Patch::Wrap { node_id: 0, parent_tree }])).0,
        r.type_data_view() == apply_steps(empty_state(), rebuild_plan(a, seq![Patch::Wrap { node_id: 0, parent_tree }])).2,
        r.children_view() == apply_steps(empty_state(), rebuild_plan(a, seq![Patch::Wrap { node_id: 0, parent_tree }])).1,
    ensures
        r.nodes_view().len() >= 2,
        r.nodes_view()[0].children_count == 1,
        r.nodes_view()[0].children_start == (r.children_view().len() - 1) as u32,
        r.children_view().len() >= 1 && r.children_view().last() == 1,
        r.nodes_view()[1].parent == 0,
        copies_record(r.nodes_view()[0], r.type_data_view(), parent_tree.nodes_view()[0], parent_tree.data_of(0)),
        copies_record(r.nodes_view()[1], r.type_data_view(), a.nodes_view()[0], a.data_of(0)),
{
    let p = Patch::Wrap { node_id: 0, parent_tree };
    let ps = seq![p];
    let fuel = choose|fuel: nat| #[trigger] rebuild_steps(a, ps, fuel) is Some;
    assert(ps.drop_last() =~= Seq::<Patch>::empty());
    assert(deleted_set(ps) == deleted_set(Seq::<Patch>::empty()));
    assert(!deleted_set(ps).contains(0));
    assert(index_map(Seq::<Patch>::empty()) == Map::<u32, usize>::empty());
    assert(p.target() == 0);
    assert(index_map(ps) =~= Map::<u32, usize>::empty().insert(0, 0));
    assert(patch_for(ps, 0) == Some(p));
    assert(rebuild_plan(a, ps) == wrap_steps(parent_tree, a, ps, 0, fuel)->0);
    law_wrap_opens_wrapper_then_node(parent_tree, a, ps, 0, fuel, empty_state());
    law_wrap_makes_node_the_only_child(parent_tree, a, ps, 0, fuel, empty_state());
}


/// Steps keep the open frames below the top one and the top one's node.
pub open spec fn keeps_frames(f0: Seq<(u32, Seq<u32>)>, f1: Seq<(u32, Seq<u32>)>) -> bool {
    &&& f0.len() >= 1
    &&& f1.len() == f0.len()
    &&& f1.drop_last() == f0.drop_last()
    &&& f1.last().0 == f0.last().0
}

proof fn lemma_keeps_frames_concat(st: BuildState, x: Seq<Step>, y: Seq<Step>)
    requires
        keeps_frames(st.3, apply_steps(st, x).3),
        keeps_frames(apply_steps(st, x).3, apply_steps(apply_steps(st, x), y).3),
    ensures
        keeps_frames(st.3, apply_steps(st, x + y).3),
{
    lemma_apply_concat(st, x, y);
}

proof fn lemma_single_step(st: BuildState, s: Step)
    ensures
        apply_steps(st, seq![s]) == apply_step(st, s),
{
    assert(seq![s].drop_last() =~= Seq::<Step>::empty());
    assert(apply_steps(st, Seq::<Step>::empty()) == st);
    assert(apply_steps(st, seq![s]) == apply_step(apply_steps(st, seq![s].drop_last()), seq![s].last()));
}

/// A subtree's steps, an open, steps that keep the frames, and a close,
/// keep the frames.
proof fn lemma_keeps_frames_unit(st: BuildState, n: ArenaNode, d: Seq<u8>, inner: Seq<Step>)
    requires
        st.3.len() >= 1,
        keeps_frames(apply_step(st, Step::Open(n, d)).3, apply_steps(apply_step(st, Step::Open(n, d)), inner).3),
    ensures
        keeps_frames(st.3, apply_steps(st, seq![Step::Open(n, d)] + inner + seq![Step::Close]).3),
{
    let o = seq![Step::Open(n, d)];
    let c = seq![Step::Close];
    lemma_single_step(st, Step::Open(n, d));
    let s1 = apply_step(st, Step::Open(n, d));
    let s2 = apply_steps(s1, inner);
    lemma_apply_concat(st, o, inner);
    lemma_apply_concat(st, o + inner, c);
    lemma_single_step(s2, Step::Close);
    let fs = s2.3;
    assert(fs.len() == st.3.len() + 1);
    assert(fs.drop_last() == st.3);
    assert(fs[fs.len() - 2] == st.3.last());
    let f3 = apply_step(s2, Step::Close).3;
    assert(f3.drop_last() =~= st.3.drop_last());
}

proof fn lemma_emit_keeps(sub: Arena, id: int, fuel: nat, st: BuildState)
    requires
        st.3.len() >= 1,
        emit_steps(sub, id, fuel) is Some,
    ensures
        keeps_frames(st.3, apply_steps(st, emit_steps(sub, id, fuel)->0).3),
    decreases fuel, 0nat,
{
    let n = sub.nodes_view()[id];
    let d = sub.data_of(id);
    let ks = emit_kids(sub, sub.children_of(id), (fuel - 1) as nat)->0;
    lemma_single_step(st, Step::Open(n, d));
    lemma_emit_kids_keeps(sub, sub.children_of(id), (fuel - 1) as nat, apply_step(st, Step::Open(n, d)));
    lemma_keeps_frames_unit(st, n, d, ks);
}

proof fn lemma_emit_kids_keeps(sub: Arena, kids: Seq<u32>, fuel: nat, st: BuildState)
    requires
        st.3.len() >= 1,
        emit_kids(sub, kids, fuel) is Some,
    ensures
        keeps_frames(st.3, apply_steps(st, emit_kids(sub, kids, fuel)->0).3),
    decreases fuel, kids.len() + 1,
{
    if kids.len() == 0 {
        assert(apply_steps(st, Seq::<Step>::empty()) == st);
    } else {
        let x = emit_kids(sub, kids.drop_last(), fuel)->0;
        let y = emit_steps(sub, kids.last() as int, fuel)->0;
        lemma_emit_kids_keeps(sub, kids.drop_last(), fuel, st);
        lemma_emit_keeps(sub, kids.last() as int, fuel, apply_steps(st, x));
        lemma_keeps_frames_concat(st, x, y);
    }
}

proof fn lemma_tree_keeps(sub: Arena, fuel: nat, st: BuildState)
    requires
        st.3.len() >= 1,
        tree_steps(sub, fuel) is Some,
    ensures
        keeps_frames(st.3, apply_steps(st, tree_steps(sub, fuel)->0).3),
{
    if sub.nodes_view().len() == 0 {
        assert(apply_steps(st, Seq::<Step>::empty()) == st);
    } else {
        lemma_emit_keeps(sub, 0, fuel, st);
    }
}

proof fn lemma_patch_steps_keep(ps: Seq<Patch>, id: u32, fuel: nat, st: BuildState)
    requires
        st.3.len() >= 1,
    ensures
        before_steps(ps, id, fuel) matches Some(x) ==> keeps_frames(st.3, apply_steps(st, x).3),
        prepend_steps(ps, id, fuel) matches Some(x) ==> keeps_frames(st.3, apply_steps(st, x).3),
        append_steps(ps, id, fuel) matches Some(x) ==> keeps_frames(st.3, apply_steps(st, x).3),
        after_steps(ps, id, fuel) matches Some(x) ==> keeps_frames(st.3, apply_steps(st, x).3),
        deleted_steps(ps, id, fuel) matches Some(x) ==> keeps_frames(st.3, apply_steps(st, x).3),
{
    assert(apply_steps(st, Seq::<Step>::empty()) == st);
    match patch_for(ps, id) {
        Some(Patch::InsertBefore { new_tree, .. }) => {
            if tree_steps(new_tree, fuel) is Some {
                lemma_tree_keeps(new_tree, fuel, st);
            }
        },
        Some(Patch::InsertAfter { new_tree, .. }) => {
            if tree_steps(new_tree, fuel) is Some {
                lemma_tree_keeps(new_tree, fuel, st);
            }
        },
        Some(Patch::Replace { new_tree, .. }) => {
            if tree_steps(new_tree, fuel) is Some {
                lemma_tree_keeps(new_tree, fuel, st);
            }
        },
        Some(Patch::PrependChild { child_tree, .. }) => {
            if tree_steps(child_tree, fuel) is Some {
                lemma_tree_keeps(child_tree, fuel, st);
            }
        },
        Some(Patch::AppendChild { child_tree, .. }) => {
            if tree_steps(child_tree, fuel) is Some {
                lemma_tree_keeps(child_tree, fuel, st);
            }
        },
        _ => {},
    }
}

proof fn lemma_copy_keeps(a: Arena, ps: Seq<Patch>, id: u32, fuel: nat, st: BuildState)
    requires
        st.3.len() >= 1,
        copy_steps(a, ps, id, fuel) is Some,
    ensures
        keeps_frames(st.3, apply_steps(st, copy_steps(a, ps, id, fuel)->0).3),
    decreases fuel, 2nat,
{
    if deleted_set(ps).contains(id) {
        lemma_patch_steps_keep(ps, id, (fuel - 1) as nat, st);
    } else {
        match patch_for(ps, id) {
            Some(Patch::Wrap { parent_tree, .. }) => {
                lemma_wrap_keeps(parent_tree, a, ps, id, fuel, st);
            },
            _ => {
                lemma_body_keeps(a, ps, id, fuel, st);
            },
        }
    }
}

proof fn lemma_wrap_keeps(parent_tree: Arena, a: Arena, ps: Seq<Patch>, id: u32, fuel: nat, st: BuildState)
    requires
        st.3.len() >= 1,
        wrap_steps(parent_tree, a, ps, id, fuel) is Some,
    ensures
        keeps_frames(st.3, apply_steps(st, wrap_steps(parent_tree, a, ps, id, fuel)->0).3),
    decreases fuel, 1nat,
{
    if parent_tree.nodes_view().len() == 0 {
        lemma_body_keeps(a, ps, id, fuel, st);
    } else {
        let w = parent_tree.nodes_view()[0];
        let d = parent_tree.data_of(0);
        lemma_single_step(st, Step::Open(w, d));
        lemma_body_keeps(a, ps, id, fuel, apply_step(st, Step::Open(w, d)));
        lemma_keeps_frames_unit(st, w, d, body_steps(a, ps, id, fuel)->0);
    }
}

proof fn lemma_body_keeps(a: Arena, ps: Seq<Patch>, id: u32, fuel: nat, st: BuildState)
    requires
        st.3.len() >= 1,
        body_steps(a, ps, id, fuel) is Some,
    ensures
        keeps_frames(st.3, apply_steps(st, body_steps(a, ps, id, fuel)->0).3),
    decreases fuel, 0nat,
{
    let f = (fuel - 1) as nat;
    let n = a.nodes_view()[id as int];
    let d = a.data_of(id as int);
    let bs = before_steps(ps, id, f)->0;
    let pr = prepend_steps(ps, id, f)->0;
    let ks = copy_kids(a, ps, a.children_of(id as int), f)->0;
    let ap = append_steps(ps, id, f)->0;
    let af = after_steps(ps, id, f)->0;
    let inner = pr + ks + ap;
    let unit = seq![Step::Open(n, d)] + inner + seq![Step::Close];
    assert(body_steps(a, ps, id, fuel)->0 =~= bs + unit + af);
    lemma_patch_steps_keep(ps, id, f, st);
    let s1 = apply_steps(st, bs);
    lemma_single_step(s1, Step::Open(n, d));
    let s2 = apply_step(s1, Step::Open(n, d));
    lemma_patch_steps_keep(ps, id, f, s2);
    let s3 = apply_steps(s2, pr);
    lemma_copy_kids_keeps(a, ps, a.children_of(id as int), f, s3);
    let s4 = apply_steps(s3, ks);
    lemma_patch_steps_keep(ps, id, f, s4);
    lemma_keeps_frames_concat(s2, pr, ks);
    lemma_keeps_frames_concat(s2, pr + ks, ap);
    lemma_keeps_frames_unit(s1, n, d, inner);
    lemma_keeps_frames_concat(st, bs, unit);
    let s5 = apply_steps(st, bs + unit);
    lemma_patch_steps_keep(ps, id, f, s5);
    lemma_keeps_frames_concat(st, bs + unit, af);
}

proof fn lemma_copy_kids_keeps(a: Arena, ps: Seq<Patch>, kids: Seq<u32>, fuel: nat, st: BuildState)
    requires
        st.3.len() >= 1,
        copy_kids(a, ps, kids, fuel) is Some,
    ensures
        keeps_frames(st.3, apply_steps(st, copy_kids(a, ps, kids, fuel)->0).3),
    decreases fuel, kids.len() + 3,
{
    if kids.len() == 0 {
        assert(apply_steps(st, Seq::<Step>::empty()) == st);
    } else {
        let c = kids.last();
        let x = copy_kids(a, ps, kids.drop_last(), fuel)->0;
        lemma_copy_kids_keeps(a, ps, kids.drop_last(), fuel, st);
        let s1 = apply_steps(st, x);
        if deleted_set(ps).contains(c) {
            lemma_patch_steps_keep(ps, c, fuel, s1);
            lemma_keeps_frames_concat(st, x, deleted_steps(ps, c, fuel)->0);
        } else {
            lemma_copy_keeps(a, ps, c, fuel, s1);
            lemma_keeps_frames_concat(st, x, copy_steps(a, ps, c, fuel)->0);
        }
    }
}


/// Wrapping node `id` in the root of a non-empty `parent_tree`, from
/// whatever state the builder is in: the wrapper's one child is the copy of
/// node `id` (the node opened right after it), whose parent is the wrapper.
pub proof fn law_wrap_makes_node_the_only_child(
    parent_tree: Arena,
    a: Arena,
    ps: Seq<Patch>,
    id: u32,
    fuel: nat,
    st: BuildState,
)
    requires
        parent_tree.nodes_view().len() > 0,
        patch_for(ps, id) == Some(Patch::Wrap { node_id: id, parent_tree }),
        wrap_steps(parent_tree, a, ps, id, fuel) is Some,
        st.0.len() + 2 <= u32::MAX,
    ensures
        ({
            let r = apply_steps(st, wrap_steps(parent_tree, a, ps, id, fuel)->0);
            let k = st.0.len() as int;
            &&& r.0.len() >= k + 2
            &&& r.0[k].children_count == 1
            &&& r.0[k].children_start == (r.1.len() - 1) as u32
            &&& r.1.len() >= 1 && r.1.last() == (k + 1) as u32
            &&& r.0[k + 1].parent == k as u32
        }),
{
    let k = st.0.len() as int;
    let ws = wrap_steps(parent_tree, a, ps, id, fuel)->0;
    let w = parent_tree.nodes_view()[0];
    let d0 = parent_tree.data_of(0);
    let f = (fuel - 1) as nat;
    let n = a.nodes_view()[id as int];
    let dn = a.data_of(id as int);
    let ks = copy_kids(a, ps, a.children_of(id as int), f)->0;
    let wo = seq![Step::Open(w, d0)];
    let o = seq![Step::Open(n, dn)];
    let c = seq![Step::Close];
    assert(ws =~= wo + o + ks + c + c);
    lemma_single_step(st, Step::Open(w, d0));
    let s1 = apply_step(st, Step::Open(w, d0));
    lemma_single_step(s1, Step::Open(n, dn));
    let s2 = apply_step(s1, Step::Open(n, dn));
    lemma_copy_kids_keeps(a, ps, a.children_of(id as int), f, s2);
    lemma_apply_counts(s2, ks);
    let s3 = apply_steps(s2, ks);
    lemma_single_step(s3, Step::Close);
    let s4 = apply_step(s3, Step::Close);
    lemma_single_step(s4, Step::Close);
    let s5 = apply_step(s4, Step::Close);
    lemma_apply_concat(st, wo, o);
    lemma_apply_concat(st, wo + o, ks);
    lemma_apply_concat(st, wo + o + ks, c);
    lemma_apply_concat(st, wo + o + ks + c, c);
    assert(apply_steps(st, ws) == s5);
    assert(s2.3 == st.3.push((k as u32, Seq::<u32>::empty())).push(((k + 1) as u32, Seq::<u32>::empty())));
    assert(s3.3.len() == s2.3.len());
    assert(s3.3.drop_last() == s2.3.drop_last());
    assert(s2.3.drop_last() =~= st.3.push((k as u32, Seq::<u32>::empty())));
    assert(s3.3[s3.3.len() - 2] == s3.3.drop_last()[s3.3.len() - 2]);
    assert(s3.3[s3.3.len() - 2] == (k as u32, Seq::<u32>::empty()));
    assert(s3.3.last().0 == (k + 1) as u32);
    assert(s4.3.last() == (k as u32, seq![(k + 1) as u32]));
    assert(s4.0.len() == s3.0.len());
    assert(seq![(k + 1) as u32][0] as int == k + 1);
    assert(lists_id(seq![(k + 1) as u32], k + 1));
    assert(s5.1 == s4.1 + seq![(k + 1) as u32]);
}

} // verus!
