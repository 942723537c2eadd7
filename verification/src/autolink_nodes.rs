//! Which text nodes of an arena the autolink pass splits: text that holds a
//! literal autolink, outside links, images, code, expressions and
//! frontmatter, with whether a `[` is still open before it in its
//! paragraph, heading or table cell.
use vstd::prelude::*;
use crate::arena::Arena;
use crate::node::NodeType;
use crate::codec::{decode_string_ref_data, read_ref};
use crate::autolink::{
    autolink_at, email_at, bracket_depth, scan_autolink_literal, scan_email_autolink,
    update_bracket_depth,
};

verus! {

/// The kind of node `id`.
pub open spec fn kind_of(a: Arena, id: int) -> Option<NodeType> {
    NodeType::spec_from_u8(a.nodes_view()[id].node_type)
}

/// Text under these kinds is never split: links, images, code, ESM,
/// expressions and frontmatter.
pub open spec fn ignored_parent(t: Option<NodeType>) -> bool {
    t == Some(NodeType::Link) || t == Some(NodeType::LinkReference) || t == Some(NodeType::Image)
        || t == Some(NodeType::ImageReference) || t == Some(NodeType::InlineCode) || t == Some(
        NodeType::Code,
    ) || t == Some(NodeType::MdxjsEsm) || t == Some(NodeType::MdxFlowExpression) || t == Some(
        NodeType::MdxTextExpression,
    ) || t == Some(NodeType::Yaml) || t == Some(NodeType::Toml)
}

/// The kinds across which brackets are tracked: paragraphs, headings and
/// table cells.
pub open spec fn inline_block(t: Option<NodeType>) -> bool {
    t == Some(NodeType::Paragraph) || t == Some(NodeType::Heading) || t == Some(NodeType::TableCell)
}

/// Walking up from `id` through at most `fuel` parents: the first
/// paragraph, heading or table cell, or the last node before the parent
/// link leaves the arena.
pub open spec fn block_of(a: Arena, id: int, fuel: nat) -> Option<int>
    decreases fuel,
{
    if fuel == 0 {
        None
    } else if inline_block(kind_of(a, id)) {
        Some(id)
    } else {
        let p = a.nodes_view()[id].parent;
        if p == u32::MAX || p >= a.nodes_view().len() {
            Some(id)
        } else {
            block_of(a, p as int, (fuel - 1) as nat)
        }
    }
}

/// The walk up from `id` ends.
pub open spec fn walk_ends(a: Arena, id: int) -> bool {
    exists|f: nat| #[trigger] block_of(a, id, f) is Some
}

/// Where the walk up from `id` ends.
pub open spec fn block_at(a: Arena, id: int) -> int {
    block_of(a, id, choose|f: nat| #[trigger] block_of(a, id, f) is Some)->0
}

/// The bytes of the text of node `id`.
pub open spec fn text_bytes(a: Arena, id: int) -> Seq<u8> {
    let r = read_ref(a.data_of(id), 0);
    a.source_bytes().subrange(r.offset as int, r.offset + r.len)
}

/// A literal autolink (URL or email) starts at or after `i`.
pub open spec fn has_link_from(t: Seq<u8>, i: int) -> bool
    decreases t.len() - i,
{
    if i < 0 || i >= t.len() {
        false
    } else {
        ((t[i] == 104 || t[i] == 119) && autolink_at(t, i) is Some) || (t[i] == 64 && email_at(t, i)
            is Some) || has_link_from(t, i + 1)
    }
}

/// The text holds a `[` or a `]`.
pub open spec fn has_bracket(t: Seq<u8>) -> bool {
    exists|k: int| 0 <= k < t.len() && (t[k] == 91 || t[k] == 93)
}

/// Node `id` is a text node the pass looks at: its parent is in the arena
/// and not of an ignored kind.
pub open spec fn considered(a: Arena, id: int) -> bool {
    let n = a.nodes_view()[id];
    &&& n.node_type == NodeType::Text.code()
    &&& n.parent != u32::MAX && n.parent < a.nodes_view().len()
    &&& !ignored_parent(kind_of(a, n.parent as int))
}

/// Visiting node `id` with per-block open flags `st` and candidates `cs`.
pub open spec fn visit(a: Arena, id: int, st: Seq<bool>, cs: Seq<(int, bool)>) -> (
    Seq<bool>,
    Seq<(int, bool)>,
) {
    if !considered(a, id) {
        (st, cs)
    } else {
        let b = block_at(a, a.nodes_view()[id].parent as int);
        let tracks = inline_block(kind_of(a, b));
        if a.data_of(id).len() == 0 {
            (st, cs)
        } else {
            let t = text_bytes(a, id);
            let matched = has_link_from(t, 0);
            if tracks {
                let was = st[b];
                let cs2 = if matched {
                    cs.push((id, was))
                } else {
                    cs
                };
                let now = if has_bracket(t) {
                    bracket_depth(t, 0, if was {
                        1
                    } else {
                        0
                    }) > 0
                } else {
                    was
                };
                (st.update(b, now), cs2)
            } else if matched {
                (st, cs.push((id, false)))
            } else {
                (st, cs)
            }
        }
    }
}

/// The flags and candidates after visiting nodes `[0, n)` in order.
pub open spec fn select(a: Arena, n: int) -> (Seq<bool>, Seq<(int, bool)>)
    decreases n,
{
    if n <= 0 {
        (Seq::new(a.nodes_view().len(), |i: int| false), Seq::empty())
    } else {
        let prev = select(a, n - 1);
        visit(a, n - 1, prev.0, prev.1)
    }
}

/// The arenas the pass can run on: well-formed, ids fit in `u32`, the walk
/// up from every considered text node ends, and every considered text node
/// with data points at text of the source.
pub open spec fn pass_ok(a: Arena) -> bool {
    &&& a.well_formed()
    &&& a.nodes_view().len() < u32::MAX
    &&& forall|id: int|
        0 <= id < a.nodes_view().len() && #[trigger] considered(a, id) ==> {
            &&& walk_ends(a, a.nodes_view()[id].parent as int)
            &&& a.data_of(id).len() > 0 ==> {
                &&& a.data_of(id).len() >= 8
                &&& a.str_ok(read_ref(a.data_of(id), 0))
                &&& text_bytes(a, id).len() < i32::MAX
            }
        }
}

/// The candidates as node ids with their flags.
pub open spec fn candidate_pairs(v: Seq<(u32, bool)>) -> Seq<(int, bool)> {
    v.map_values(|p: (u32, bool)| (p.0 as int, p.1))
}

fn is_inline_block(t: Option<NodeType>) -> (r: bool)
    ensures
        r == inline_block(t),
{
    match t {
        Some(NodeType::Paragraph) | Some(NodeType::Heading) | Some(NodeType::TableCell) => true,
        _ => false,
    }
}

fn is_ignored_parent(t: Option<NodeType>) -> (r: bool)
    ensures
        r == ignored_parent(t),
{
    match t {
        Some(NodeType::Link) | Some(NodeType::LinkReference) | Some(NodeType::Image) | Some(
            NodeType::ImageReference,
        ) | Some(NodeType::InlineCode) | Some(NodeType::Code) | Some(NodeType::MdxjsEsm) | Some(
            NodeType::MdxFlowExpression,
        ) | Some(NodeType::MdxTextExpression) | Some(NodeType::Yaml) | Some(NodeType::Toml) => true,
        _ => false,
    }
}

/// Walks up from `start` to its paragraph, heading or table cell.
fn find_block(arena: &Arena, start: u32) -> (r: u32)
    requires
        arena.has_node(start as int),
        walk_ends(*arena, start as int),
    ensures
        r as int == block_at(*arena, start as int),
        arena.has_node(r as int),
{
    let ghost a = *arena;
    let ghost f0 = choose|f: nat| #[trigger] block_of(a, start as int, f) is Some;
    assert(block_of(a, start as int, f0) is Some);
    assert(block_at(a, start as int) == block_of(a, start as int, f0)->0);
    let ghost mut f = f0;
    let len = arena.len();
    let mut b = start;
    loop
        invariant
            arena.has_node(b as int),
            a == *arena,
            len == a.nodes_view().len(),
            block_of(a, b as int, f) == block_of(a, start as int, f0),
            block_of(a, b as int, f) is Some,
            block_at(a, start as int) == block_of(a, start as int, f0)->0,
        decreases f,
    {
        let node = arena.get_node(b);
        let ty = NodeType::from_u8(node.node_type);
        if is_inline_block(ty) {
            return b;
        }
        let p = node.parent;
        if p == u32::MAX || p as usize >= len {
            return b;
        }
        b = p;
        proof {
            f = (f - 1) as nat;
        }
    }
}

/// Whether a literal autolink starts anywhere in `bytes`.
fn has_autolink(bytes: &[u8]) -> (r: bool)
    ensures
        r == has_link_from(bytes@, 0),
{
    let len = bytes.len();
    let mut i: usize = 0;
    while i < len
        invariant
            i <= len == bytes@.len(),
            has_link_from(bytes@, i as int) == has_link_from(bytes@, 0),
        decreases len - i,
    {
        let rest = vstd::slice::slice_subrange(bytes, i, len);
        match crate::autolink_pass::memchr3_find(104, 119, 64, rest) {
            None => {
                proof {
                    assert forall|j: int| i <= j < len implies bytes@[j] != 104 && bytes@[j] != 119
                        && bytes@[j] != 64 by {
                        assert(rest@[j - i] == bytes@[j]);
                    }
                    lemma_no_link_from(bytes@, i as int, len as int);
                }
                return false;
            },
            Some(rel) => {
                proof {
                    assert forall|j: int| i <= j < i + rel implies bytes@[j] != 104 && bytes@[j]
                        != 119 && bytes@[j] != 64 by {
                        assert(rest@[j - i] == bytes@[j]);
                    }
                    lemma_skip_to(bytes@, i as int, i + rel);
                    assert(rest@[rel as int] == bytes@[i + rel]);
                }
                let k = i + rel;
                let b = bytes[k];
                if (b == 104 || b == 119) && scan_autolink_literal(bytes, k).is_some() {
                    return true;
                }
                if b == 64 && scan_email_autolink(bytes, k).is_some() {
                    return true;
                }
                i = k + 1;
            },
        }
    }
    false
}

proof fn lemma_skip_to(t: Seq<u8>, i: int, k: int)
    requires
        0 <= i <= k <= t.len(),
        forall|j: int| i <= j < k ==> t[j] != 104 && t[j] != 119 && t[j] != 64,
    ensures
        has_link_from(t, i) == has_link_from(t, k),
    decreases k - i,
{
    if i < k {
        lemma_skip_to(t, i + 1, k);
    }
}

proof fn lemma_no_link_from(t: Seq<u8>, i: int, n: int)
    requires
        0 <= i <= n == t.len(),
        forall|j: int| i <= j < n ==> t[j] != 104 && t[j] != 119 && t[j] != 64,
    ensures
        !has_link_from(t, i),
    decreases n - i,
{
    if i < n {
        lemma_no_link_from(t, i + 1, n);
    }
}

/// The text nodes that the autolink pass splits, in order of their ids,
/// each with whether a `[` is still open before it in its paragraph,
/// heading or table cell.
pub fn autolink_text_nodes(arena: &Arena) -> (r: Vec<(u32, bool)>)
    requires
        pass_ok(*arena),
    ensures
        candidate_pairs(r@) == select(*arena, arena.nodes_view().len() as int).1,
{
    let ghost a = *arena;
    let len = arena.len();
    let mut open_by_block: Vec<bool> = Vec::new();
    let mut k: usize = 0;
    while k < len
        invariant
            k <= len == a.nodes_view().len(),
            open_by_block@.len() == k,
            forall|j: int| 0 <= j < k ==> !open_by_block@[j],
        decreases len - k,
    {
        open_by_block.push(false);
        k += 1;
    }
    assert(open_by_block@ =~= select(a, 0).0);
    let mut candidates: Vec<(u32, bool)> = Vec::new();
    assert(candidate_pairs(candidates@) =~= select(a, 0).1);
    let mut id: usize = 0;
    while id < len
        invariant
            id <= len == a.nodes_view().len() < u32::MAX,
            a == *arena,
            pass_ok(a),
            open_by_block@ == select(a, id as int).0,
            candidate_pairs(candidates@) == select(a, id as int).1,
            open_by_block@.len() == len,
        decreases len - id,
    {
        let ghost st = open_by_block@;
        let ghost cs = candidate_pairs(candidates@);
        assert(select(a, id + 1) == visit(a, id as int, st, cs));
        let node = *arena.get_node(id as u32);
        if node.node_type != NodeType::Text.as_u8() {
            id += 1;
            continue;
        }
        let parent_id = node.parent;
        if parent_id == u32::MAX || parent_id as usize >= len {
            id += 1;
            continue;
        }
        let parent_type = NodeType::from_u8(arena.get_node(parent_id).node_type);
        if is_ignored_parent(parent_type) {
            id += 1;
            continue;
        }
        assert(considered(a, id as int));
        let block_id = find_block(arena, parent_id);
        let tracks = is_inline_block(NodeType::from_u8(arena.get_node(block_id).node_type));
        let data = arena.get_type_data(id as u32);
        if data.len() == 0 {
            id += 1;
            continue;
        }
        let sr = decode_string_ref_data(data);
        let text = arena.get_str(sr);
        let bytes = text.as_bytes();
        let matched = has_autolink(bytes);
        if tracks {
            let was_open = open_by_block[block_id as usize];
            if matched {
                candidates.push((id as u32, was_open));
            }
            if crate::autolink_pass::memchr2_find(91, 93, bytes).is_some() {
                let now_open = update_bracket_depth(was_open, text);
                open_by_block.set(block_id as usize, now_open);
            } else {
                proof {
                    assert(!has_bracket(bytes@));
                }
            }
        } else if matched {
            candidates.push((id as u32, false));
        }
        proof {
            assert(candidate_pairs(candidates@) =~= visit(a, id as int, st, cs).1);
            assert(open_by_block@ =~= visit(a, id as int, st, cs).0);
        }
        id += 1;
    }
    candidates
}

} // verus!
