use tryckeri::arena::Arena;
use tryckeri::builder::ArenaBuilder;
use tryckeri::codec::encode_string_ref_data;
use tryckeri::node::{NodeType, StringRef};
use tryckeri::rebuild::{rebuild, Patch};

/// The type data of a heading of the given depth (one byte).
fn encode_heading_data(depth: u8) -> Vec<u8> {
    vec![depth]
}

/// Build the standard "# Hello\n\nWorld" test arena.
///
/// Tree structure:
///   Root (0)
///     Heading depth=1 (1)
///       Text "Hello" (2)
///     Paragraph (3)
///       Text "World" (4)
fn build_hello_world() -> Arena {
    let source = "# Hello\n\nWorld".to_string();
    let mut b = ArenaBuilder::new(source);

    b.open_node(NodeType::Root);
    b.set_position_current(0, 14, 1, 1, 2, 6);

    b.open_node(NodeType::Heading);
    b.set_position_current(0, 7, 1, 1, 1, 8);
    b.set_data_current(&encode_heading_data(1));

    b.open_node(NodeType::Text);
    b.set_position_current(2, 7, 1, 3, 1, 8);
    b.set_data_current(&encode_string_ref_data(StringRef::new(2, 5)));
    b.close_node();

    b.close_node(); // heading

    b.open_node(NodeType::Paragraph);
    b.set_position_current(9, 14, 2, 1, 2, 6);

    b.open_node(NodeType::Text);
    b.set_position_current(9, 14, 2, 1, 2, 6);
    b.set_data_current(&encode_string_ref_data(StringRef::new(9, 5)));
    b.close_node();

    b.close_node(); // paragraph
    b.close_node(); // root

    b.finish()
}

/// Helper: make a small single-node sub-arena for use in patches.
fn single_node_arena(node_type: NodeType) -> Arena {
    let mut b = ArenaBuilder::new(String::new());
    b.open_node(node_type);
    b.close_node();
    b.finish()
}

// ── Test 1: Empty patches ────────────────────────────────────────────────────

/// Empty patches → same structure (all nodes preserved, just fresh IDs).
#[test]
fn empty_patches_preserves_all_nodes() {
    let orig = build_hello_world();
    let rebuilt = rebuild(&orig, &[]);

    assert_eq!(rebuilt.len(), orig.len(), "node count unchanged");

    // Tree shape: Root → [Heading → [Text], Paragraph → [Text]]
    assert_eq!(rebuilt.get_children(0).len(), 2);
    let h = rebuilt.get_children(0)[0];
    let p = rebuilt.get_children(0)[1];
    assert_eq!(rebuilt.get_node(h).node_type, NodeType::Heading.as_u8());
    assert_eq!(rebuilt.get_node(p).node_type, NodeType::Paragraph.as_u8());
    assert_eq!(rebuilt.get_children(h).len(), 1);
    assert_eq!(rebuilt.get_children(p).len(), 1);
}

// ── Test 2: Remove a leaf node ───────────────────────────────────────────────

/// Remove the Text inside Heading → heading becomes childless, 4 nodes total.
#[test]
fn rebuild_remove_leaf_node() {
    let orig = build_hello_world();
    let heading_id = orig.get_children(0)[0];
    let text_in_heading = orig.get_children(heading_id)[0];

    let rebuilt = rebuild(
        &orig,
        &[Patch::Remove {
            node_id: text_in_heading,
        }],
    );

    assert_eq!(rebuilt.len(), 4, "one node removed");
    let new_h = rebuilt.get_children(0)[0];
    assert_eq!(rebuilt.get_node(new_h).node_type, NodeType::Heading.as_u8());
    assert_eq!(
        rebuilt.get_children(new_h).len(),
        0,
        "heading has no children now"
    );

    // Paragraph + its Text are still present
    let new_p = rebuilt.get_children(0)[1];
    assert_eq!(rebuilt.get_node(new_p).node_type, NodeType::Paragraph.as_u8());
    assert_eq!(rebuilt.get_children(new_p).len(), 1);
}

// ── Test 3: Remove a non-leaf node ───────────────────────────────────────────

/// Remove the Heading (and its subtree) → Root + Paragraph + Text = 3 nodes.
#[test]
fn rebuild_remove_non_leaf_removes_subtree() {
    let orig = build_hello_world();
    let heading_id = orig.get_children(0)[0];

    let rebuilt = rebuild(
        &orig,
        &[Patch::Remove {
            node_id: heading_id,
        }],
    );

    assert_eq!(rebuilt.len(), 3, "heading + its text child removed");
    let root_children = rebuilt.get_children(0);
    assert_eq!(root_children.len(), 1);
    assert_eq!(
        rebuilt.get_node(root_children[0]).node_type,
        NodeType::Paragraph.as_u8()
    );
}

// ── Test 4: Replace a leaf node ──────────────────────────────────────────────

/// Replace Text under Heading with ThematicBreak.
#[test]
fn rebuild_replace_leaf_node() {
    let orig = build_hello_world();
    let heading_id = orig.get_children(0)[0];
    let text_id = orig.get_children(heading_id)[0];

    let replacement = single_node_arena(NodeType::ThematicBreak);
    let rebuilt = rebuild(
        &orig,
        &[Patch::Replace {
            node_id: text_id,
            new_tree: replacement,
        }],
    );

    assert_eq!(
        rebuilt.len(),
        orig.len(),
        "same node count (1-for-1 replacement)"
    );
    let new_h = rebuilt.get_children(0)[0];
    let child_of_h = rebuilt.get_children(new_h)[0];
    assert_eq!(
        rebuilt.get_node(child_of_h).node_type,
        NodeType::ThematicBreak.as_u8()
    );
}

// ── Test 5: Replace root's child with a different node type ──────────────────

/// Replace Heading (and its subtree) with a new Paragraph (no children).
#[test]
fn rebuild_replace_root_child_with_different_type() {
    let orig = build_hello_world();
    let heading_id = orig.get_children(0)[0];

    let replacement = single_node_arena(NodeType::Paragraph);
    let rebuilt = rebuild(
        &orig,
        &[Patch::Replace {
            node_id: heading_id,
            new_tree: replacement,
        }],
    );

    // The heading + its text child (2 nodes) are replaced by 1 Paragraph
    // So: Root + new Paragraph + original Paragraph + Text(World) = 4 nodes
    assert_eq!(rebuilt.len(), 4);
    let root_children = rebuilt.get_children(0);
    assert_eq!(root_children.len(), 2);
    // First child is now a Paragraph (the replacement)
    assert_eq!(
        rebuilt.get_node(root_children[0]).node_type,
        NodeType::Paragraph.as_u8()
    );
    // Second child is still the original Paragraph
    assert_eq!(
        rebuilt.get_node(root_children[1]).node_type,
        NodeType::Paragraph.as_u8()
    );
}

// ── Test 6: Insert before a node ─────────────────────────────────────────────

/// Insert ThematicBreak before Paragraph → Root has 3 children.
#[test]
fn rebuild_insert_before_node() {
    let orig = build_hello_world();
    let para_id = orig.get_children(0)[1];

    let new_tree = single_node_arena(NodeType::ThematicBreak);
    let rebuilt = rebuild(
        &orig,
        &[Patch::InsertBefore {
            node_id: para_id,
            new_tree,
        }],
    );

    let root_children = rebuilt.get_children(0);
    assert_eq!(root_children.len(), 3);
    assert_eq!(
        rebuilt.get_node(root_children[0]).node_type,
        NodeType::Heading.as_u8()
    );
    assert_eq!(
        rebuilt.get_node(root_children[1]).node_type,
        NodeType::ThematicBreak.as_u8()
    );
    assert_eq!(
        rebuilt.get_node(root_children[2]).node_type,
        NodeType::Paragraph.as_u8()
    );
}

// ── Test 7: Insert after a node ──────────────────────────────────────────────

/// Insert ThematicBreak after Heading → Root has 3 children.
#[test]
fn rebuild_insert_after_node() {
    let orig = build_hello_world();
    let heading_id = orig.get_children(0)[0];

    let new_tree = single_node_arena(NodeType::ThematicBreak);
    let rebuilt = rebuild(
        &orig,
        &[Patch::InsertAfter {
            node_id: heading_id,
            new_tree,
        }],
    );

    let root_children = rebuilt.get_children(0);
    assert_eq!(root_children.len(), 3);
    assert_eq!(
        rebuilt.get_node(root_children[0]).node_type,
        NodeType::Heading.as_u8()
    );
    assert_eq!(
        rebuilt.get_node(root_children[1]).node_type,
        NodeType::ThematicBreak.as_u8()
    );
    assert_eq!(
        rebuilt.get_node(root_children[2]).node_type,
        NodeType::Paragraph.as_u8()
    );
}

// ── Test 8: Append child ─────────────────────────────────────────────────────

/// Append a Break node to Heading → Heading now has 2 children.
#[test]
fn rebuild_append_child() {
    let orig = build_hello_world();
    let heading_id = orig.get_children(0)[0];

    let child_tree = single_node_arena(NodeType::Break);
    let rebuilt = rebuild(
        &orig,
        &[Patch::AppendChild {
            node_id: heading_id,
            child_tree,
        }],
    );

    let new_h = rebuilt.get_children(0)[0];
    let h_children = rebuilt.get_children(new_h);
    assert_eq!(h_children.len(), 2);
    assert_eq!(
        rebuilt.get_node(h_children[0]).node_type,
        NodeType::Text.as_u8()
    );
    assert_eq!(
        rebuilt.get_node(h_children[1]).node_type,
        NodeType::Break.as_u8()
    );
}

// ── Test 9: Prepend child ────────────────────────────────────────────────────

/// Prepend a Break node to Heading → Heading now has 2 children (Break first).
#[test]
fn rebuild_prepend_child() {
    let orig = build_hello_world();
    let heading_id = orig.get_children(0)[0];

    let child_tree = single_node_arena(NodeType::Break);
    let rebuilt = rebuild(
        &orig,
        &[Patch::PrependChild {
            node_id: heading_id,
            child_tree,
        }],
    );

    let new_h = rebuilt.get_children(0)[0];
    let h_children = rebuilt.get_children(new_h);
    assert_eq!(h_children.len(), 2);
    assert_eq!(
        rebuilt.get_node(h_children[0]).node_type,
        NodeType::Break.as_u8()
    );
    assert_eq!(
        rebuilt.get_node(h_children[1]).node_type,
        NodeType::Text.as_u8()
    );
}

// ── Test 10: Multiple patches in one rebuild ──────────────────────────────────

/// Remove heading AND insert ThematicBreak after paragraph.
#[test]
fn rebuild_multiple_patches_applied_together() {
    let orig = build_hello_world();
    let heading_id = orig.get_children(0)[0];
    let para_id = orig.get_children(0)[1];

    let new_tree = single_node_arena(NodeType::ThematicBreak);

    let patches = vec![
        Patch::Remove {
            node_id: heading_id,
        },
        Patch::InsertAfter {
            node_id: para_id,
            new_tree,
        },
    ];
    let rebuilt = rebuild(&orig, &patches);

    // Root → [Paragraph → [Text(World)], ThematicBreak]
    let root_children = rebuilt.get_children(0);
    assert_eq!(root_children.len(), 2);
    assert_eq!(
        rebuilt.get_node(root_children[0]).node_type,
        NodeType::Paragraph.as_u8()
    );
    assert_eq!(
        rebuilt.get_node(root_children[1]).node_type,
        NodeType::ThematicBreak.as_u8()
    );

    // Total: Root + Paragraph + Text(World) + ThematicBreak = 4 nodes
    assert_eq!(rebuilt.len(), 4);
}

// ── Extra: parent-child integrity ────────────────────────────────────────────

/// After rebuild, all parent references must be consistent.
#[test]
fn parent_references_consistent_after_rebuild() {
    let orig = build_hello_world();
    let para_id = orig.get_children(0)[1];

    let new_tree = single_node_arena(NodeType::ThematicBreak);
    let rebuilt = rebuild(
        &orig,
        &[Patch::InsertAfter {
            node_id: para_id,
            new_tree,
        }],
    );

    // Verify parent references for all non-root nodes
    let root = 0u32;
    for child_id in rebuilt.get_children(root) {
        let child = rebuilt.get_node(*child_id);
        assert_eq!(
            child.parent, root,
            "child of root should have root as parent"
        );

        for grandchild_id in rebuilt.get_children(*child_id) {
            let gc = rebuilt.get_node(*grandchild_id);
            assert_eq!(gc.parent, *child_id, "grandchild parent mismatch");
        }
    }
}

#[test]
fn empty_patches_preserves_structure() {
    let orig = build_hello_world();
    let rebuilt = rebuild(&orig, &[]);
    assert_eq!(rebuilt.len(), orig.len(), "node count must be the same");
    // Root still has 2 children
    assert_eq!(rebuilt.get_children(0).len(), 2);
}

#[test]
fn rebuild_keeps_source_positions_and_data() {
    let orig = build_hello_world();
    let rebuilt = rebuild(&orig, &[]);
    assert_eq!(rebuilt.source(), "# Hello\n\nWorld");
    for id in 0..orig.len() as u32 {
        let a = orig.get_node(id);
        let b = rebuilt.get_node(id);
        assert_eq!(a.node_type, b.node_type);
        assert_eq!((a.start_offset, a.end_offset, a.start_line, a.start_column, a.end_line, a.end_column),
                   (b.start_offset, b.end_offset, b.start_line, b.start_column, b.end_line, b.end_column));
        assert_eq!(orig.get_type_data(id), rebuilt.get_type_data(id));
        assert_eq!(orig.get_children(id), rebuilt.get_children(id));
    }
    assert_eq!(rebuilt.get_str(StringRef::new(9, 5)), "World");
}

#[test]
fn last_patch_for_a_node_wins() {
    let orig = build_hello_world();
    let para_id = orig.get_children(0)[1];
    let rebuilt = rebuild(
        &orig,
        &[
            Patch::InsertBefore { node_id: para_id, new_tree: single_node_arena(NodeType::ThematicBreak) },
            Patch::InsertAfter { node_id: para_id, new_tree: single_node_arena(NodeType::Break) },
        ],
    );
    let kids = rebuilt.get_children(0);
    assert_eq!(kids.len(), 3);
    assert_eq!(rebuilt.get_node(kids[1]).node_type, NodeType::Paragraph.as_u8());
    assert_eq!(rebuilt.get_node(kids[2]).node_type, NodeType::Break.as_u8());
}

#[test]
fn a_remove_anywhere_in_the_list_deletes_the_node() {
    let orig = build_hello_world();
    let heading_id = orig.get_children(0)[0];
    // The insert is the last patch for the heading, but the heading is
    // still removed, and nothing is inserted.
    let rebuilt = rebuild(
        &orig,
        &[
            Patch::Remove { node_id: heading_id },
            Patch::InsertAfter { node_id: heading_id, new_tree: single_node_arena(NodeType::Break) },
        ],
    );
    assert_eq!(rebuilt.len(), 3);
    assert_eq!(rebuilt.get_children(0).len(), 1);
}

#[test]
fn removing_or_replacing_the_root() {
    let orig = build_hello_world();
    let removed = rebuild(&orig, &[Patch::Remove { node_id: 0 }]);
    assert_eq!(removed.len(), 0);
    let replaced = rebuild(&orig, &[Patch::Replace { node_id: 0, new_tree: single_node_arena(NodeType::Blockquote) }]);
    assert_eq!(replaced.len(), 1);
    assert_eq!(replaced.get_node(0).node_type, NodeType::Blockquote.as_u8());
    assert_eq!(replaced.source(), orig.source());
}

#[test]
fn inserted_subtrees_are_copied_whole() {
    let orig = build_hello_world();
    let mut b = ArenaBuilder::new(String::new());
    b.open_node(NodeType::List);
    b.open_node(NodeType::ListItem);
    b.add_leaf(NodeType::Text);
    b.close_node();
    b.add_leaf(NodeType::ListItem);
    b.close_node();
    let list = b.finish();
    let rebuilt = rebuild(&orig, &[Patch::AppendChild { node_id: 0, child_tree: list }]);
    assert_eq!(rebuilt.len(), 9);
    let kids = rebuilt.get_children(0);
    assert_eq!(kids.len(), 3);
    let new_list = kids[2];
    assert_eq!(rebuilt.get_node(new_list).node_type, NodeType::List.as_u8());
    assert_eq!(rebuilt.get_children(new_list).len(), 2);
    let first_item = rebuilt.get_children(new_list)[0];
    assert_eq!(rebuilt.get_children(first_item).len(), 1);
    assert_eq!(rebuilt.get_node(first_item).parent, new_list);
}

#[test]
fn wrap_puts_the_node_inside_the_wrapper() {
    let arena = build_hello_world();
    let wrapper = single_node_arena(NodeType::Blockquote);
    let patches = vec![Patch::Wrap { node_id: 3, parent_tree: wrapper }];
    let r = rebuild(&arena, &patches);
    assert_eq!(r.len(), 6);
    assert_eq!(r.get_children(0), &[1, 3]);
    assert_eq!(r.get_node(3).node_type, NodeType::Blockquote.as_u8());
    assert_eq!(r.get_children(3), &[4]);
    assert_eq!(r.get_node(4).node_type, NodeType::Paragraph.as_u8());
    assert_eq!(r.get_node(4).parent, 3);
    assert_eq!(r.get_children(4), &[5]);
    assert_eq!(r.get_node(5).node_type, NodeType::Text.as_u8());
    assert_eq!((r.get_node(4).start_offset, r.get_node(4).end_offset), (9, 14));
}

#[test]
fn wrap_with_an_empty_wrapper_copies_the_node() {
    let arena = build_hello_world();
    let empty = ArenaBuilder::new(String::new()).finish();
    let patches = vec![Patch::Wrap { node_id: 3, parent_tree: empty }];
    let r = rebuild(&arena, &patches);
    assert_eq!(r.len(), 5);
    assert_eq!(r.get_children(0), &[1, 3]);
    assert_eq!(r.get_node(3).node_type, NodeType::Paragraph.as_u8());
}
