use tryckeri::builder::ArenaBuilder;
use tryckeri::node::{NodeType, NO_PARENT};

#[test]
fn simple_open_close() {
    let mut builder = ArenaBuilder::new("# Hello".to_string());
    let root = builder.open_node(NodeType::Root);
    let heading = builder.open_node(NodeType::Heading);
    let text = builder.add_leaf(NodeType::Text);
    let heading_closed = builder.close_node();
    let root_closed = builder.close_node();
    assert_eq!(heading_closed, heading);
    assert_eq!(root_closed, root);

    let arena = builder.finish();
    assert_eq!(arena.len(), 3);
    assert_eq!(arena.get_children(root), &[heading]);
    assert_eq!(arena.get_children(heading), &[text]);
    assert_eq!(arena.get_node(text).parent, heading);
    assert_eq!(arena.get_node(heading).parent, root);
}

#[test]
fn finish_closes_open_nodes() {
    let mut builder = ArenaBuilder::new(String::new());
    builder.open_node(NodeType::Root);
    builder.open_node(NodeType::Paragraph);
    builder.add_leaf(NodeType::Text);
    // Do NOT close explicitly — finish() should handle it.
    let arena = builder.finish();
    assert_eq!(arena.len(), 3);
}

#[test]
fn leaf_has_no_children() {
    let mut builder = ArenaBuilder::new(String::new());
    builder.open_node(NodeType::Root);
    let leaf = builder.add_leaf(NodeType::Break);
    builder.close_node();
    let arena = builder.finish();
    assert_eq!(arena.get_children(leaf), &[]);
}

#[test]
fn position_and_data_current() {
    let mut builder = ArenaBuilder::new("hello".to_string());
    let id = builder.open_node(NodeType::Text);
    builder.set_position_current(0, 5, 1, 1, 1, 6);
    builder.set_data_current(&[42u8]);
    builder.close_node();
    let arena = builder.finish();
    let node = arena.get_node(id);
    assert_eq!(node.start_offset, 0);
    assert_eq!(node.end_offset, 5);
    assert_eq!(node.data_len, 1);
}

#[test]
fn finish_links_unclosed_nodes_like_explicit_closes() {
    let mut b1 = ArenaBuilder::new(String::new());
    let r1 = b1.open_node(NodeType::Root);
    let p1 = b1.open_node(NodeType::Paragraph);
    let t1 = b1.add_leaf(NodeType::Text);
    let a1 = b1.finish();

    let mut b2 = ArenaBuilder::new(String::new());
    b2.open_node(NodeType::Root);
    b2.open_node(NodeType::Paragraph);
    b2.add_leaf(NodeType::Text);
    b2.close_node();
    b2.close_node();
    let a2 = b2.finish();

    assert_eq!(a1.get_children(r1), a2.get_children(r1));
    assert_eq!(a1.get_children(p1), &[t1]);
    assert_eq!(a1.get_node(p1).parent, r1);
    assert_eq!(a1.get_node(r1).parent, NO_PARENT);
}

#[test]
fn stack_queries_follow_opens_and_closes() {
    let mut builder = ArenaBuilder::new(String::new());
    assert_eq!(builder.stack_depth(), 0);
    assert_eq!(builder.stack_node_id(0), None);
    let root = builder.open_node(NodeType::Root);
    let para = builder.open_node(NodeType::Paragraph);
    assert_eq!(builder.stack_depth(), 2);
    assert_eq!(builder.current_node_id(), para);
    assert_eq!(builder.stack_node_id(0), Some(root));
    assert_eq!(builder.stack_node_id(1), Some(para));
    builder.close_node();
    assert_eq!(builder.current_node_id(), root);
}

#[test]
fn builder_strings_and_type_changes() {
    let mut builder = ArenaBuilder::new("ab".to_string());
    let sr = builder.alloc_string("cd");
    let id = builder.open_node(NodeType::Text);
    builder.change_node_type(id, NodeType::InlineCode);
    builder.close_node();
    let arena = builder.finish();
    assert_eq!(arena.get_str(sr), "cd");
    assert_eq!(arena.get_node(id).node_type, NodeType::InlineCode.as_u8());
}

#[test]
fn pending_children_can_be_edited() {
    let mut builder = ArenaBuilder::new(String::new());
    let root = builder.open_node(NodeType::Root);
    let a = builder.add_leaf(NodeType::Text);
    let b = builder.add_leaf(NodeType::Text);
    builder.current_children_mut().reverse();
    builder.close_node();
    let arena = builder.finish();
    assert_eq!(arena.get_children(root), &[b, a]);
}
