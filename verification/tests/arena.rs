use tryckeri::arena::Arena;
use tryckeri::node::{NodeType, StringRef, NO_PARENT};

#[test]
fn alloc_and_retrieve() {
    let mut arena = Arena::new("hello world".to_string());
    let id = arena.alloc_node(NodeType::Text);
    assert_eq!(id, 0);
    assert_eq!(arena.len(), 1);
    let node = arena.get_node(id);
    assert_eq!(node.node_type, NodeType::Text.as_u8());
}

#[test]
fn set_position_roundtrip() {
    let mut arena = Arena::new(String::new());
    let id = arena.alloc_node(NodeType::Paragraph);
    arena.set_position(id, 0, 10, 1, 1, 1, 11);
    let node = arena.get_node(id);
    assert_eq!(node.start_offset, 0);
    assert_eq!(node.end_offset, 10);
    assert_eq!(node.start_line, 1);
    assert_eq!(node.end_column, 11);
}

#[test]
fn set_children_updates_parent() {
    let mut arena = Arena::new(String::new());
    let parent = arena.alloc_node(NodeType::Paragraph);
    let child1 = arena.alloc_node(NodeType::Text);
    let child2 = arena.alloc_node(NodeType::Text);
    arena.set_children(parent, &[child1, child2]);
    assert_eq!(arena.get_children(parent), &[child1, child2]);
    assert_eq!(arena.get_node(child1).parent, parent);
    assert_eq!(arena.get_node(child2).parent, parent);
}

#[test]
fn get_str_works() {
    let source = "Hello, world!".to_string();
    let arena = Arena::new(source);
    let sr = StringRef::new(7, 5);
    assert_eq!(arena.get_str(sr), "world");
}

#[test]
fn type_data_roundtrip() {
    let mut arena = Arena::new(String::new());
    let id = arena.alloc_node(NodeType::Heading);
    arena.set_type_data(id, &[2u8]);
    let node = arena.get_node(id);
    assert_eq!(node.data_len, 1);
    let stored = &arena.arena_type_data()[node.data_offset as usize..][..node.data_len as usize];
    assert_eq!(stored, &[2u8]);
}

#[test]
fn add_child_appends_after_existing_children() {
    let mut arena = Arena::new(String::new());
    let parent = arena.alloc_node(NodeType::List);
    let a = arena.alloc_node(NodeType::ListItem);
    let b = arena.alloc_node(NodeType::ListItem);
    let c = arena.alloc_node(NodeType::ListItem);
    arena.set_children(parent, &[a, b]);
    arena.add_child(parent, c);
    assert_eq!(arena.get_children(parent), &[a, b, c]);
    assert_eq!(arena.get_node(c).parent, parent);
}

#[test]
fn fresh_arena_is_empty_and_nodes_have_no_parent() {
    let mut arena = Arena::new("x".to_string());
    assert!(arena.is_empty());
    let id = arena.alloc_node_raw(200);
    assert!(!arena.is_empty());
    assert_eq!(arena.get_node(id).parent, NO_PARENT);
    assert_eq!(arena.get_node(id).node_type, 200);
    assert_eq!(arena.get_node(id).node_type(), None);
    assert_eq!(arena.get_children(id), &[] as &[u32]);
}

#[test]
fn set_parent_and_change_type() {
    let mut arena = Arena::new(String::new());
    let a = arena.alloc_node(NodeType::Root);
    let b = arena.alloc_node(NodeType::Text);
    arena.set_parent(b, a);
    arena.change_node_type(b, NodeType::InlineCode);
    assert_eq!(arena.get_node(b).parent, a);
    assert_eq!(arena.get_node(b).node_type, NodeType::InlineCode.as_u8());
}

#[test]
fn get_type_data_reads_latest_data() {
    let mut arena = Arena::new(String::new());
    let id = arena.alloc_node(NodeType::Heading);
    arena.set_type_data(id, &[1u8, 2]);
    arena.set_type_data(id, &[9u8]);
    assert_eq!(arena.get_type_data(id), &[9u8]);
    assert_eq!(arena.arena_type_data(), &[1u8, 2, 9]);
}
