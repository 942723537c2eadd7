use tryckeri::node::{ArenaNode, NodeType, StringRef, NODE_STRUCT_SIZE, NO_PARENT};

#[test]
fn arena_node_size_pinned() {
    // The struct has 13 u32 fields (4 bytes each) + 1 u8 + 3-byte pad
    // = 52 bytes total.
    assert_eq!(
        std::mem::size_of::<ArenaNode>(),
        52,
        "ArenaNode size changed — update NODE_STRUCT_SIZE callers"
    );
    assert_eq!(NODE_STRUCT_SIZE, 52);
}

#[test]
fn string_ref_is_8_bytes() {
    assert_eq!(std::mem::size_of::<StringRef>(), 8);
}

#[test]
fn node_type_round_trip() {
    for raw in [0u8, 1, 2, 3, 4, 5, 6, 7, 8, 9, 10, 11, 12, 13, 14, 15, 16,
                17, 18, 19, 20, 21, 22, 23, 24, 25, 26, 27, 28,
                100, 101, 102, 103, 104] {
        let nt = NodeType::from_u8(raw).expect("known discriminant");
        assert_eq!(nt.as_u8(), raw);
    }
}

#[test]
fn unknown_node_type_returns_none() {
    assert!(NodeType::from_u8(99).is_none());
    assert!(NodeType::from_u8(29).is_none());
}

#[test]
fn every_code_outside_the_table_is_unknown() {
    for raw in 0u8..=255 {
        let known = raw <= 28 || (100..=104).contains(&raw);
        assert_eq!(NodeType::from_u8(raw).is_some(), known, "code {}", raw);
    }
}

#[test]
fn new_node_has_no_parent_and_empty_ranges() {
    let n = ArenaNode::new(7, NodeType::Heading);
    assert_eq!(n.id, 7);
    assert_eq!(n.node_type, NodeType::Heading.as_u8());
    assert_eq!(n.parent, NO_PARENT);
    assert_eq!(n.children_count, 0);
    assert_eq!(n.data_len, 0);
    assert_eq!(n.node_type(), Some(NodeType::Heading));
}

#[test]
fn string_ref_empty_and_new() {
    assert!(StringRef::empty().is_empty());
    assert!(!StringRef::new(3, 1).is_empty());
    assert_eq!(StringRef::new(3, 0), StringRef { offset: 3, len: 0 });
}
