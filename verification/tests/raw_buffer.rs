use tryckeri::arena::Arena;
use tryckeri::builder::ArenaBuilder;
use tryckeri::codec::encode_string_ref_data;
use tryckeri::node::{NodeType, StringRef};
use tryckeri::raw_buffer::{BufferError, BUFFER_VERSION, HEADER_SIZE};

fn simple_arena() -> Arena {
    let mut builder = ArenaBuilder::new("Hello, world!".to_string());
    builder.open_node(NodeType::Root);
    builder.open_node(NodeType::Paragraph);
    builder.add_leaf(NodeType::Text);
    builder.close_node();
    builder.close_node();
    builder.finish()
}

#[test]
fn header_magic_and_version() {
    let arena = simple_arena();
    let buf = arena.to_raw_buffer();
    assert_eq!(&buf[..4], b"MDAR");
    // version at offset 4 (after magic[4])
    let version = u32::from_ne_bytes(buf[4..8].try_into().unwrap());
    assert_eq!(version, BUFFER_VERSION);
}

#[test]
fn round_trip_node_count() {
    let arena = simple_arena();
    let buf = arena.to_raw_buffer();
    let view = Arena::from_raw_buffer(&buf).unwrap();
    assert_eq!(view.node_count(), arena.len() as u32);
}

#[test]
fn bad_magic_rejected() {
    let arena = simple_arena();
    let mut buf = arena.to_raw_buffer();
    buf[0] = b'X';
    let err = Arena::from_raw_buffer(&buf).unwrap_err();
    assert_eq!(err, BufferError::BadMagic);
}

#[test]
fn round_trip_source() {
    let arena = simple_arena();
    let buf = arena.to_raw_buffer();
    let view = Arena::from_raw_buffer(&buf).unwrap();
    assert_eq!(view.get_source(), "Hello, world!");
}

#[test]
fn round_trip_children() {
    let arena = simple_arena();
    let original_children: Vec<u32> = arena.get_children(0).to_vec();
    let buf = arena.to_raw_buffer();
    let view = Arena::from_raw_buffer(&buf).unwrap();
    assert_eq!(view.get_children(0), original_children.as_slice());
}

#[test]
fn buffer_length_is_header_nodes_children_data_source() {
    let arena = simple_arena();
    let buf = arena.to_raw_buffer();
    // 3 nodes, 2 child entries, no type data, 13 source bytes
    assert_eq!(buf.len(), HEADER_SIZE + 3 * 52 + 2 * 4 + 13);
}

#[test]
fn each_header_check_has_its_error() {
    let buf = simple_arena().to_raw_buffer();
    assert_eq!(Arena::from_raw_buffer(&buf[..43]).unwrap_err(), BufferError::TooShort);
    let mut v = buf.clone();
    v[4] = 2;
    assert_eq!(Arena::from_raw_buffer(&v).unwrap_err(), BufferError::VersionMismatch);
    let mut v = buf.clone();
    v[8] = 48;
    assert_eq!(Arena::from_raw_buffer(&v).unwrap_err(), BufferError::NodeSizeMismatch);
    let mut v = buf.clone();
    v[36] = 200; // source length past the end
    assert_eq!(Arena::from_raw_buffer(&v).unwrap_err(), BufferError::OutOfBounds);
    let mut v = buf.clone();
    let last = v.len() - 1;
    v[last] = 0xff; // not UTF-8
    assert_eq!(Arena::from_raw_buffer(&v).unwrap_err(), BufferError::InvalidUtf8);
}

#[test]
fn error_messages() {
    assert_eq!(BufferError::TooShort.message(), "buffer too short");
    assert_eq!(BufferError::BadMagic.message(), "bad magic bytes");
    assert_eq!(BufferError::VersionMismatch.message(), "version mismatch");
    assert_eq!(BufferError::NodeSizeMismatch.message(), "ArenaNode size mismatch");
    assert_eq!(BufferError::InvalidUtf8.message(), "source is not valid UTF-8");
    assert_eq!(BufferError::OutOfBounds.message(), "offset out of bounds");
}

#[test]
fn view_reads_nodes_data_and_strings() {
    let mut builder = ArenaBuilder::new("hello world".to_string());
    builder.open_node(NodeType::Root);
    let t = builder.open_node(NodeType::Text);
    builder.set_position_current(6, 11, 1, 7, 1, 12);
    builder.set_data_current(&encode_string_ref_data(StringRef::new(6, 5)));
    builder.close_node();
    builder.close_node();
    let arena = builder.finish();
    let buf = arena.to_raw_buffer();
    let view = Arena::from_raw_buffer(&buf).unwrap();
    let node = view.get_node(t);
    assert_eq!(node.parent, 0);
    assert_eq!(node.start_offset, 6);
    assert_eq!(node.end_column, 12);
    assert_eq!(view.get_type_data(t), &[6, 0, 0, 0, 5, 0, 0, 0]);
    assert_eq!(view.get_str(StringRef::new(6, 5)), "world");
    assert!(view.data_fits(t));
    assert!(view.children_fit(0));
    assert!(view.str_fits(StringRef::new(6, 5)));
    assert!(!view.str_fits(StringRef::new(6, 50)));
}

#[test]
fn view_to_arena_gives_back_the_arena() {
    let arena = simple_arena();
    let buf = arena.to_raw_buffer();
    let view = Arena::from_raw_buffer(&buf).unwrap();
    let copy = view.to_arena();
    assert_eq!(copy.len(), arena.len());
    assert_eq!(copy.source(), arena.source());
    for id in 0..arena.len() as u32 {
        assert_eq!(copy.get_children(id), arena.get_children(id));
        assert_eq!(copy.get_node(id).parent, arena.get_node(id).parent);
    }
    assert_eq!(copy.to_raw_buffer(), buf);
}
