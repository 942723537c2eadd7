use tryckeri::arena::Arena;
use tryckeri::autolink_arena::apply_autolink_nodes;
use tryckeri::autolink_plan::split_text_with_autolinks;
use tryckeri::codec::{decode_string_ref_data, encode_string_ref_data};
use tryckeri::node::{NodeType, StringRef};

fn paragraph_with_text(text: &str) -> (Arena, u32, u32) {
    let mut arena = Arena::new(text.to_string());
    let p = arena.alloc_node(NodeType::Paragraph);
    let t = arena.alloc_node(NodeType::Text);
    arena.set_type_data(t, &encode_string_ref_data(StringRef::new(0, text.len() as u32)));
    arena.set_position(t, 0, text.len() as u32, 1, 1, 1, 1 + text.len() as u32);
    arena.set_children(p, &[t]);
    (arena, p, t)
}

fn value_at(arena: &Arena, id: u32, at: usize) -> String {
    let data = arena.get_type_data(id);
    let sr = decode_string_ref_data(&data[at..]);
    arena.get_str(sr).to_string()
}

fn autolink(arena: &mut Arena, t: u32) {
    let text = arena.source().as_bytes().to_vec();
    let nodes = split_text_with_autolinks(&text, &text, false, 1, 1).unwrap();
    apply_autolink_nodes(arena, t, &nodes);
}

#[test]
fn trailing_dot_stays_text_after_the_link() {
    let (mut arena, p, t) = paragraph_with_text("see https://a.com. now");
    autolink(&mut arena, t);
    let kids = arena.get_children(p).to_vec();
    assert_eq!(kids.len(), 3);
    assert_eq!(arena.get_node(kids[0]).node_type, NodeType::Text.as_u8());
    assert_eq!(value_at(&arena, kids[0], 0), "see ");
    let link = kids[1];
    assert_eq!(arena.get_node(link).node_type, NodeType::Link.as_u8());
    assert_eq!(value_at(&arena, link, 0), "https://a.com");
    assert_eq!(value_at(&arena, link, 8), "");
    let inner = arena.get_children(link).to_vec();
    assert_eq!(inner.len(), 1);
    assert_eq!(arena.get_node(inner[0]).node_type, NodeType::Text.as_u8());
    assert_eq!(value_at(&arena, inner[0], 0), "https://a.com");
    assert_eq!(arena.get_node(inner[0]).parent, link);
    assert_eq!(arena.get_node(kids[2]).node_type, NodeType::Text.as_u8());
    assert_eq!(value_at(&arena, kids[2], 0), ". now");
    for k in &kids {
        assert_eq!(arena.get_node(*k).parent, p);
    }
}

#[test]
fn split_nodes_get_source_positions() {
    let (mut arena, p, t) = paragraph_with_text("see https://a.com. now");
    autolink(&mut arena, t);
    let kids = arena.get_children(p).to_vec();
    let link = arena.get_node(kids[1]);
    assert_eq!((link.start_offset, link.end_offset), (4, 17));
    assert_eq!((link.start_line, link.start_column, link.end_line, link.end_column), (1, 5, 1, 18));
    let first = arena.get_node(kids[0]);
    assert_eq!((first.start_offset, first.end_offset), (0, 4));
    let last = arena.get_node(kids[2]);
    assert_eq!((last.start_offset, last.end_offset), (17, 22));
}

#[test]
fn www_link_gets_http_url_and_source_text() {
    let (mut arena, p, t) = paragraph_with_text("go www.example.com");
    autolink(&mut arena, t);
    let kids = arena.get_children(p).to_vec();
    assert_eq!(kids.len(), 2);
    let link = kids[1];
    assert_eq!(value_at(&arena, link, 0), "http://www.example.com");
    let inner = arena.get_children(link).to_vec();
    assert_eq!(value_at(&arena, inner[0], 0), "www.example.com");
}
