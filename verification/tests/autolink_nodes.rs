use tryckeri::arena::Arena;
use tryckeri::autolink_nodes::autolink_text_nodes;
use tryckeri::codec::encode_string_ref_data;
use tryckeri::node::NodeType;

fn text_node(arena: &mut Arena, s: &str) -> u32 {
    let sr = arena.alloc_string(s);
    let id = arena.alloc_node(NodeType::Text);
    arena.set_type_data(id, &encode_string_ref_data(sr));
    id
}

#[test]
fn text_with_a_url_in_a_paragraph_is_a_candidate() {
    let mut arena = Arena::new(String::new());
    let root = arena.alloc_node(NodeType::Root);
    let para = arena.alloc_node(NodeType::Paragraph);
    let t = text_node(&mut arena, "see https://example.com now");
    arena.set_children(root, &[para]);
    arena.set_children(para, &[t]);
    assert_eq!(autolink_text_nodes(&arena), vec![(t, false)]);
}

#[test]
fn text_without_links_and_text_inside_links_are_skipped() {
    let mut arena = Arena::new(String::new());
    let root = arena.alloc_node(NodeType::Root);
    let para = arena.alloc_node(NodeType::Paragraph);
    let plain = text_node(&mut arena, "no links here");
    let link = arena.alloc_node(NodeType::Link);
    let inner = text_node(&mut arena, "https://example.com");
    arena.set_children(root, &[para]);
    arena.set_children(para, &[plain, link]);
    arena.set_children(link, &[inner]);
    assert!(autolink_text_nodes(&arena).is_empty());
}

#[test]
fn open_bracket_in_earlier_text_of_the_same_paragraph_is_carried() {
    let mut arena = Arena::new(String::new());
    let root = arena.alloc_node(NodeType::Root);
    let para = arena.alloc_node(NodeType::Paragraph);
    let first = text_node(&mut arena, "see [x ");
    let em = arena.alloc_node(NodeType::Emphasis);
    let second = text_node(&mut arena, "www.example.com");
    arena.set_children(root, &[para]);
    arena.set_children(para, &[first, em]);
    arena.set_children(em, &[second]);
    assert_eq!(autolink_text_nodes(&arena), vec![(second, true)]);
}

#[test]
fn brackets_do_not_carry_across_paragraphs() {
    let mut arena = Arena::new(String::new());
    let root = arena.alloc_node(NodeType::Root);
    let p1 = arena.alloc_node(NodeType::Paragraph);
    let a = text_node(&mut arena, "[open");
    let p2 = arena.alloc_node(NodeType::Paragraph);
    let b = text_node(&mut arena, "mail me@example.com");
    arena.set_children(root, &[p1, p2]);
    arena.set_children(p1, &[a]);
    arena.set_children(p2, &[b]);
    assert_eq!(autolink_text_nodes(&arena), vec![(b, false)]);
}
