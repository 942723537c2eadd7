use tryckeri::arena::Arena;
use tryckeri::codec::{decode_string_ref_data, encode_string_ref_data};
use tryckeri::label::{split_text_on_backticks, split_text_on_mdx_expressions};
use tryckeri::label_nodes::{apply_label_pieces, split_label_on_backticks, split_label_on_mdx_expressions};
use tryckeri::node::{NodeType, StringRef};

fn label_arena(text: &str) -> (Arena, u32, u32) {
    let mut arena = Arena::new(text.to_string());
    let p = arena.alloc_node(NodeType::Paragraph);
    let t = arena.alloc_node(NodeType::Text);
    arena.set_type_data(t, &encode_string_ref_data(StringRef::new(0, text.len() as u32)));
    arena.set_position(t, 10, 10 + text.len() as u32, 3, 5, 3, 5 + text.len() as u32);
    arena.set_children(p, &[t]);
    (arena, p, t)
}

fn value(arena: &Arena, id: u32) -> String {
    let sr = decode_string_ref_data(arena.get_type_data(id));
    arena.get_str(sr).to_string()
}

#[test]
fn backtick_pieces_replace_the_text_node() {
    let (mut arena, p, t) = label_arena("a `b` c");
    let pieces = split_text_on_backticks(b"a `b` c").unwrap();
    apply_label_pieces(&mut arena, t, &pieces);
    let kids = arena.get_children(p).to_vec();
    assert_eq!(kids, vec![2, 3, 4]);
    assert_eq!(arena.get_node(2).node_type, NodeType::Text.as_u8());
    assert_eq!(arena.get_node(3).node_type, NodeType::InlineCode.as_u8());
    assert_eq!(arena.get_node(4).node_type, NodeType::Text.as_u8());
    assert_eq!(value(&arena, 2), "a ");
    assert_eq!(value(&arena, 3), "b");
    assert_eq!(value(&arena, 4), " c");
    let code = arena.get_node(3);
    assert_eq!((code.start_offset, code.end_offset), (12, 15));
    assert_eq!((code.start_line, code.start_column, code.end_line, code.end_column), (3, 7, 3, 10));
    for k in &kids {
        assert_eq!(arena.get_node(*k).parent, p);
    }
}

#[test]
fn expression_pieces_become_text_expressions() {
    let (mut arena, p, t) = label_arena("x {1 + 2}");
    let pieces = split_text_on_mdx_expressions(b"x {1 + 2}").unwrap();
    apply_label_pieces(&mut arena, t, &pieces);
    let kids = arena.get_children(p).to_vec();
    assert_eq!(kids.len(), 2);
    assert_eq!(arena.get_node(kids[1]).node_type, NodeType::MdxTextExpression.as_u8());
    assert_eq!(value(&arena, kids[0]), "x ");
    assert_eq!(value(&arena, kids[1]), "1 + 2");
}

#[test]
fn add_child_appends_to_the_list() {
    let mut arena = Arena::new(String::new());
    let p = arena.alloc_node(NodeType::Paragraph);
    let a = arena.alloc_node(NodeType::Text);
    let b = arena.alloc_node(NodeType::Text);
    arena.add_child(p, a);
    arena.add_child(p, b);
    assert_eq!(arena.get_children(p), &[a, b]);
    assert_eq!(arena.get_node(b).parent, p);
}

#[test]
fn type_data_survives_later_writes() {
    let mut arena = Arena::new(String::new());
    let a = arena.alloc_node(NodeType::Text);
    arena.set_type_data(a, &[1, 2, 3]);
    let b = arena.alloc_node(NodeType::Text);
    arena.set_type_data(b, &[9]);
    arena.set_children(a, &[b]);
    let _ = arena.alloc_string("more");
    assert_eq!(arena.get_type_data(a), &[1, 2, 3]);
    assert_eq!(arena.get_type_data(b), &[9]);
}

#[test]
fn label_text_is_split_on_backticks_in_place() {
    let (mut arena, p, t) = label_arena("x ``a`b`` y");
    assert!(split_label_on_backticks(&mut arena, t));
    let kids = arena.get_children(p).to_vec();
    assert_eq!(kids.len(), 3);
    assert_eq!(value(&arena, kids[1]), "a`b");
    assert_eq!(arena.get_node(kids[1]).node_type, NodeType::InlineCode.as_u8());
    assert_eq!(value(&arena, kids[2]), " y");
}

#[test]
fn label_without_backticks_or_braces_stays() {
    let (mut arena, p, t) = label_arena("plain `open");
    assert!(!split_label_on_backticks(&mut arena, t));
    assert!(!split_label_on_mdx_expressions(&mut arena, t));
    assert_eq!(arena.get_children(p), &[t]);
}

#[test]
fn label_text_is_split_on_expressions_in_place() {
    let (mut arena, p, t) = label_arena("{a} and {b}");
    assert!(split_label_on_mdx_expressions(&mut arena, t));
    let kids = arena.get_children(p).to_vec();
    assert_eq!(kids.len(), 3);
    assert_eq!(value(&arena, kids[0]), "a");
    assert_eq!(value(&arena, kids[1]), " and ");
    assert_eq!(value(&arena, kids[2]), "b");
    let e = arena.get_node(kids[2]);
    assert_eq!((e.start_offset, e.end_offset, e.start_column, e.end_column), (18, 21, 13, 16));
}
