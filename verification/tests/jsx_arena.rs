use tryckeri::arena::Arena;
use tryckeri::codec::{decode_string_ref_data, encode_string_ref_data};
use tryckeri::jsx_arena::{apply_jsx_pieces, split_label_on_jsx_tags};
use tryckeri::label::split_text_on_jsx_tags;
use tryckeri::node::{NodeType, StringRef};

fn label_arena(text: &str, offset: u32, line: u32, column: u32) -> (Arena, u32, u32) {
    let mut arena = Arena::new(text.to_string());
    let p = arena.alloc_node(NodeType::Paragraph);
    let t = arena.alloc_node(NodeType::Text);
    arena.set_type_data(t, &encode_string_ref_data(StringRef::new(0, text.len() as u32)));
    arena.set_position(t, offset, offset + text.len() as u32, line, column, line, column + text.len() as u32);
    arena.set_children(p, &[t]);
    (arena, p, t)
}

fn value(arena: &Arena, id: u32) -> String {
    let sr = decode_string_ref_data(arena.get_type_data(id));
    arena.get_str(sr).to_string()
}

fn place(arena: &Arena, id: u32) -> (u32, u32, u32, u32, u32, u32) {
    let n = arena.get_node(id);
    (n.start_offset, n.end_offset, n.start_line, n.start_column, n.end_line, n.end_column)
}

#[test]
fn elements_and_text_replace_the_label_text() {
    let text = "a <B>c</B> d <E/>";
    let (o, l, c) = (10, 3, 7);
    let (mut arena, p, t) = label_arena(text, o, l, c);
    let pieces = split_text_on_jsx_tags(text).unwrap();
    apply_jsx_pieces(&mut arena, t, &pieces);
    let kids = arena.get_children(p).to_vec();
    assert_eq!(kids.len(), 4);

    assert_eq!(arena.get_node(kids[0]).node_type, NodeType::Text.as_u8());
    assert_eq!(value(&arena, kids[0]), "a ");
    assert_eq!(place(&arena, kids[0]), (o, o + 2, l, c, l, c + 2));

    let b = kids[1];
    assert_eq!(arena.get_node(b).node_type, NodeType::MdxJsxTextElement.as_u8());
    assert_eq!(value(&arena, b), "B");
    assert_eq!(&arena.get_type_data(b)[8..], &[0, 0, 0, 0]);
    assert_eq!(place(&arena, b), (o + 2, o + 10, l, c + 2, l, c + 10));
    let inner = arena.get_children(b).to_vec();
    assert_eq!(inner.len(), 1);
    assert_eq!(arena.get_node(inner[0]).node_type, NodeType::Text.as_u8());
    assert_eq!(value(&arena, inner[0]), "c");
    assert_eq!(place(&arena, inner[0]), (o + 5, o + 6, l, c + 5, l, c + 6));
    assert_eq!(arena.get_node(inner[0]).parent, b);

    assert_eq!(value(&arena, kids[2]), " d ");
    assert_eq!(place(&arena, kids[2]), (o + 10, o + 13, l, c + 10, l, c + 13));

    let e = kids[3];
    assert_eq!(arena.get_node(e).node_type, NodeType::MdxJsxTextElement.as_u8());
    assert_eq!(value(&arena, e), "E");
    assert!(arena.get_children(e).is_empty());
    assert_eq!(place(&arena, e), (o + 13, o + 17, l, c + 13, l, c + 17));

    for k in &kids {
        assert_eq!(arena.get_node(*k).parent, p);
    }
}

#[test]
fn empty_element_content_gets_no_child() {
    let text = "<X></X>";
    let (mut arena, p, t) = label_arena(text, 0, 1, 1);
    let pieces = split_text_on_jsx_tags(text).unwrap();
    apply_jsx_pieces(&mut arena, t, &pieces);
    let kids = arena.get_children(p).to_vec();
    assert_eq!(kids.len(), 1);
    assert_eq!(value(&arena, kids[0]), "X");
    assert!(arena.get_children(kids[0]).is_empty());
    assert_eq!(arena.len(), 3);
}

#[test]
fn label_split_reads_the_text_node() {
    let (mut arena, p, t) = label_arena("see <Foo /> now", 4, 2, 3);
    assert!(split_label_on_jsx_tags(&mut arena, t));
    let kids = arena.get_children(p).to_vec();
    assert_eq!(kids.len(), 3);
    assert_eq!(value(&arena, kids[0]), "see ");
    assert_eq!(value(&arena, kids[1]), "Foo");
    assert_eq!(place(&arena, kids[1]), (8, 15, 2, 7, 2, 14));
    assert_eq!(value(&arena, kids[2]), " now");
}

#[test]
fn label_without_elements_is_left_alone() {
    let (mut arena, p, t) = label_arena("x < y", 0, 1, 1);
    assert!(!split_label_on_jsx_tags(&mut arena, t));
    assert_eq!(arena.get_children(p), &[t]);
    assert_eq!(arena.len(), 2);
}
