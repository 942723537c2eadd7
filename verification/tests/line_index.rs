use tryckeri::line_index::LineIndex;

#[test]
fn single_line() {
    let idx = LineIndex::from_source("hello");
    let mut c = idx.cursor();
    assert_eq!(c.offset_to_line_col(0), (1, 1));
    assert_eq!(c.offset_to_line_col(4), (1, 5));
}

#[test]
fn two_lines() {
    let idx = LineIndex::from_source("hi\nbye");
    let mut c = idx.cursor();
    assert_eq!(c.offset_to_line_col(0), (1, 1));
    assert_eq!(c.offset_to_line_col(1), (1, 2));
    assert_eq!(c.offset_to_line_col(3), (2, 1));
    assert_eq!(c.offset_to_line_col(5), (2, 3));
}

#[test]
fn trailing_newline() {
    let idx = LineIndex::from_source("abc\n");
    let mut c = idx.cursor();
    assert_eq!(c.offset_to_line_col(0), (1, 1));
    assert_eq!(c.offset_to_line_col(2), (1, 3));
    assert_eq!(c.offset_to_line_col(4), (2, 1));
}

#[test]
fn multi_line() {
    let idx = LineIndex::from_source("line1\nline2\nline3");
    let mut c = idx.cursor();
    assert_eq!(c.offset_to_line_col(6), (2, 1));
    assert_eq!(c.offset_to_line_col(10), (2, 5));
    assert_eq!(c.offset_to_line_col(12), (3, 1));
    assert_eq!(c.offset_to_line_col(16), (3, 5));
}

#[test]
fn multi_byte_unicode_columns() {
    // ὐ is 3 bytes in UTF-8 but counts as 1 column.
    let idx = LineIndex::from_source("aὐb");
    let mut c = idx.cursor();
    assert_eq!(c.offset_to_line_col(0), (1, 1)); // a
    assert_eq!(c.offset_to_line_col(1), (1, 2)); // ὐ start
    assert_eq!(c.offset_to_line_col(4), (1, 3)); // b (ὐ ate 3 bytes, +1 col)
}

#[test]
fn unicode_after_newline() {
    // Column counts reset at line start.
    let idx = LineIndex::from_source("ab\nὐcd");
    let mut c = idx.cursor();
    assert_eq!(c.offset_to_line_col(3), (2, 1)); // ὐ
    assert_eq!(c.offset_to_line_col(6), (2, 2)); // c (3 bytes after line start = col 2)
    assert_eq!(c.offset_to_line_col(7), (2, 3)); // d
}

#[test]
fn ascii_lines_in_mixed_source() {
    let idx = LineIndex::from_source("abc\nx🪐y\ndef");
    let mut c = idx.cursor();
    assert_eq!(c.offset_to_line_col(0), (1, 1)); // a
    assert_eq!(c.offset_to_line_col(2), (1, 3)); // c
    assert_eq!(c.offset_to_line_col(4), (2, 1)); // x
    assert_eq!(c.offset_to_line_col(9), (2, 3)); // y (🪐 is 4 bytes, 1 cp)
    assert_eq!(c.offset_to_line_col(11), (3, 1)); // d
    assert_eq!(c.offset_to_line_col(13), (3, 3)); // f
}

#[test]
fn lookups_in_any_order_agree() {
    let src = "ab\ncd\n\nef";
    let idx = LineIndex::from_source(src);
    let mut forward = idx.cursor();
    let expected: Vec<(u32, u32)> = (0..=src.len() as u32).map(|o| forward.offset_to_line_col(o)).collect();
    let mut backward = idx.cursor();
    for o in (0..=src.len() as u32).rev() {
        assert_eq!(backward.offset_to_line_col(o), expected[o as usize]);
    }
    assert_eq!(expected[6], (3, 1));
    assert_eq!(expected[9], (4, 3));
}

#[test]
fn code_point_offsets() {
    let src = "aὐ\n🪐b";
    let idx = LineIndex::from_source(src);
    let mut c = idx.cursor();
    assert_eq!(c.byte_to_cp_offset(0), 0);
    assert_eq!(c.byte_to_cp_offset(1), 1);
    assert_eq!(c.byte_to_cp_offset(4), 2);
    assert_eq!(c.byte_to_cp_offset(5), 3);
    assert_eq!(c.byte_to_cp_offset(9), 4);
    assert_eq!(c.byte_to_cp_offset(10), 5);
    assert_eq!(c.byte_to_cp_offset(1), 1);
}
