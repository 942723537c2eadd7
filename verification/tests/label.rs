use tryckeri::label::{split_text_on_backticks, split_text_on_mdx_expressions, LabelPiece};

#[test]
fn backtick_pair_becomes_inline_code() {
    assert_eq!(
        split_text_on_backticks(b"Set a `baseUrl` now"),
        Some(vec![
            LabelPiece::Text { start: 0, end: 6 },
            LabelPiece::InlineCode { start: 6, end: 15, code_start: 7, code_end: 14 },
            LabelPiece::Text { start: 15, end: 19 },
        ])
    );
}

#[test]
fn closing_run_must_have_the_same_length() {
    assert_eq!(
        split_text_on_backticks(b"a ``b`c`` d"),
        Some(vec![
            LabelPiece::Text { start: 0, end: 2 },
            LabelPiece::InlineCode { start: 2, end: 9, code_start: 4, code_end: 7 },
            LabelPiece::Text { start: 9, end: 11 },
        ])
    );
}

#[test]
fn text_without_balanced_backticks_is_left_alone() {
    assert_eq!(split_text_on_backticks(b"no code"), None);
    assert_eq!(split_text_on_backticks(b"one ` tick"), None);
    assert_eq!(split_text_on_backticks(b""), None);
}

#[test]
fn whole_text_code_has_no_empty_text_pieces() {
    assert_eq!(
        split_text_on_backticks(b"`x`"),
        Some(vec![LabelPiece::InlineCode { start: 0, end: 3, code_start: 1, code_end: 2 }])
    );
}

#[test]
fn braces_become_expressions() {
    assert_eq!(
        split_text_on_mdx_expressions(b"a {b} c"),
        Some(vec![
            LabelPiece::Text { start: 0, end: 2 },
            LabelPiece::Expression { start: 2, end: 5, content_start: 3, content_end: 4 },
            LabelPiece::Text { start: 5, end: 7 },
        ])
    );
}

#[test]
fn adjacent_expressions() {
    assert_eq!(
        split_text_on_mdx_expressions(b"{x}{'}'}"),
        Some(vec![
            LabelPiece::Expression { start: 0, end: 3, content_start: 1, content_end: 2 },
            LabelPiece::Expression { start: 3, end: 8, content_start: 4, content_end: 7 },
        ])
    );
}

#[test]
fn unclosed_brace_is_left_alone() {
    assert_eq!(split_text_on_mdx_expressions(b"a { b"), None);
    assert_eq!(split_text_on_mdx_expressions(b"plain"), None);
}

use tryckeri::label::{split_text_on_jsx_tags, JsxPiece};

#[test]
fn self_closing_tag_becomes_an_element() {
    assert_eq!(
        split_text_on_jsx_tags("see <Foo /> now"),
        Some(vec![
            JsxPiece::Text { start: 0, end: 4 },
            JsxPiece::Element {
                start: 4,
                end: 11,
                name: "Foo".to_string(),
                inner_start: 11,
                inner_end: 11,
            },
            JsxPiece::Text { start: 11, end: 15 },
        ])
    );
}

#[test]
fn opening_tag_pairs_with_next_closing_tag_of_same_name() {
    assert_eq!(
        split_text_on_jsx_tags("a <b>x</b> c"),
        Some(vec![
            JsxPiece::Text { start: 0, end: 2 },
            JsxPiece::Element {
                start: 2,
                end: 10,
                name: "b".to_string(),
                inner_start: 5,
                inner_end: 6,
            },
            JsxPiece::Text { start: 10, end: 12 },
        ])
    );
}

#[test]
fn lone_or_unpaired_tags_leave_text_alone() {
    assert_eq!(split_text_on_jsx_tags("</b> only"), None);
    assert_eq!(split_text_on_jsx_tags("<b>unclosed"), None);
    assert_eq!(split_text_on_jsx_tags("x < y"), None);
}

#[test]
fn offsets_are_bytes_after_multibyte_text() {
    assert_eq!(
        split_text_on_jsx_tags("é <A/>"),
        Some(vec![
            JsxPiece::Text { start: 0, end: 3 },
            JsxPiece::Element { start: 3, end: 7, name: "A".to_string(), inner_start: 7, inner_end: 7 },
        ])
    );
}
