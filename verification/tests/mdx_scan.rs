use tryckeri::mdx::{
    scan_mdx_esm, scan_mdx_expression_block, scan_mdx_inline_expression, scan_mdx_inline_jsx,
    scan_mdx_jsx_block,
};

#[test]
fn esm_block_takes_lines_up_to_blank_line() {
    assert_eq!(
        scan_mdx_esm(b"import a from 'b'\nexport const c = 1\n\n# hi"),
        Some(37)
    );
}

#[test]
fn esm_block_without_trailing_newline_ends_at_input_end() {
    assert_eq!(scan_mdx_esm(b"export{a}"), Some(9));
}

#[test]
fn esm_block_needs_keyword_and_separator() {
    assert_eq!(scan_mdx_esm(b"important"), None);
    assert_eq!(scan_mdx_esm(b"export"), None);
    assert_eq!(scan_mdx_esm(b"export\nfoo"), Some(10));
}

#[test]
fn expression_block_consumes_line_feed() {
    assert_eq!(scan_mdx_expression_block(b"{1 + 2}\nnext"), Some(8));
    assert_eq!(scan_mdx_expression_block(b"{1}  \r\nnext"), Some(7));
}

#[test]
fn expression_block_rejects_trailing_text() {
    assert_eq!(scan_mdx_expression_block(b"{a} b"), None);
    assert_eq!(scan_mdx_expression_block(b"a"), None);
    assert_eq!(scan_mdx_expression_block(b""), None);
}

#[test]
fn expression_skips_braces_in_strings() {
    assert_eq!(scan_mdx_inline_expression(b"{'}'}x"), Some((1, 4, 5)));
}

#[test]
fn expression_skips_template_substitutions() {
    assert_eq!(scan_mdx_inline_expression(b"{`${a}`}"), Some((1, 7, 8)));
}

#[test]
fn expression_skips_block_comments() {
    assert_eq!(scan_mdx_inline_expression(b"{/* } */ 1}"), Some((1, 10, 11)));
}

#[test]
fn expression_skips_line_comments() {
    assert_eq!(scan_mdx_inline_expression(b"{a // }\n}"), Some((1, 8, 9)));
}

#[test]
fn slash_after_operator_starts_regex() {
    assert_eq!(scan_mdx_inline_expression(b"{x = /}/ }"), Some((1, 9, 10)));
}

#[test]
fn slash_after_identifier_is_division() {
    assert_eq!(scan_mdx_inline_expression(b"{a /}/ }"), Some((1, 4, 5)));
}

#[test]
fn slash_after_keyword_starts_regex() {
    assert_eq!(scan_mdx_inline_expression(b"{return /}/ }"), Some((1, 12, 13)));
}

#[test]
fn expression_skips_jsx_tags() {
    assert_eq!(scan_mdx_inline_expression(b"{<a b={1}>}</a>}"), Some((1, 10, 11)));
}

#[test]
fn unclosed_expression_is_none() {
    assert_eq!(scan_mdx_inline_expression(b"{a"), None);
    assert_eq!(scan_mdx_inline_expression(b"{'}"), None);
}

#[test]
fn inline_jsx_skips_quoted_greater_than() {
    assert_eq!(scan_mdx_inline_jsx(b"<Foo bar=\"x>\" />rest"), Some(16));
}

#[test]
fn inline_jsx_rejects_autolinks() {
    assert_eq!(scan_mdx_inline_jsx(b"<https://x>"), None);
    assert_eq!(scan_mdx_inline_jsx(b"<1>"), None);
}

#[test]
fn inline_jsx_fragments() {
    assert_eq!(scan_mdx_inline_jsx(b"</>"), Some(3));
    assert_eq!(scan_mdx_inline_jsx(b"<>x"), Some(2));
}

#[test]
fn inline_jsx_balances_braces() {
    assert_eq!(scan_mdx_inline_jsx(b"<a {...{b: 1}}>"), Some(15));
}

#[test]
fn inline_jsx_namespace_and_multiline() {
    assert_eq!(scan_mdx_inline_jsx(b"<svg:rect\r\n  x=\"1\"/>"), Some(20));
}

#[test]
fn jsx_block_self_closing_line() {
    assert_eq!(scan_mdx_jsx_block(b"<Foo />\nnext"), Some(8));
}

#[test]
fn jsx_block_rejects_expression_body_of_opening_tag() {
    assert_eq!(scan_mdx_jsx_block(b"<Foo>{x}</Foo>"), None);
}

#[test]
fn jsx_block_accepts_several_tags() {
    assert_eq!(scan_mdx_jsx_block(b"<a></a>  \n"), Some(10));
}

#[test]
fn jsx_block_rejects_trailing_text() {
    assert_eq!(scan_mdx_jsx_block(b"<a> text"), None);
}

#[test]
fn jsx_block_fragment_line() {
    assert_eq!(scan_mdx_jsx_block(b"<>  \n"), Some(5));
    assert_eq!(scan_mdx_jsx_block(b"<> x"), None);
}

#[test]
fn jsx_block_closing_tag_then_expression() {
    assert_eq!(scan_mdx_jsx_block(b"</a>{1}"), Some(7));
}
