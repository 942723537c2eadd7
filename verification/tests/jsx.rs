use tryckeri::jsx::{parse_jsx_tag, JsxAttr};

fn s(x: &str) -> String {
    x.to_string()
}

#[test]
fn opening_tag_with_every_attribute_kind() {
    let raw = "<Foo bar=\"baz\" qux={1 + 2} { ...rest } flag />";
    let t = parse_jsx_tag(raw);
    assert_eq!(t.name, "Foo");
    assert_eq!(t.raw, raw);
    assert!(!t.is_closing);
    assert!(t.is_self_closing);
    assert_eq!(
        t.attrs,
        vec![
            JsxAttr::Literal(s("bar"), s("baz")),
            JsxAttr::Expression(s("qux"), s("1 + 2")),
            JsxAttr::Spread(s("...rest")),
            JsxAttr::Boolean(s("flag")),
        ]
    );
}

#[test]
fn closing_tag_is_trimmed_and_has_no_attributes() {
    let t = parse_jsx_tag("  </Foo>  ");
    assert_eq!(t.name, "Foo");
    assert_eq!(t.raw, "  </Foo>  ");
    assert!(t.is_closing);
    assert!(!t.is_self_closing);
    assert!(t.attrs.is_empty());
}

#[test]
fn element_with_its_closing_tag_is_self_contained() {
    let t = parse_jsx_tag("<a href='x'>text</a>");
    assert_eq!(t.name, "a");
    assert!(t.is_self_closing);
    assert_eq!(t.attrs, vec![JsxAttr::Literal(s("href"), s("x"))]);
}

#[test]
fn fragment_has_empty_name() {
    let t = parse_jsx_tag("<>");
    assert_eq!(t.name, "");
    assert!(!t.is_self_closing);
    assert!(t.attrs.is_empty());
    assert!(parse_jsx_tag("<>x</>").is_self_closing);
}

#[test]
fn member_names_and_namespaced_attributes() {
    let t = parse_jsx_tag("<x.y a-b c:d=\"1\">");
    assert_eq!(t.name, "x.y");
    assert_eq!(
        t.attrs,
        vec![JsxAttr::Boolean(s("a-b")), JsxAttr::Literal(s("c:d"), s("1"))]
    );
}

#[test]
fn expression_value_keeps_nested_braces_and_strings() {
    let t = parse_jsx_tag("<A b={{c: '}'}} />");
    assert_eq!(t.attrs, vec![JsxAttr::Expression(s("b"), s("{c: '}'}"))]);
}

#[test]
fn greater_than_inside_a_quoted_value_does_not_end_the_tag() {
    let t = parse_jsx_tag("<A t=\"a>b\" u>x");
    assert_eq!(
        t.attrs,
        vec![JsxAttr::Literal(s("t"), s("a>b")), JsxAttr::Boolean(s("u"))]
    );
}

#[test]
fn non_ascii_values_are_kept_whole() {
    let t = parse_jsx_tag("<Ä title=\"héllo\" />");
    assert_eq!(t.name, "Ä");
    assert_eq!(t.attrs, vec![JsxAttr::Literal(s("title"), s("héllo"))]);
}
