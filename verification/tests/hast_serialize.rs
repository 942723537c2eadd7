use tryckeri::hast::{hast_to_html, HastBuilder, Property, PropertyValue};

#[test]
fn hast_crate_simple_paragraph() {
    let mut builder = HastBuilder::new();
    builder.open_root();
    builder.open_element("p");
    builder.add_text("Hello");
    builder.close();
    let hast = builder.finish();
    assert_eq!(hast_to_html(&hast), "<p>Hello</p>");
}

#[test]
fn hast_crate_element_with_attribute() {
    let mut builder = HastBuilder::new();
    builder.open_root();
    let link_id = builder.open_element("a");
    let name = builder.alloc_string("href");
    let val = builder.alloc_string("url");
    builder.set_properties(
        link_id,
        &[Property {
            name,
            value: PropertyValue::String(val),
        }],
    );
    builder.add_text("text");
    builder.close();
    let hast = builder.finish();
    assert_eq!(hast_to_html(&hast), "<a href=\"url\">text</a>");
}

#[test]
fn hast_crate_boolean_attribute_true() {
    let mut builder = HastBuilder::new();
    builder.open_root();
    let input_id = builder.open_element("input");
    let name = builder.alloc_string("disabled");
    builder.set_properties(
        input_id,
        &[Property {
            name,
            value: PropertyValue::Bool(true),
        }],
    );
    builder.close();
    let hast = builder.finish();
    assert_eq!(hast_to_html(&hast), "<input disabled />");
}

#[test]
fn hast_crate_boolean_attribute_false_omitted() {
    let mut builder = HastBuilder::new();
    builder.open_root();
    let input_id = builder.open_element("input");
    let name = builder.alloc_string("checked");
    builder.set_properties(
        input_id,
        &[Property {
            name,
            value: PropertyValue::Bool(false),
        }],
    );
    builder.close();
    let hast = builder.finish();
    // false boolean attribute should be omitted entirely
    assert_eq!(hast_to_html(&hast), "<input />");
}

#[test]
fn hast_crate_void_element_br() {
    let mut builder = HastBuilder::new();
    builder.open_root();
    builder.open_element("br");
    builder.close();
    let hast = builder.finish();
    assert_eq!(hast_to_html(&hast), "<br />");
}

#[test]
fn hast_crate_void_element_hr() {
    let mut builder = HastBuilder::new();
    builder.open_root();
    builder.open_element("hr");
    builder.close();
    let hast = builder.finish();
    assert_eq!(hast_to_html(&hast), "<hr />");
}

#[test]
fn hast_crate_text_escaping() {
    let mut builder = HastBuilder::new();
    builder.open_root();
    builder.open_element("p");
    builder.add_text("<foo> & \"bar\"");
    builder.close();
    let hast = builder.finish();
    // Double quotes don't need escaping in text content (only in attributes)
    assert_eq!(hast_to_html(&hast), "<p>&lt;foo&gt; &amp; &quot;bar&quot;</p>");
}

#[test]
fn hast_crate_attribute_escaping() {
    let mut builder = HastBuilder::new();
    builder.open_root();
    let link_id = builder.open_element("a");
    let name = builder.alloc_string("href");
    let val = builder.alloc_string("url?a=1&b=\"2\"");
    builder.set_properties(
        link_id,
        &[Property {
            name,
            value: PropertyValue::String(val),
        }],
    );
    builder.add_text("link");
    builder.close();
    let hast = builder.finish();
    assert_eq!(
        hast_to_html(&hast),
        "<a href=\"url?a=1&amp;b=&quot;2&quot;\">link</a>"
    );
}

#[test]
fn hast_crate_nested_elements() {
    let mut builder = HastBuilder::new();
    builder.open_root();
    builder.open_element("p");
    builder.open_element("strong");
    builder.add_text("bold");
    builder.close();
    builder.close();
    let hast = builder.finish();
    assert_eq!(hast_to_html(&hast), "<p><strong>bold</strong></p>");
}

#[test]
fn hast_crate_multiple_children_in_list() {
    let mut builder = HastBuilder::new();
    builder.open_root();
    builder.open_element("ul");
    builder.open_element("li");
    builder.add_text("a");
    builder.close();
    builder.open_element("li");
    builder.add_text("b");
    builder.close();
    builder.close();
    let hast = builder.finish();
    assert_eq!(hast_to_html(&hast), "<ul><li>a</li><li>b</li></ul>");
}

#[test]
fn hast_crate_comment_node() {
    let mut builder = HastBuilder::new();
    builder.open_root();
    builder.add_comment("comment");
    let hast = builder.finish();
    assert_eq!(hast_to_html(&hast), "<!--comment-->");
}

#[test]
fn hast_crate_doctype() {
    let mut builder = HastBuilder::new();
    builder.open_root();
    builder.add_doctype();
    let hast = builder.finish();
    assert_eq!(hast_to_html(&hast), "<!doctype html>");
}

#[test]
fn hast_crate_raw_passthrough_not_escaped() {
    let mut builder = HastBuilder::new();
    builder.open_root();
    builder.add_raw("<div class=\"foo\">raw &amp; content</div>");
    let hast = builder.finish();
    // Raw nodes must not be escaped
    assert_eq!(
        hast_to_html(&hast),
        "<div class=\"foo\">raw &amp; content</div>"
    );
}

#[test]
fn hast_crate_space_separated_class_property() {
    let mut builder = HastBuilder::new();
    builder.open_root();
    let span_id = builder.open_element("span");
    let name = builder.alloc_string("class");
    let val = builder.alloc_string("foo bar");
    builder.set_properties(
        span_id,
        &[Property {
            name,
            value: PropertyValue::SpaceSeparated(val),
        }],
    );
    builder.add_text("text");
    builder.close();
    let hast = builder.finish();
    assert_eq!(hast_to_html(&hast), "<span class=\"foo bar\">text</span>");
}
