use tryckeri::hast::{hast_arena_to_html, HastBuilder, Property, PropertyValue};

#[test]
fn serialize_serialize_simple_paragraph() {
    let mut builder = HastBuilder::new();
    builder.open_root();
    builder.open_element("p");
    builder.add_text("Hello");
    builder.close();
    let hast = builder.finish();
    assert_eq!(hast_arena_to_html(&hast), "<p>Hello</p>");
}

#[test]
fn serialize_serialize_element_with_attribute() {
    let mut builder = HastBuilder::new();
    builder.open_root();
    let link_id = builder.open_element("a");
    let name = builder.alloc_string("href");
    let val = builder.alloc_string("url");
    builder.set_properties(
        link_id,
        &[Property {
            name,
            value: PropertyValue::String(val),
        }],
    );
    builder.add_text("text");
    builder.close();
    let hast = builder.finish();
    assert_eq!(hast_arena_to_html(&hast), "<a href=\"url\">text</a>");
}

#[test]
fn serialize_serialize_boolean_attribute_true() {
    let mut builder = HastBuilder::new();
    builder.open_root();
    let input_id = builder.open_element("input");
    let name = builder.alloc_string("disabled");
    builder.set_properties(
        input_id,
        &[Property {
            name,
            value: PropertyValue::Bool(true),
        }],
    );
    builder.close();
    let hast = builder.finish();
    assert_eq!(hast_arena_to_html(&hast), "<input disabled>");
}

#[test]
fn serialize_serialize_boolean_attribute_false_omitted() {
    let mut builder = HastBuilder::new();
    builder.open_root();
    let input_id = builder.open_element("input");
    let name = builder.alloc_string("checked");
    builder.set_properties(
        input_id,
        &[Property {
            name,
            value: PropertyValue::Bool(false),
        }],
    );
    builder.close();
    let hast = builder.finish();
    // false boolean attribute should be omitted entirely
    assert_eq!(hast_arena_to_html(&hast), "<input>");
}

#[test]
fn serialize_serialize_void_element_br() {
    let mut builder = HastBuilder::new();
    builder.open_root();
    builder.open_element("br");
    builder.close();
    let hast = builder.finish();
    assert_eq!(hast_arena_to_html(&hast), "<br>");
}

#[test]
fn serialize_serialize_void_element_hr() {
    let mut builder = HastBuilder::new();
    builder.open_root();
    builder.open_element("hr");
    builder.close();
    let hast = builder.finish();
    assert_eq!(hast_arena_to_html(&hast), "<hr>");
}

#[test]
fn serialize_serialize_text_escaping() {
    let mut builder = HastBuilder::new();
    builder.open_root();
    builder.open_element("p");
    builder.add_text("<foo> & \"bar\"");
    builder.close();
    let hast = builder.finish();
    // Double quotes don't need escaping in text content (only in attributes)
    assert_eq!(hast_arena_to_html(&hast), "<p>&lt;foo&gt; &amp; \"bar\"</p>");
}

#[test]
fn serialize_serialize_attribute_escaping() {
    let mut builder = HastBuilder::new();
    builder.open_root();
    let link_id = builder.open_element("a");
    let name = builder.alloc_string("href");
    let val = builder.alloc_string("url?a=1&b=\"2\"");
    builder.set_properties(
        link_id,
        &[Property {
            name,
            value: PropertyValue::String(val),
        }],
    );
    builder.add_text("link");
    builder.close();
    let hast = builder.finish();
    assert_eq!(
        hast_arena_to_html(&hast),
        "<a href=\"url?a=1&amp;b=&quot;2&quot;\">link</a>"
    );
}

#[test]
fn serialize_serialize_nested_elements() {
    let mut builder = HastBuilder::new();
    builder.open_root();
    builder.open_element("p");
    builder.open_element("strong");
    builder.add_text("bold");
    builder.close();
    builder.close();
    let hast = builder.finish();
    assert_eq!(hast_arena_to_html(&hast), "<p><strong>bold</strong></p>");
}

#[test]
fn serialize_serialize_multiple_children_in_list() {
    let mut builder = HastBuilder::new();
    builder.open_root();
    builder.open_element("ul");
    builder.open_element("li");
    builder.add_text("a");
    builder.close();
    builder.open_element("li");
    builder.add_text("b");
    builder.close();
    builder.close();
    let hast = builder.finish();
    assert_eq!(hast_arena_to_html(&hast), "<ul><li>a</li><li>b</li></ul>");
}

#[test]
fn serialize_serialize_comment_node() {
    let mut builder = HastBuilder::new();
    builder.open_root();
    builder.add_comment("comment");
    let hast = builder.finish();
    assert_eq!(hast_arena_to_html(&hast), "<!--comment-->");
}

#[test]
fn serialize_serialize_doctype() {
    let mut builder = HastBuilder::new();
    builder.open_root();
    builder.add_doctype();
    let hast = builder.finish();
    assert_eq!(hast_arena_to_html(&hast), "<!doctype html>");
}

#[test]
fn serialize_serialize_raw_passthrough_not_escaped() {
    let mut builder = HastBuilder::new();
    builder.open_root();
    builder.add_raw("<div class=\"foo\">raw &amp; content</div>");
    let hast = builder.finish();
    // Raw nodes must not be escaped
    assert_eq!(
        hast_arena_to_html(&hast),
        "<div class=\"foo\">raw &amp; content</div>"
    );
}

#[test]
fn serialize_serialize_space_separated_class_property() {
    let mut builder = HastBuilder::new();
    builder.open_root();
    let span_id = builder.open_element("span");
    let name = builder.alloc_string("class");
    let val = builder.alloc_string("foo bar");
    builder.set_properties(
        span_id,
        &[Property {
            name,
            value: PropertyValue::SpaceSeparated(val),
        }],
    );
    builder.add_text("text");
    builder.close();
    let hast = builder.finish();
    assert_eq!(hast_arena_to_html(&hast), "<span class=\"foo bar\">text</span>");
}

#[test]
fn unclosed_elements_are_closed_by_finish() {
    let mut builder = HastBuilder::new();
    builder.open_root();
    builder.open_element("div");
    builder.open_element("em");
    builder.add_text("x");
    let hast = builder.finish();
    assert_eq!(hast_arena_to_html(&hast), "<div><em>x</em></div>");
}

#[test]
fn properties_render_in_order_and_can_be_replaced() {
    let mut builder = HastBuilder::new();
    builder.open_root();
    let img = builder.open_element("img");
    let src = builder.alloc_string("src");
    let url = builder.alloc_string("a.png");
    let alt = builder.alloc_string("alt");
    let text = builder.alloc_string("<A & B>");
    builder.set_properties(img, &[Property { name: alt, value: PropertyValue::String(url) }]);
    builder.set_properties(
        img,
        &[
            Property { name: src, value: PropertyValue::String(url) },
            Property { name: alt, value: PropertyValue::CommaSeparated(text) },
        ],
    );
    builder.close();
    let hast = builder.finish();
    assert_eq!(hast_arena_to_html(&hast), "<img src=\"a.png\" alt=\"<A &amp; B>\">");
}

#[test]
fn properties_on_a_text_node_are_ignored() {
    let mut builder = HastBuilder::new();
    builder.open_root();
    builder.open_element("p");
    builder.add_text("hi");
    let name = builder.alloc_string("id");
    // node 2 is the text leaf
    builder.set_properties(2, &[Property { name, value: PropertyValue::Bool(true) }]);
    builder.close();
    let hast = builder.finish();
    assert_eq!(hast_arena_to_html(&hast), "<p>hi</p>");
}

#[test]
fn unicode_text_survives_serialisation() {
    let mut builder = HastBuilder::new();
    builder.open_root();
    builder.open_element("p");
    builder.add_text("ὐ < 🪐");
    builder.close();
    let hast = builder.finish();
    assert_eq!(hast_arena_to_html(&hast), "<p>ὐ &lt; 🪐</p>");
    assert_eq!(hast.arena().len(), 3);
}
