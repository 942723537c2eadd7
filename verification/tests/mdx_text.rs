use tryckeri::mdx_text::{expand_tabs, replace_eols_with_spaces};
use tryckeri::properties::prop_to_attr_name;

#[test]
fn line_endings_become_single_spaces() {
    assert_eq!(replace_eols_with_spaces("a\r\nb\rc\nd"), "a b c d");
    assert_eq!(replace_eols_with_spaces("\n\n"), "  ");
    assert_eq!(replace_eols_with_spaces("plain"), "plain");
}

#[test]
fn leading_tab_expands_to_four_columns() {
    assert_eq!(expand_tabs("\tfoo"), "    foo");
}

#[test]
fn tab_after_spaces_reaches_next_stop_and_later_tabs_stay() {
    assert_eq!(expand_tabs("  \tx\ty"), "    x\ty");
}

#[test]
fn each_line_has_its_own_indentation() {
    assert_eq!(expand_tabs("a\n\tb\n"), "a\n    b\n");
    assert_eq!(expand_tabs("\tfoo\n"), "    foo\n");
    assert_eq!(expand_tabs("a\tb"), "a\tb");
    assert_eq!(expand_tabs(""), "");
}

#[test]
fn data_props_are_kebab_cased() {
    assert_eq!(prop_to_attr_name("dataFooBar"), "data-foo-bar");
    assert_eq!(prop_to_attr_name("data-foo"), "data-foo");
    assert_eq!(prop_to_attr_name("data123"), "data-123");
}

#[test]
fn invalid_data_props_fall_back_to_the_tables() {
    assert_eq!(prop_to_attr_name("data_x"), "data_x");
    assert_eq!(prop_to_attr_name("dataé"), "dataé");
    assert_eq!(prop_to_attr_name("data"), "data");
}

#[test]
fn react_and_shared_exceptions() {
    assert_eq!(prop_to_attr_name("classId"), "classID");
    assert_eq!(prop_to_attr_name("xmlnsXLink"), "xmlnsXlink");
    assert_eq!(prop_to_attr_name("ariaHidden"), "aria-hidden");
    assert_eq!(prop_to_attr_name("onClick"), "onClick");
}
