use tryckeri::properties::property_to_attribute;

#[test]
fn html_special_cases() {
    assert_eq!(property_to_attribute("className"), "class");
    assert_eq!(property_to_attribute("htmlFor"), "for");
    assert_eq!(property_to_attribute("httpEquiv"), "http-equiv");
    assert_eq!(property_to_attribute("acceptCharset"), "accept-charset");
}

#[test]
fn known_html_properties_are_lowercased() {
    assert_eq!(property_to_attribute("srcSet"), "srcset");
    assert_eq!(property_to_attribute("maxLength"), "maxlength");
    assert_eq!(property_to_attribute("minLength"), "minlength");
    assert_eq!(property_to_attribute("readOnly"), "readonly");
    assert_eq!(property_to_attribute("autoPlay"), "autoplay");
    assert_eq!(property_to_attribute("autoFocus"), "autofocus");
    assert_eq!(property_to_attribute("contentEditable"), "contenteditable");
    assert_eq!(property_to_attribute("tabIndex"), "tabindex");
    assert_eq!(property_to_attribute("colSpan"), "colspan");
    assert_eq!(property_to_attribute("rowSpan"), "rowspan");
    assert_eq!(property_to_attribute("crossOrigin"), "crossorigin");
    assert_eq!(property_to_attribute("dateTime"), "datetime");
    assert_eq!(property_to_attribute("charSet"), "charset");
    assert_eq!(property_to_attribute("noValidate"), "novalidate");
    assert_eq!(property_to_attribute("referrerPolicy"), "referrerpolicy");
    assert_eq!(property_to_attribute("inputMode"), "inputmode");
    assert_eq!(property_to_attribute("enterKeyHint"), "enterkeyhint");
    assert_eq!(property_to_attribute("spellCheck"), "spellcheck");
    assert_eq!(property_to_attribute("accessKey"), "accesskey");
    assert_eq!(property_to_attribute("itemProp"), "itemprop");
    assert_eq!(property_to_attribute("imageSrcSet"), "imagesrcset");
    assert_eq!(property_to_attribute("formNoValidate"), "formnovalidate");
}

#[test]
fn event_handlers_are_lowercased() {
    assert_eq!(property_to_attribute("onClick"), "onclick");
    assert_eq!(property_to_attribute("onKeyDown"), "onkeydown");
    assert_eq!(property_to_attribute("onMouseOver"), "onmouseover");
    assert_eq!(
        property_to_attribute("onCanPlayThrough"),
        "oncanplaythrough"
    );
}

#[test]
fn legacy_properties_are_lowercased() {
    assert_eq!(property_to_attribute("bgColor"), "bgcolor");
    assert_eq!(property_to_attribute("cellPadding"), "cellpadding");
    assert_eq!(property_to_attribute("vAlign"), "valign");
    assert_eq!(property_to_attribute("longDesc"), "longdesc");
}

#[test]
fn aria_lowercases_suffix_without_inner_hyphens() {
    assert_eq!(property_to_attribute("ariaHidden"), "aria-hidden");
    assert_eq!(property_to_attribute("ariaLive"), "aria-live");
    // ARIA attributes do NOT get inner hyphens between words.
    assert_eq!(property_to_attribute("ariaValueNow"), "aria-valuenow");
    assert_eq!(
        property_to_attribute("ariaActiveDescendant"),
        "aria-activedescendant"
    );
}

#[test]
fn data_kebab_cases_suffix() {
    assert_eq!(property_to_attribute("dataLanguage"), "data-language");
    assert_eq!(property_to_attribute("dataFooBar"), "data-foo-bar");
}

#[test]
fn xlink_namespaces_lowercased_suffix() {
    assert_eq!(property_to_attribute("xLinkHref"), "xlink:href");
    assert_eq!(property_to_attribute("xLinkActuate"), "xlink:actuate");
    assert_eq!(property_to_attribute("xLinkArcRole"), "xlink:arcrole");
    assert_eq!(property_to_attribute("xLinkType"), "xlink:type");
}

#[test]
fn xml_namespaces_lowercased_suffix() {
    assert_eq!(property_to_attribute("xmlLang"), "xml:lang");
    assert_eq!(property_to_attribute("xmlBase"), "xml:base");
    assert_eq!(property_to_attribute("xmlSpace"), "xml:space");
}

#[test]
fn xmlns_special_cases() {
    assert_eq!(property_to_attribute("xmlnsXLink"), "xmlns:xlink");
}

#[test]
fn unknown_properties_pass_through() {
    assert_eq!(property_to_attribute("foo"), "foo");
    assert_eq!(property_to_attribute("my-custom"), "my-custom");
    // Property that does not start with an uppercase after the prefix is unchanged.
    assert_eq!(property_to_attribute("datatype"), "datatype");
    assert_eq!(property_to_attribute("arial"), "arial");
    // Custom/React-style properties unknown to property-information pass through.
    assert_eq!(
        property_to_attribute("dangerouslySetInnerHTML"),
        "dangerouslySetInnerHTML"
    );
    assert_eq!(property_to_attribute("customProp"), "customProp");
}

#[test]
fn namespace_needs_an_uppercase_letter_after_the_prefix() {
    assert_eq!(property_to_attribute("xml"), "xml");
    assert_eq!(property_to_attribute("xmlns"), "xmlns");
    assert_eq!(property_to_attribute("xmlnsFoo"), "xmlnsFoo");
    assert_eq!(property_to_attribute("dataX"), "data-x");
    assert_eq!(property_to_attribute("data"), "data");
    assert_eq!(property_to_attribute("aria"), "aria");
}

#[test]
fn data_suffix_keeps_digits_and_non_ascii() {
    assert_eq!(property_to_attribute("dataFoo2Bar"), "data-foo2-bar");
    assert_eq!(property_to_attribute("dataÉtéX"), "dataÉtéX");
    assert_eq!(property_to_attribute("dataAÉtéX"), "data-aÉté-x");
    assert_eq!(property_to_attribute("ariaXÉY"), "aria-xÉy");
}

#[test]
fn known_names_match_exactly() {
    assert_eq!(property_to_attribute("onclick"), "onclick");
    assert_eq!(property_to_attribute("OnClick"), "OnClick");
    assert_eq!(property_to_attribute("disableRemotePlayback"), "disableremoteplayback");
}

