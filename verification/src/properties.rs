//! HAST property names to HTML attribute names: the special cases, the
//! known HTML properties that are lowercased, the `aria`, `data`, `xLink`,
//! `xml` and `xmlns` namespaces, and everything else unchanged.
use vstd::prelude::*;
use vstd::string::*;
use crate::text::{push_char, str_eq};

verus! {

/// `c` is an ASCII uppercase letter.
pub open spec fn is_upper(c: char) -> bool {
    'A' <= c <= 'Z'
}

/// The ASCII lowercase of `c` (other characters unchanged).
pub open spec fn lower_char(c: char) -> char {
    if is_upper(c) {
        ((c as u32) + 32) as char
    } else {
        c
    }
}

/// Every ASCII uppercase letter of `s` lowercased.
pub open spec fn lower_ascii(s: Seq<char>) -> Seq<char> {
    s.map_values(|c: char| lower_char(c))
}

/// `s` with a hyphen before each ASCII uppercase letter, which is lowercased.
pub open spec fn kebab(s: Seq<char>) -> Seq<char>
    decreases s.len(),
{
    if s.len() == 0 {
        Seq::empty()
    } else if is_upper(s.last()) {
        kebab(s.drop_last()) + seq!['-', lower_char(s.last())]
    } else {
        kebab(s.drop_last()).push(s.last())
    }
}

/// What follows `prefix` in `name`, when `name` starts with `prefix` and
/// an ASCII uppercase letter comes right after it.
pub open spec fn ns_suffix(name: Seq<char>, prefix: Seq<char>) -> Option<Seq<char>> {
    if prefix.len() < name.len() && name.subrange(0, prefix.len() as int) == prefix && is_upper(
        name[prefix.len() as int],
    ) {
        Some(name.subrange(prefix.len() as int, name.len() as int))
    } else {
        None
    }
}

/// The known HTML properties whose attribute is the lowercased name.
pub open spec fn known_lowercased(name: Seq<char>) -> bool {
    ||| name == "accessKey"@
    ||| name == "allowFullScreen"@
    ||| name == "allowPaymentRequest"@
    ||| name == "allowUserMedia"@
    ||| name == "autoCapitalize"@
    ||| name == "autoComplete"@
    ||| name == "autoFocus"@
    ||| name == "autoPlay"@
    ||| name == "charSet"@
    ||| name == "colSpan"@
    ||| name == "contentEditable"@
    ||| name == "controlsList"@
    ||| name == "crossOrigin"@
    ||| name == "dateTime"@
    ||| name == "dirName"@
    ||| name == "encType"@
    ||| name == "enterKeyHint"@
    ||| name == "fetchPriority"@
    ||| name == "formAction"@
    ||| name == "formEncType"@
    ||| name == "formMethod"@
    ||| name == "formNoValidate"@
    ||| name == "formTarget"@
    ||| name == "hrefLang"@
    ||| name == "imageSizes"@
    ||| name == "imageSrcSet"@
    ||| name == "inputMode"@
    ||| name == "isMap"@
    ||| name == "itemId"@
    ||| name == "itemProp"@
    ||| name == "itemRef"@
    ||| name == "itemScope"@
    ||| name == "itemType"@
    ||| name == "maxLength"@
    ||| name == "minLength"@
    ||| name == "noModule"@
    ||| name == "noValidate"@
    ||| name == "playsInline"@
    ||| name == "popoverTarget"@
    ||| name == "popoverTargetAction"@
    ||| name == "readOnly"@
    ||| name == "referrerPolicy"@
    ||| name == "rowSpan"@
    ||| name == "shadowRootClonable"@
    ||| name == "shadowRootDelegatesFocus"@
    ||| name == "shadowRootMode"@
    ||| name == "spellCheck"@
    ||| name == "srcDoc"@
    ||| name == "srcLang"@
    ||| name == "srcSet"@
    ||| name == "tabIndex"@
    ||| name == "typeMustMatch"@
    ||| name == "useMap"@
    ||| name == "writingSuggestions"@
    ||| name == "onAbort"@
    ||| name == "onAfterPrint"@
    ||| name == "onAuxClick"@
    ||| name == "onBeforeMatch"@
    ||| name == "onBeforePrint"@
    ||| name == "onBeforeToggle"@
    ||| name == "onBeforeUnload"@
    ||| name == "onBlur"@
    ||| name == "onCancel"@
    ||| name == "onCanPlay"@
    ||| name == "onCanPlayThrough"@
    ||| name == "onChange"@
    ||| name == "onClick"@
    ||| name == "onClose"@
    ||| name == "onContextLost"@
    ||| name == "onContextMenu"@
    ||| name == "onContextRestored"@
    ||| name == "onCopy"@
    ||| name == "onCueChange"@
    ||| name == "onCut"@
    ||| name == "onDblClick"@
    ||| name == "onDrag"@
    ||| name == "onDragEnd"@
    ||| name == "onDragEnter"@
    ||| name == "onDragExit"@
    ||| name == "onDragLeave"@
    ||| name == "onDragOver"@
    ||| name == "onDragStart"@
    ||| name == "onDrop"@
    ||| name == "onDurationChange"@
    ||| name == "onEmptied"@
    ||| name == "onEnded"@
    ||| name == "onError"@
    ||| name == "onFocus"@
    ||| name == "onFormData"@
    ||| name == "onHashChange"@
    ||| name == "onInput"@
    ||| name == "onInvalid"@
    ||| name == "onKeyDown"@
    ||| name == "onKeyPress"@
    ||| name == "onKeyUp"@
    ||| name == "onLanguageChange"@
    ||| name == "onLoad"@
    ||| name == "onLoadedData"@
    ||| name == "onLoadedMetadata"@
    ||| name == "onLoadEnd"@
    ||| name == "onLoadStart"@
    ||| name == "onMessage"@
    ||| name == "onMessageError"@
    ||| name == "onMouseDown"@
    ||| name == "onMouseEnter"@
    ||| name == "onMouseLeave"@
    ||| name == "onMouseMove"@
    ||| name == "onMouseOut"@
    ||| name == "onMouseOver"@
    ||| name == "onMouseUp"@
    ||| name == "onOffline"@
    ||| name == "onOnline"@
    ||| name == "onPageHide"@
    ||| name == "onPageShow"@
    ||| name == "onPaste"@
    ||| name == "onPause"@
    ||| name == "onPlay"@
    ||| name == "onPlaying"@
    ||| name == "onPopState"@
    ||| name == "onProgress"@
    ||| name == "onRateChange"@
    ||| name == "onRejectionHandled"@
    ||| name == "onReset"@
    ||| name == "onResize"@
    ||| name == "onScroll"@
    ||| name == "onScrollEnd"@
    ||| name == "onSecurityPolicyViolation"@
    ||| name == "onSeeked"@
    ||| name == "onSeeking"@
    ||| name == "onSelect"@
    ||| name == "onSlotChange"@
    ||| name == "onStalled"@
    ||| name == "onStorage"@
    ||| name == "onSubmit"@
    ||| name == "onSuspend"@
    ||| name == "onTimeUpdate"@
    ||| name == "onToggle"@
    ||| name == "onUnhandledRejection"@
    ||| name == "onUnload"@
    ||| name == "onVolumeChange"@
    ||| name == "onWaiting"@
    ||| name == "onWheel"@
    ||| name == "aLink"@
    ||| name == "bgColor"@
    ||| name == "borderColor"@
    ||| name == "bottomMargin"@
    ||| name == "cellPadding"@
    ||| name == "cellSpacing"@
    ||| name == "charOff"@
    ||| name == "classId"@
    ||| name == "codeBase"@
    ||| name == "codeType"@
    ||| name == "frameBorder"@
    ||| name == "hSpace"@
    ||| name == "leftMargin"@
    ||| name == "longDesc"@
    ||| name == "lowSrc"@
    ||| name == "marginHeight"@
    ||| name == "marginWidth"@
    ||| name == "noHref"@
    ||| name == "noResize"@
    ||| name == "noShade"@
    ||| name == "noWrap"@
    ||| name == "rightMargin"@
    ||| name == "topMargin"@
    ||| name == "vAlign"@
    ||| name == "vLink"@
    ||| name == "vSpace"@
    ||| name == "valueType"@
    ||| name == "allowTransparency"@
    ||| name == "autoCorrect"@
    ||| name == "autoSave"@
    ||| name == "disablePictureInPicture"@
    ||| name == "disableRemotePlayback"@
}

/// The HTML attribute name of a HAST property name.
pub open spec fn attribute_name(name: Seq<char>) -> Seq<char> {
    if name == "className"@ {
        "class"@
    } else if name == "htmlFor"@ {
        "for"@
    } else if name == "httpEquiv"@ {
        "http-equiv"@
    } else if name == "acceptCharset"@ {
        "accept-charset"@
    } else if name == "xmlnsXLink"@ {
        "xmlns:xlink"@
    } else if known_lowercased(name) {
        lower_ascii(name)
    } else if ns_suffix(name, "xLink"@) is Some {
        "xlink:"@ + lower_ascii(ns_suffix(name, "xLink"@)->0)
    } else if ns_suffix(name, "xml"@) is Some {
        "xml:"@ + lower_ascii(ns_suffix(name, "xml"@)->0)
    } else if ns_suffix(name, "aria"@) is Some {
        "aria-"@ + lower_ascii(ns_suffix(name, "aria"@)->0)
    } else if ns_suffix(name, "data"@) is Some {
        "data"@ + kebab(ns_suffix(name, "data"@)->0)
    } else {
        name
    }
}

/// The ASCII lowercase of a character.
fn ascii_lower(c: char) -> (r: char)
    ensures
        r == lower_char(c),
{
    if 'A' <= c && c <= 'Z' {
        ((c as u8) + 32) as char
    } else {
        c
    }
}

/// Known HTML property names whose HTML attribute form is just the lowercased
/// property name. Properties outside this list, including custom ones, are
/// passed through unchanged.
fn is_known_lowercased_html_property(name: &str) -> (r: bool)
    ensures
        r == known_lowercased(name@),
{
    str_eq(name, "accessKey")
        || str_eq(name, "allowFullScreen")
        || str_eq(name, "allowPaymentRequest")
        || str_eq(name, "allowUserMedia")
        || str_eq(name, "autoCapitalize")
        || str_eq(name, "autoComplete")
        || str_eq(name, "autoFocus")
        || str_eq(name, "autoPlay")
        || str_eq(name, "charSet")
        || str_eq(name, "colSpan")
        || str_eq(name, "contentEditable")
        || str_eq(name, "controlsList")
        || str_eq(name, "crossOrigin")
        || str_eq(name, "dateTime")
        || str_eq(name, "dirName")
        || str_eq(name, "encType")
        || str_eq(name, "enterKeyHint")
        || str_eq(name, "fetchPriority")
        || str_eq(name, "formAction")
        || str_eq(name, "formEncType")
        || str_eq(name, "formMethod")
        || str_eq(name, "formNoValidate")
        || str_eq(name, "formTarget")
        || str_eq(name, "hrefLang")
        || str_eq(name, "imageSizes")
        || str_eq(name, "imageSrcSet")
        || str_eq(name, "inputMode")
        || str_eq(name, "isMap")
        || str_eq(name, "itemId")
        || str_eq(name, "itemProp")
        || str_eq(name, "itemRef")
        || str_eq(name, "itemScope")
        || str_eq(name, "itemType")
        || str_eq(name, "maxLength")
        || str_eq(name, "minLength")
        || str_eq(name, "noModule")
        || str_eq(name, "noValidate")
        || str_eq(name, "playsInline")
        || str_eq(name, "popoverTarget")
        || str_eq(name, "popoverTargetAction")
        || str_eq(name, "readOnly")
        || str_eq(name, "referrerPolicy")
        || str_eq(name, "rowSpan")
        || str_eq(name, "shadowRootClonable")
        || str_eq(name, "shadowRootDelegatesFocus")
        || str_eq(name, "shadowRootMode")
        || str_eq(name, "spellCheck")
        || str_eq(name, "srcDoc")
        || str_eq(name, "srcLang")
        || str_eq(name, "srcSet")
        || str_eq(name, "tabIndex")
        || str_eq(name, "typeMustMatch")
        || str_eq(name, "useMap")
        || str_eq(name, "writingSuggestions")
        || str_eq(name, "onAbort")
        || str_eq(name, "onAfterPrint")
        || str_eq(name, "onAuxClick")
        || str_eq(name, "onBeforeMatch")
        || str_eq(name, "onBeforePrint")
        || str_eq(name, "onBeforeToggle")
        || str_eq(name, "onBeforeUnload")
        || str_eq(name, "onBlur")
        || str_eq(name, "onCancel")
        || str_eq(name, "onCanPlay")
        || str_eq(name, "onCanPlayThrough")
        || str_eq(name, "onChange")
        || str_eq(name, "onClick")
        || str_eq(name, "onClose")
        || str_eq(name, "onContextLost")
        || str_eq(name, "onContextMenu")
        || str_eq(name, "onContextRestored")
        || str_eq(name, "onCopy")
        || str_eq(name, "onCueChange")
        || str_eq(name, "onCut")
        || str_eq(name, "onDblClick")
        || str_eq(name, "onDrag")
        || str_eq(name, "onDragEnd")
        || str_eq(name, "onDragEnter")
        || str_eq(name, "onDragExit")
        || str_eq(name, "onDragLeave")
        || str_eq(name, "onDragOver")
        || str_eq(name, "onDragStart")
        || str_eq(name, "onDrop")
        || str_eq(name, "onDurationChange")
        || str_eq(name, "onEmptied")
        || str_eq(name, "onEnded")
        || str_eq(name, "onError")
        || str_eq(name, "onFocus")
        || str_eq(name, "onFormData")
        || str_eq(name, "onHashChange")
        || str_eq(name, "onInput")
        || str_eq(name, "onInvalid")
        || str_eq(name, "onKeyDown")
        || str_eq(name, "onKeyPress")
        || str_eq(name, "onKeyUp")
        || str_eq(name, "onLanguageChange")
        || str_eq(name, "onLoad")
        || str_eq(name, "onLoadedData")
        || str_eq(name, "onLoadedMetadata")
        || str_eq(name, "onLoadEnd")
        || str_eq(name, "onLoadStart")
        || str_eq(name, "onMessage")
        || str_eq(name, "onMessageError")
        || str_eq(name, "onMouseDown")
        || str_eq(name, "onMouseEnter")
        || str_eq(name, "onMouseLeave")
        || str_eq(name, "onMouseMove")
        || str_eq(name, "onMouseOut")
        || str_eq(name, "onMouseOver")
        || str_eq(name, "onMouseUp")
        || str_eq(name, "onOffline")
        || str_eq(name, "onOnline")
        || str_eq(name, "onPageHide")
        || str_eq(name, "onPageShow")
        || str_eq(name, "onPaste")
        || str_eq(name, "onPause")
        || str_eq(name, "onPlay")
        || str_eq(name, "onPlaying")
        || str_eq(name, "onPopState")
        || str_eq(name, "onProgress")
        || str_eq(name, "onRateChange")
        || str_eq(name, "onRejectionHandled")
        || str_eq(name, "onReset")
        || str_eq(name, "onResize")
        || str_eq(name, "onScroll")
        || str_eq(name, "onScrollEnd")
        || str_eq(name, "onSecurityPolicyViolation")
        || str_eq(name, "onSeeked")
        || str_eq(name, "onSeeking")
        || str_eq(name, "onSelect")
        || str_eq(name, "onSlotChange")
        || str_eq(name, "onStalled")
        || str_eq(name, "onStorage")
        || str_eq(name, "onSubmit")
        || str_eq(name, "onSuspend")
        || str_eq(name, "onTimeUpdate")
        || str_eq(name, "onToggle")
        || str_eq(name, "onUnhandledRejection")
        || str_eq(name, "onUnload")
        || str_eq(name, "onVolumeChange")
        || str_eq(name, "onWaiting")
        || str_eq(name, "onWheel")
        || str_eq(name, "aLink")
        || str_eq(name, "bgColor")
        || str_eq(name, "borderColor")
        || str_eq(name, "bottomMargin")
        || str_eq(name, "cellPadding")
        || str_eq(name, "cellSpacing")
        || str_eq(name, "charOff")
        || str_eq(name, "classId")
        || str_eq(name, "codeBase")
        || str_eq(name, "codeType")
        || str_eq(name, "frameBorder")
        || str_eq(name, "hSpace")
        || str_eq(name, "leftMargin")
        || str_eq(name, "longDesc")
        || str_eq(name, "lowSrc")
        || str_eq(name, "marginHeight")
        || str_eq(name, "marginWidth")
        || str_eq(name, "noHref")
        || str_eq(name, "noResize")
        || str_eq(name, "noShade")
        || str_eq(name, "noWrap")
        || str_eq(name, "rightMargin")
        || str_eq(name, "topMargin")
        || str_eq(name, "vAlign")
        || str_eq(name, "vLink")
        || str_eq(name, "vSpace")
        || str_eq(name, "valueType")
        || str_eq(name, "allowTransparency")
        || str_eq(name, "autoCorrect")
        || str_eq(name, "autoSave")
        || str_eq(name, "disablePictureInPicture")
        || str_eq(name, "disableRemotePlayback")
}

/// The characters of a string.
fn chars_of(s: &str) -> (r: Vec<char>)
    ensures
        r@ == s@,
{
    let mut out: Vec<char> = Vec::new();
    for c in it: s.chars()
        invariant
            out@ == it.seq().subrange(0, it.index() as int),
            it.seq() == s@,
    {
        let ghost i0 = it.index();
        assert(it.seq()[i0 as int] == c);
        out.push(c);
        assert(out@ =~= it.seq().subrange(0, i0 + 1));
    }
    assert(out@ =~= s@);
    out
}

/// The suffix after `prefix`, only when the next character is ASCII
/// uppercase, so bare words like `datatype` or `arial` are not namespaced.
fn strip_namespace_prefix(name: &[char], prefix: &str) -> (r: Option<Vec<char>>)
    ensures
        r matches Some(rest) ==> ns_suffix(name@, prefix@) == Some(rest@),
        r is None ==> ns_suffix(name@, prefix@) is None,
{
    let p = chars_of(prefix);
    if p.len() >= name.len() {
        return None;
    }
    let mut i: usize = 0;
    while i < p.len()
        invariant
            i <= p@.len(),
            p@ == prefix@,
            p@.len() < name@.len(),
            name@.subrange(0, i as int) == p@.subrange(0, i as int),
        decreases p@.len() - i,
    {
        if name[i] != p[i] {
            assert(name@.subrange(0, p@.len() as int)[i as int] != p@[i as int]);
            return None;
        }
        i = i + 1;
        assert(name@.subrange(0, i as int) =~= p@.subrange(0, i as int));
    }
    assert(p@.subrange(0, i as int) =~= p@);
    let next = name[p.len()];
    if !('A' <= next && next <= 'Z') {
        return None;
    }
    let mut rest: Vec<char> = Vec::new();
    let mut k: usize = p.len();
    while k < name.len()
        invariant
            p@.len() <= k <= name@.len(),
            rest@ == name@.subrange(p@.len() as int, k as int),
        decreases name@.len() - k,
    {
        rest.push(name[k]);
        k = k + 1;
        assert(rest@ =~= name@.subrange(p@.len() as int, k as int));
    }
    Some(rest)
}

/// `prefix` followed by the suffix with ASCII letters lowercased.
fn format_namespace(prefix: &str, suffix: &[char]) -> (r: String)
    ensures
        r@ == prefix@ + lower_ascii(suffix@),
{
    let mut out = String::new();
    out.append(prefix);
    let mut k: usize = 0;
    while k < suffix.len()
        invariant
            k <= suffix@.len(),
            out@ == prefix@ + lower_ascii(suffix@.subrange(0, k as int)),
        decreases suffix@.len() - k,
    {
        let c = ascii_lower(suffix[k]);
        push_char(&mut out, c);
        k = k + 1;
        assert(lower_ascii(suffix@.subrange(0, k as int)) =~= lower_ascii(suffix@.subrange(0, k - 1)).push(c));
    }
    assert(suffix@.subrange(0, k as int) =~= suffix@);
    out
}

/// `data` followed by the kebab-cased suffix.
fn format_data_attribute(suffix: &[char]) -> (r: String)
    ensures
        r@ == "data"@ + kebab(suffix@),
{
    let mut out = String::new();
    out.append("data");
    let mut k: usize = 0;
    while k < suffix.len()
        invariant
            k <= suffix@.len(),
            out@ == "data"@ + kebab(suffix@.subrange(0, k as int)),
        decreases suffix@.len() - k,
    {
        let c = suffix[k];
        let ghost before = suffix@.subrange(0, k as int);
        assert(suffix@.subrange(0, k + 1).drop_last() =~= before);
        if 'A' <= c && c <= 'Z' {
            push_char(&mut out, '-');
            push_char(&mut out, ascii_lower(c));
        } else {
            push_char(&mut out, c);
        }
        k = k + 1;
        assert(out@ =~= "data"@ + kebab(suffix@.subrange(0, k as int)));
    }
    assert(suffix@.subrange(0, k as int) =~= suffix@);
    out
}

/// Convert a HAST (JS-style) property name to its HTML attribute name:
/// four HTML special cases (`className`, `htmlFor`, `httpEquiv`,
/// `acceptCharset`) and `xmlnsXLink`; the known HTML properties lowercased;
/// `xLinkFoo` to `xlink:foo`, `xmlFoo` to `xml:foo` and `ariaFoo` to
/// `aria-foo`, lowercasing the suffix; `dataFooBar` to `data-foo-bar`; every
/// other name unchanged.
pub fn property_to_attribute(name: &str) -> (r: String)
    ensures
        r@ == attribute_name(name@),
{
    if str_eq(name, "className") {
        return String::from_str("class");
    }
    if str_eq(name, "htmlFor") {
        return String::from_str("for");
    }
    if str_eq(name, "httpEquiv") {
        return String::from_str("http-equiv");
    }
    if str_eq(name, "acceptCharset") {
        return String::from_str("accept-charset");
    }
    if str_eq(name, "xmlnsXLink") {
        return String::from_str("xmlns:xlink");
    }
    let chars = chars_of(name);
    if is_known_lowercased_html_property(name) {
        let lowered = format_namespace("", chars.as_slice());
        proof {
            reveal_strlit("");
            assert(""@ + lower_ascii(name@) =~= lower_ascii(name@));
        }
        return lowered;
    }
    if let Some(rest) = strip_namespace_prefix(chars.as_slice(), "xLink") {
        return format_namespace("xlink:", rest.as_slice());
    }
    if let Some(rest) = strip_namespace_prefix(chars.as_slice(), "xml") {
        return format_namespace("xml:", rest.as_slice());
    }
    if let Some(rest) = strip_namespace_prefix(chars.as_slice(), "aria") {
        return format_namespace("aria-", rest.as_slice());
    }
    if let Some(rest) = strip_namespace_prefix(chars.as_slice(), "data") {
        return format_data_attribute(rest.as_slice());
    }
    String::from_str(name)
}

/// A character allowed after `data` in a data prop.
pub open spec fn data_prop_char(c: char) -> bool {
    is_upper(c) || c == '-' || c == '.' || c == ':' || ('0' <= c <= '9') || ('a' <= c <= 'z')
}

/// Kebab-casing a data prop from index `i`: `acc` holds the attribute so
/// far and `start` the first character not yet copied into it. Each
/// uppercase letter, and the first character after `data`, gets a hyphen
/// before it (unless it is one) and is lowercased; `None` on a character a
/// data prop may not hold.
pub open spec fn data_kebab_from(p: Seq<char>, i: int, start: int, acc: Seq<char>) -> Option<
    Seq<char>,
>
    decreases p.len() - i,
{
    if i < 0 || i >= p.len() {
        Some(acc + p.subrange(start, p.len() as int))
    } else if !data_prop_char(p[i]) {
        None
    } else if i == 4 || is_upper(p[i]) {
        data_kebab_from(
            p,
            i + 1,
            i + 1,
            acc + p.subrange(start, i) + (if p[i] != '-' {
                seq!['-']
            } else {
                Seq::empty()
            }) + seq![lower_char(p[i])],
        )
    } else {
        data_kebab_from(p, i + 1, start, acc)
    }
}

/// The attribute of a `data…` prop, when the prop is one.
pub open spec fn data_prop_attr(p: Seq<char>) -> Option<Seq<char>> {
    if p.len() > 4 && p.subrange(0, 4) == seq!['d', 'a', 't', 'a'] {
        data_kebab_from(p, 4, 4, seq!['d', 'a', 't', 'a'])
    } else {
        None
    }
}

/// The React props spelled differently from their attribute.
pub open spec fn react_prop(p: Seq<char>) -> Option<Seq<char>> {
    if p == "classId"@ {
        Some("classID"@)
    } else if p == "dataType"@ {
        Some("datatype"@)
    } else if p == "itemId"@ {
        Some("itemID"@)
    } else if p == "strokeDashArray"@ {
        Some("strokeDasharray"@)
    } else if p == "strokeDashOffset"@ {
        Some("strokeDashoffset"@)
    } else if p == "strokeLineCap"@ {
        Some("strokeLinecap"@)
    } else if p == "strokeLineJoin"@ {
        Some("strokeLinejoin"@)
    } else if p == "strokeMiterLimit"@ {
        Some("strokeMiterlimit"@)
    } else if p == "typeOf"@ {
        Some("typeof"@)
    } else if p == "xLinkActuate"@ {
        Some("xlinkActuate"@)
    } else if p == "xLinkArcRole"@ {
        Some("xlinkArcrole"@)
    } else if p == "xLinkHref"@ {
        Some("xlinkHref"@)
    } else if p == "xLinkRole"@ {
        Some("xlinkRole"@)
    } else if p == "xLinkShow"@ {
        Some("xlinkShow"@)
    } else if p == "xLinkTitle"@ {
        Some("xlinkTitle"@)
    } else if p == "xLinkType"@ {
        Some("xlinkType"@)
    } else if p == "xmlnsXLink"@ {
        Some("xmlnsXlink"@)
    } else {
        None
    }
}

/// The props whose attribute is not the name of the prop as written (ARIA and similar).
pub open spec fn shared_attr_exception(p: Seq<char>) -> Option<Seq<char>> {
    if p == "ariaActiveDescendant"@ {
        Some("aria-activedescendant"@)
    } else if p == "ariaAtomic"@ {
        Some("aria-atomic"@)
    } else if p == "ariaAutoComplete"@ {
        Some("aria-autocomplete"@)
    } else if p == "ariaBusy"@ {
        Some("aria-busy"@)
    } else if p == "ariaChecked"@ {
        Some("aria-checked"@)
    } else if p == "ariaColCount"@ {
        Some("aria-colcount"@)
    } else if p == "ariaColIndex"@ {
        Some("aria-colindex"@)
    } else if p == "ariaColSpan"@ {
        Some("aria-colspan"@)
    } else if p == "ariaControls"@ {
        Some("aria-controls"@)
    } else if p == "ariaCurrent"@ {
        Some("aria-current"@)
    } else if p == "ariaDescribedBy"@ {
        Some("aria-describedby"@)
    } else if p == "ariaDetails"@ {
        Some("aria-details"@)
    } else if p == "ariaDisabled"@ {
        Some("aria-disabled"@)
    } else if p == "ariaDropEffect"@ {
        Some("aria-dropeffect"@)
    } else if p == "ariaErrorMessage"@ {
        Some("aria-errormessage"@)
    } else if p == "ariaExpanded"@ {
        Some("aria-expanded"@)
    } else if p == "ariaFlowTo"@ {
        Some("aria-flowto"@)
    } else if p == "ariaGrabbed"@ {
        Some("aria-grabbed"@)
    } else if p == "ariaHasPopup"@ {
        Some("aria-haspopup"@)
    } else if p == "ariaHidden"@ {
        Some("aria-hidden"@)
    } else if p == "ariaInvalid"@ {
        Some("aria-invalid"@)
    } else if p == "ariaKeyShortcuts"@ {
        Some("aria-keyshortcuts"@)
    } else if p == "ariaLabel"@ {
        Some("aria-label"@)
    } else if p == "ariaLabelledBy"@ {
        Some("aria-labelledby"@)
    } else if p == "ariaLevel"@ {
        Some("aria-level"@)
    } else if p == "ariaLive"@ {
        Some("aria-live"@)
    } else if p == "ariaModal"@ {
        Some("aria-modal"@)
    } else if p == "ariaMultiLine"@ {
        Some("aria-multiline"@)
    } else if p == "ariaMultiSelectable"@ {
        Some("aria-multiselectable"@)
    } else if p == "ariaOrientation"@ {
        Some("aria-orientation"@)
    } else if p == "ariaOwns"@ {
        Some("aria-owns"@)
    } else if p == "ariaPlaceholder"@ {
        Some("aria-placeholder"@)
    } else if p == "ariaPosInSet"@ {
        Some("aria-posinset"@)
    } else if p == "ariaPressed"@ {
        Some("aria-pressed"@)
    } else if p == "ariaReadOnly"@ {
        Some("aria-readonly"@)
    } else if p == "ariaRelevant"@ {
        Some("aria-relevant"@)
    } else if p == "ariaRequired"@ {
        Some("aria-required"@)
    } else if p == "ariaRoleDescription"@ {
        Some("aria-roledescription"@)
    } else if p == "ariaRowCount"@ {
        Some("aria-rowcount"@)
    } else if p == "ariaRowIndex"@ {
        Some("aria-rowindex"@)
    } else if p == "ariaRowSpan"@ {
        Some("aria-rowspan"@)
    } else if p == "ariaSelected"@ {
        Some("aria-selected"@)
    } else if p == "ariaSetSize"@ {
        Some("aria-setsize"@)
    } else if p == "ariaSort"@ {
        Some("aria-sort"@)
    } else if p == "ariaValueMax"@ {
        Some("aria-valuemax"@)
    } else if p == "ariaValueMin"@ {
        Some("aria-valuemin"@)
    } else if p == "ariaValueNow"@ {
        Some("aria-valuenow"@)
    } else if p == "ariaValueText"@ {
        Some("aria-valuetext"@)
    } else {
        None
    }
}

/// The React spelling of a prop's attribute, if it has one.
fn lookup_react_prop(p: &str) -> (r: Option<String>)
    ensures
        match react_prop(p@) {
            Some(a) => r matches Some(x) && x@ == a,
            None => r is None,
        },
{
    if str_eq(p, "classId") {
        Some("classID".to_owned())
    } else if str_eq(p, "dataType") {
        Some("datatype".to_owned())
    } else if str_eq(p, "itemId") {
        Some("itemID".to_owned())
    } else if str_eq(p, "strokeDashArray") {
        Some("strokeDasharray".to_owned())
    } else if str_eq(p, "strokeDashOffset") {
        Some("strokeDashoffset".to_owned())
    } else if str_eq(p, "strokeLineCap") {
        Some("strokeLinecap".to_owned())
    } else if str_eq(p, "strokeLineJoin") {
        Some("strokeLinejoin".to_owned())
    } else if str_eq(p, "strokeMiterLimit") {
        Some("strokeMiterlimit".to_owned())
    } else if str_eq(p, "typeOf") {
        Some("typeof".to_owned())
    } else if str_eq(p, "xLinkActuate") {
        Some("xlinkActuate".to_owned())
    } else if str_eq(p, "xLinkArcRole") {
        Some("xlinkArcrole".to_owned())
    } else if str_eq(p, "xLinkHref") {
        Some("xlinkHref".to_owned())
    } else if str_eq(p, "xLinkRole") {
        Some("xlinkRole".to_owned())
    } else if str_eq(p, "xLinkShow") {
        Some("xlinkShow".to_owned())
    } else if str_eq(p, "xLinkTitle") {
        Some("xlinkTitle".to_owned())
    } else if str_eq(p, "xLinkType") {
        Some("xlinkType".to_owned())
    } else if str_eq(p, "xmlnsXLink") {
        Some("xmlnsXlink".to_owned())
    } else {
        None
    }
}

/// The attribute of a prop that the shared table renames, if any.
fn lookup_shared_attr_exception(p: &str) -> (r: Option<String>)
    ensures
        match shared_attr_exception(p@) {
            Some(a) => r matches Some(x) && x@ == a,
            None => r is None,
        },
{
    if str_eq(p, "ariaActiveDescendant") {
        Some("aria-activedescendant".to_owned())
    } else if str_eq(p, "ariaAtomic") {
        Some("aria-atomic".to_owned())
    } else if str_eq(p, "ariaAutoComplete") {
        Some("aria-autocomplete".to_owned())
    } else if str_eq(p, "ariaBusy") {
        Some("aria-busy".to_owned())
    } else if str_eq(p, "ariaChecked") {
        Some("aria-checked".to_owned())
    } else if str_eq(p, "ariaColCount") {
        Some("aria-colcount".to_owned())
    } else if str_eq(p, "ariaColIndex") {
        Some("aria-colindex".to_owned())
    } else if str_eq(p, "ariaColSpan") {
        Some("aria-colspan".to_owned())
    } else if str_eq(p, "ariaControls") {
        Some("aria-controls".to_owned())
    } else if str_eq(p, "ariaCurrent") {
        Some("aria-current".to_owned())
    } else if str_eq(p, "ariaDescribedBy") {
        Some("aria-describedby".to_owned())
    } else if str_eq(p, "ariaDetails") {
        Some("aria-details".to_owned())
    } else if str_eq(p, "ariaDisabled") {
        Some("aria-disabled".to_owned())
    } else if str_eq(p, "ariaDropEffect") {
        Some("aria-dropeffect".to_owned())
    } else if str_eq(p, "ariaErrorMessage") {
        Some("aria-errormessage".to_owned())
    } else if str_eq(p, "ariaExpanded") {
        Some("aria-expanded".to_owned())
    } else if str_eq(p, "ariaFlowTo") {
        Some("aria-flowto".to_owned())
    } else if str_eq(p, "ariaGrabbed") {
        Some("aria-grabbed".to_owned())
    } else if str_eq(p, "ariaHasPopup") {
        Some("aria-haspopup".to_owned())
    } else if str_eq(p, "ariaHidden") {
        Some("aria-hidden".to_owned())
    } else if str_eq(p, "ariaInvalid") {
        Some("aria-invalid".to_owned())
    } else if str_eq(p, "ariaKeyShortcuts") {
        Some("aria-keyshortcuts".to_owned())
    } else if str_eq(p, "ariaLabel") {
        Some("aria-label".to_owned())
    } else if str_eq(p, "ariaLabelledBy") {
        Some("aria-labelledby".to_owned())
    } else if str_eq(p, "ariaLevel") {
        Some("aria-level".to_owned())
    } else if str_eq(p, "ariaLive") {
        Some("aria-live".to_owned())
    } else if str_eq(p, "ariaModal") {
        Some("aria-modal".to_owned())
    } else if str_eq(p, "ariaMultiLine") {
        Some("aria-multiline".to_owned())
    } else if str_eq(p, "ariaMultiSelectable") {
        Some("aria-multiselectable".to_owned())
    } else if str_eq(p, "ariaOrientation") {
        Some("aria-orientation".to_owned())
    } else if str_eq(p, "ariaOwns") {
        Some("aria-owns".to_owned())
    } else if str_eq(p, "ariaPlaceholder") {
        Some("aria-placeholder".to_owned())
    } else if str_eq(p, "ariaPosInSet") {
        Some("aria-posinset".to_owned())
    } else if str_eq(p, "ariaPressed") {
        Some("aria-pressed".to_owned())
    } else if str_eq(p, "ariaReadOnly") {
        Some("aria-readonly".to_owned())
    } else if str_eq(p, "ariaRelevant") {
        Some("aria-relevant".to_owned())
    } else if str_eq(p, "ariaRequired") {
        Some("aria-required".to_owned())
    } else if str_eq(p, "ariaRoleDescription") {
        Some("aria-roledescription".to_owned())
    } else if str_eq(p, "ariaRowCount") {
        Some("aria-rowcount".to_owned())
    } else if str_eq(p, "ariaRowIndex") {
        Some("aria-rowindex".to_owned())
    } else if str_eq(p, "ariaRowSpan") {
        Some("aria-rowspan".to_owned())
    } else if str_eq(p, "ariaSelected") {
        Some("aria-selected".to_owned())
    } else if str_eq(p, "ariaSetSize") {
        Some("aria-setsize".to_owned())
    } else if str_eq(p, "ariaSort") {
        Some("aria-sort".to_owned())
    } else if str_eq(p, "ariaValueMax") {
        Some("aria-valuemax".to_owned())
    } else if str_eq(p, "ariaValueMin") {
        Some("aria-valuemin".to_owned())
    } else if str_eq(p, "ariaValueNow") {
        Some("aria-valuenow".to_owned())
    } else if str_eq(p, "ariaValueText") {
        Some("aria-valuetext".to_owned())
    } else {
        None
    }
}

/// The attribute name a JSX prop stands for: `data…` props kebab-cased,
/// then the React spellings, then the shared exceptions; every other prop
/// as it is.
pub open spec fn prop_attr_name(p: Seq<char>) -> Seq<char> {
    match data_prop_attr(p) {
        Some(a) => a,
        None => match react_prop(p) {
            Some(a) => a,
            None => match shared_attr_exception(p) {
                Some(a) => a,
                None => p,
            },
        },
    }
}

/// Kebab-cases a data prop (`cs` starts with `data` and is longer).
fn data_kebab(cs: &[char]) -> (r: Option<String>)
    requires
        cs@.len() > 4,
        cs@.subrange(0, 4) == seq!['d', 'a', 't', 'a'],
    ensures
        match data_prop_attr(cs@) {
            Some(a) => r matches Some(x) && x@ == a,
            None => r is None,
        },
{
    let ghost p = cs@;
    let mut result = String::new();
    push_char(&mut result, 'd');
    push_char(&mut result, 'a');
    push_char(&mut result, 't');
    push_char(&mut result, 'a');
    assert(result@ =~= seq!['d', 'a', 't', 'a']);
    let len = cs.len();
    let mut index: usize = 4;
    let mut start: usize = 4;
    while index < len
        invariant
            4 <= start <= index <= len,
            len == p.len(),
            p == cs@,
            data_kebab_from(p, index as int, start as int, result@) == data_prop_attr(p),
        decreases len - index,
    {
        let c = cs[index];
        let dash = index == 4 || ('A' <= c && c <= 'Z');
        if !(('A' <= c && c <= 'Z') || c == '-' || c == '.' || c == ':' || ('0' <= c && c <= '9')
            || ('a' <= c && c <= 'z')) {
            return None;
        }
        if dash {
            let ghost before = result@;
            let mut k = start;
            while k < index
                invariant
                    start <= k <= index < len,
                    len == p.len(),
                    p == cs@,
                    result@ == before + p.subrange(start as int, k as int),
                decreases index - k,
            {
                push_char(&mut result, cs[k]);
                assert(result@ =~= before + p.subrange(start as int, k + 1));
                k += 1;
            }
            let ghost mid = result@;
            if c != '-' {
                push_char(&mut result, '-');
            }
            let lc = if 'A' <= c && c <= 'Z' {
                ((c as u8) + 32) as char
            } else {
                c
            };
            assert(lc == lower_char(c));
            push_char(&mut result, lc);
            assert(result@ =~= before + p.subrange(start as int, index as int) + (if c != '-' {
                seq!['-']
            } else {
                Seq::empty()
            }) + seq![lower_char(c)]);
            start = index + 1;
        }
        index += 1;
    }
    let ghost before = result@;
    let mut k = start;
    while k < len
        invariant
            start <= k <= len,
            len == p.len(),
            p == cs@,
            result@ == before + p.subrange(start as int, k as int),
        decreases len - k,
    {
        push_char(&mut result, cs[k]);
        assert(result@ =~= before + p.subrange(start as int, k + 1));
        k += 1;
    }
    Some(result)
}

/// The attribute name for a JSX prop: `data…` props kebab-cased
/// (`dataFooBar` to `data-foo-bar`), the React spellings (`classId` to
/// `classID`) and the shared exceptions (`ariaHidden` to `aria-hidden`)
/// looked up; every other prop unchanged.
pub fn prop_to_attr_name(prop: &str) -> (r: String)
    ensures
        r@ == prop_attr_name(prop@),
{
    let cs = chars_of(prop);
    if cs.len() > 4 && cs[0] == 'd' && cs[1] == 'a' && cs[2] == 't' && cs[3] == 'a' {
        assert(cs@.subrange(0, 4) =~= seq!['d', 'a', 't', 'a']);
        if let Some(result) = data_kebab(cs.as_slice()) {
            return result;
        }
    } else {
        assert(data_prop_attr(prop@) is None) by {
            if prop@.len() > 4 && prop@.subrange(0, 4) == seq!['d', 'a', 't', 'a'] {
                assert(prop@[0] == prop@.subrange(0, 4)[0]);
                assert(prop@[1] == prop@.subrange(0, 4)[1]);
                assert(prop@[2] == prop@.subrange(0, 4)[2]);
                assert(prop@[3] == prop@.subrange(0, 4)[3]);
            }
        }
    }
    if let Some(a) = lookup_react_prop(prop) {
        return a;
    }
    if let Some(a) = lookup_shared_attr_exception(prop) {
        return a;
    }
    prop.to_owned()
}


/// A known lowercased property starting `on` maps to `out`, its ASCII
/// lowercase character by character.
proof fn lemma_event_lowercased(name: Seq<char>, out: Seq<char>)
    requires
        name.len() > 2,
        name[0] == 'o',
        known_lowercased(name),
        out.len() == name.len(),
        forall|i: int| 0 <= i < name.len() ==> out[i] == lower_char(#[trigger] name[i]),
    ensures
        attribute_name(name) == out,
{
    reveal_strlit("className");
    reveal_strlit("htmlFor");
    reveal_strlit("httpEquiv");
    reveal_strlit("acceptCharset");
    reveal_strlit("xmlnsXLink");
    assert(name != "className"@ && name != "htmlFor"@ && name != "httpEquiv"@);
    assert(name != "acceptCharset"@ && name != "xmlnsXLink"@);
    assert(lower_ascii(name) =~= out);
}

proof fn lemma_event_handlers_0()
    ensures
        attribute_name("onAbort"@) == "onabort"@,
        attribute_name("onAfterPrint"@) == "onafterprint"@,
        attribute_name("onAuxClick"@) == "onauxclick"@,
        attribute_name("onBeforeMatch"@) == "onbeforematch"@,
        attribute_name("onBeforePrint"@) == "onbeforeprint"@,
        attribute_name("onBeforeToggle"@) == "onbeforetoggle"@,
        attribute_name("onBeforeUnload"@) == "onbeforeunload"@,
        attribute_name("onBlur"@) == "onblur"@,
        attribute_name("onCanPlay"@) == "oncanplay"@,
        attribute_name("onCanPlayThrough"@) == "oncanplaythrough"@,
        attribute_name("onCancel"@) == "oncancel"@,
        attribute_name("onChange"@) == "onchange"@,
        attribute_name("onClick"@) == "onclick"@,
        attribute_name("onClose"@) == "onclose"@,
        attribute_name("onContextLost"@) == "oncontextlost"@,
{
    reveal_strlit("onAbort");
    reveal_strlit("onabort");
    lemma_event_lowercased("onAbort"@, "onabort"@);
    reveal_strlit("onAfterPrint");
    reveal_strlit("onafterprint");
    lemma_event_lowercased("onAfterPrint"@, "onafterprint"@);
    reveal_strlit("onAuxClick");
    reveal_strlit("onauxclick");
    lemma_event_lowercased("onAuxClick"@, "onauxclick"@);
    reveal_strlit("onBeforeMatch");
    reveal_strlit("onbeforematch");
    lemma_event_lowercased("onBeforeMatch"@, "onbeforematch"@);
    reveal_strlit("onBeforePrint");
    reveal_strlit("onbeforeprint");
    lemma_event_lowercased("onBeforePrint"@, "onbeforeprint"@);
    reveal_strlit("onBeforeToggle");
    reveal_strlit("onbeforetoggle");
    lemma_event_lowercased("onBeforeToggle"@, "onbeforetoggle"@);
    reveal_strlit("onBeforeUnload");
    reveal_strlit("onbeforeunload");
    lemma_event_lowercased("onBeforeUnload"@, "onbeforeunload"@);
    reveal_strlit("onBlur");
    reveal_strlit("onblur");
    lemma_event_lowercased("onBlur"@, "onblur"@);
    reveal_strlit("onCanPlay");
    reveal_strlit("oncanplay");
    lemma_event_lowercased("onCanPlay"@, "oncanplay"@);
    reveal_strlit("onCanPlayThrough");
    reveal_strlit("oncanplaythrough");
    lemma_event_lowercased("onCanPlayThrough"@, "oncanplaythrough"@);
    reveal_strlit("onCancel");
    reveal_strlit("oncancel");
    lemma_event_lowercased("onCancel"@, "oncancel"@);
    reveal_strlit("onChange");
    reveal_strlit("onchange");
    lemma_event_lowercased("onChange"@, "onchange"@);
    reveal_strlit("onClick");
    reveal_strlit("onclick");
    lemma_event_lowercased("onClick"@, "onclick"@);
    reveal_strlit("onClose");
    reveal_strlit("onclose");
    lemma_event_lowercased("onClose"@, "onclose"@);
    reveal_strlit("onContextLost");
    reveal_strlit("oncontextlost");
    lemma_event_lowercased("onContextLost"@, "oncontextlost"@);
}

proof fn lemma_event_handlers_1()
    ensures
        attribute_name("onContextMenu"@) == "oncontextmenu"@,
        attribute_name("onContextRestored"@) == "oncontextrestored"@,
        attribute_name("onCopy"@) == "oncopy"@,
        attribute_name("onCueChange"@) == "oncuechange"@,
        attribute_name("onCut"@) == "oncut"@,
        attribute_name("onDblClick"@) == "ondblclick"@,
        attribute_name("onDrag"@) == "ondrag"@,
        attribute_name("onDragEnd"@) == "ondragend"@,
        attribute_name("onDragEnter"@) == "ondragenter"@,
        attribute_name("onDragExit"@) == "ondragexit"@,
        attribute_name("onDragLeave"@) == "ondragleave"@,
        attribute_name("onDragOver"@) == "ondragover"@,
        attribute_name("onDragStart"@) == "ondragstart"@,
        attribute_name("onDrop"@) == "ondrop"@,
        attribute_name("onDurationChange"@) == "ondurationchange"@,
{
    reveal_strlit("onContextMenu");
    reveal_strlit("oncontextmenu");
    lemma_event_lowercased("onContextMenu"@, "oncontextmenu"@);
    reveal_strlit("onContextRestored");
    reveal_strlit("oncontextrestored");
    lemma_event_lowercased("onContextRestored"@, "oncontextrestored"@);
    reveal_strlit("onCopy");
    reveal_strlit("oncopy");
    lemma_event_lowercased("onCopy"@, "oncopy"@);
    reveal_strlit("onCueChange");
    reveal_strlit("oncuechange");
    lemma_event_lowercased("onCueChange"@, "oncuechange"@);
    reveal_strlit("onCut");
    reveal_strlit("oncut");
    lemma_event_lowercased("onCut"@, "oncut"@);
    reveal_strlit("onDblClick");
    reveal_strlit("ondblclick");
    lemma_event_lowercased("onDblClick"@, "ondblclick"@);
    reveal_strlit("onDrag");
    reveal_strlit("ondrag");
    lemma_event_lowercased("onDrag"@, "ondrag"@);
    reveal_strlit("onDragEnd");
    reveal_strlit("ondragend");
    lemma_event_lowercased("onDragEnd"@, "ondragend"@);
    reveal_strlit("onDragEnter");
    reveal_strlit("ondragenter");
    lemma_event_lowercased("onDragEnter"@, "ondragenter"@);
    reveal_strlit("onDragExit");
    reveal_strlit("ondragexit");
    lemma_event_lowercased("onDragExit"@, "ondragexit"@);
    reveal_strlit("onDragLeave");
    reveal_strlit("ondragleave");
    lemma_event_lowercased("onDragLeave"@, "ondragleave"@);
    reveal_strlit("onDragOver");
    reveal_strlit("ondragover");
    lemma_event_lowercased("onDragOver"@, "ondragover"@);
    reveal_strlit("onDragStart");
    reveal_strlit("ondragstart");
    lemma_event_lowercased("onDragStart"@, "ondragstart"@);
    reveal_strlit("onDrop");
    reveal_strlit("ondrop");
    lemma_event_lowercased("onDrop"@, "ondrop"@);
    reveal_strlit("onDurationChange");
    reveal_strlit("ondurationchange");
    lemma_event_lowercased("onDurationChange"@, "ondurationchange"@);
}

proof fn lemma_event_handlers_2()
    ensures
        attribute_name("onEmptied"@) == "onemptied"@,
        attribute_name("onEnded"@) == "onended"@,
        attribute_name("onError"@) == "onerror"@,
        attribute_name("onFocus"@) == "onfocus"@,
        attribute_name("onFormData"@) == "onformdata"@,
        attribute_name("onHashChange"@) == "onhashchange"@,
        attribute_name("onInput"@) == "oninput"@,
        attribute_name("onInvalid"@) == "oninvalid"@,
        attribute_name("onKeyDown"@) == "onkeydown"@,
        attribute_name("onKeyPress"@) == "onkeypress"@,
        attribute_name("onKeyUp"@) == "onkeyup"@,
        attribute_name("onLanguageChange"@) == "onlanguagechange"@,
        attribute_name("onLoad"@) == "onload"@,
        attribute_name("onLoadEnd"@) == "onloadend"@,
        attribute_name("onLoadStart"@) == "onloadstart"@,
{
    reveal_strlit("onEmptied");
    reveal_strlit("onemptied");
    lemma_event_lowercased("onEmptied"@, "onemptied"@);
    reveal_strlit("onEnded");
    reveal_strlit("onended");
    lemma_event_lowercased("onEnded"@, "onended"@);
    reveal_strlit("onError");
    reveal_strlit("onerror");
    lemma_event_lowercased("onError"@, "onerror"@);
    reveal_strlit("onFocus");
    reveal_strlit("onfocus");
    lemma_event_lowercased("onFocus"@, "onfocus"@);
    reveal_strlit("onFormData");
    reveal_strlit("onformdata");
    lemma_event_lowercased("onFormData"@, "onformdata"@);
    reveal_strlit("onHashChange");
    reveal_strlit("onhashchange");
    lemma_event_lowercased("onHashChange"@, "onhashchange"@);
    reveal_strlit("onInput");
    reveal_strlit("oninput");
    lemma_event_lowercased("onInput"@, "oninput"@);
    reveal_strlit("onInvalid");
    reveal_strlit("oninvalid");
    lemma_event_lowercased("onInvalid"@, "oninvalid"@);
    reveal_strlit("onKeyDown");
    reveal_strlit("onkeydown");
    lemma_event_lowercased("onKeyDown"@, "onkeydown"@);
    reveal_strlit("onKeyPress");
    reveal_strlit("onkeypress");
    lemma_event_lowercased("onKeyPress"@, "onkeypress"@);
    reveal_strlit("onKeyUp");
    reveal_strlit("onkeyup");
    lemma_event_lowercased("onKeyUp"@, "onkeyup"@);
    reveal_strlit("onLanguageChange");
    reveal_strlit("onlanguagechange");
    lemma_event_lowercased("onLanguageChange"@, "onlanguagechange"@);
    reveal_strlit("onLoad");
    reveal_strlit("onload");
    lemma_event_lowercased("onLoad"@, "onload"@);
    reveal_strlit("onLoadEnd");
    reveal_strlit("onloadend");
    lemma_event_lowercased("onLoadEnd"@, "onloadend"@);
    reveal_strlit("onLoadStart");
    reveal_strlit("onloadstart");
    lemma_event_lowercased("onLoadStart"@, "onloadstart"@);
}

proof fn lemma_event_handlers_3()
    ensures
        attribute_name("onLoadedData"@) == "onloadeddata"@,
        attribute_name("onLoadedMetadata"@) == "onloadedmetadata"@,
        attribute_name("onMessage"@) == "onmessage"@,
        attribute_name("onMessageError"@) == "onmessageerror"@,
        attribute_name("onMouseDown"@) == "onmousedown"@,
        attribute_name("onMouseEnter"@) == "onmouseenter"@,
        attribute_name("onMouseLeave"@) == "onmouseleave"@,
        attribute_name("onMouseMove"@) == "onmousemove"@,
        attribute_name("onMouseOut"@) == "onmouseout"@,
        attribute_name("onMouseOver"@) == "onmouseover"@,
        attribute_name("onMouseUp"@) == "onmouseup"@,
        attribute_name("onOffline"@) == "onoffline"@,
        attribute_name("onOnline"@) == "ononline"@,
        attribute_name("onPageHide"@) == "onpagehide"@,
        attribute_name("onPageShow"@) == "onpageshow"@,
{
    reveal_strlit("onLoadedData");
    reveal_strlit("onloadeddata");
    lemma_event_lowercased("onLoadedData"@, "onloadeddata"@);
    reveal_strlit("onLoadedMetadata");
    reveal_strlit("onloadedmetadata");
    lemma_event_lowercased("onLoadedMetadata"@, "onloadedmetadata"@);
    reveal_strlit("onMessage");
    reveal_strlit("onmessage");
    lemma_event_lowercased("onMessage"@, "onmessage"@);
    reveal_strlit("onMessageError");
    reveal_strlit("onmessageerror");
    lemma_event_lowercased("onMessageError"@, "onmessageerror"@);
    reveal_strlit("onMouseDown");
    reveal_strlit("onmousedown");
    lemma_event_lowercased("onMouseDown"@, "onmousedown"@);
    reveal_strlit("onMouseEnter");
    reveal_strlit("onmouseenter");
    lemma_event_lowercased("onMouseEnter"@, "onmouseenter"@);
    reveal_strlit("onMouseLeave");
    reveal_strlit("onmouseleave");
    lemma_event_lowercased("onMouseLeave"@, "onmouseleave"@);
    reveal_strlit("onMouseMove");
    reveal_strlit("onmousemove");
    lemma_event_lowercased("onMouseMove"@, "onmousemove"@);
    reveal_strlit("onMouseOut");
    reveal_strlit("onmouseout");
    lemma_event_lowercased("onMouseOut"@, "onmouseout"@);
    reveal_strlit("onMouseOver");
    reveal_strlit("onmouseover");
    lemma_event_lowercased("onMouseOver"@, "onmouseover"@);
    reveal_strlit("onMouseUp");
    reveal_strlit("onmouseup");
    lemma_event_lowercased("onMouseUp"@, "onmouseup"@);
    reveal_strlit("onOffline");
    reveal_strlit("onoffline");
    lemma_event_lowercased("onOffline"@, "onoffline"@);
    reveal_strlit("onOnline");
    reveal_strlit("ononline");
    lemma_event_lowercased("onOnline"@, "ononline"@);
    reveal_strlit("onPageHide");
    reveal_strlit("onpagehide");
    lemma_event_lowercased("onPageHide"@, "onpagehide"@);
    reveal_strlit("onPageShow");
    reveal_strlit("onpageshow");
    lemma_event_lowercased("onPageShow"@, "onpageshow"@);
}

proof fn lemma_event_handlers_4()
    ensures
        attribute_name("onPaste"@) == "onpaste"@,
        attribute_name("onPause"@) == "onpause"@,
        attribute_name("onPlay"@) == "onplay"@,
        attribute_name("onPlaying"@) == "onplaying"@,
        attribute_name("onPopState"@) == "onpopstate"@,
        attribute_name("onProgress"@) == "onprogress"@,
        attribute_name("onRateChange"@) == "onratechange"@,
        attribute_name("onRejectionHandled"@) == "onrejectionhandled"@,
        attribute_name("onReset"@) == "onreset"@,
        attribute_name("onResize"@) == "onresize"@,
        attribute_name("onScroll"@) == "onscroll"@,
        attribute_name("onScrollEnd"@) == "onscrollend"@,
        attribute_name("onSecurityPolicyViolation"@) == "onsecuritypolicyviolation"@,
        attribute_name("onSeeked"@) == "onseeked"@,
        attribute_name("onSeeking"@) == "onseeking"@,
{
    reveal_strlit("onPaste");
    reveal_strlit("onpaste");
    lemma_event_lowercased("onPaste"@, "onpaste"@);
    reveal_strlit("onPause");
    reveal_strlit("onpause");
    lemma_event_lowercased("onPause"@, "onpause"@);
    reveal_strlit("onPlay");
    reveal_strlit("onplay");
    lemma_event_lowercased("onPlay"@, "onplay"@);
    reveal_strlit("onPlaying");
    reveal_strlit("onplaying");
    lemma_event_lowercased("onPlaying"@, "onplaying"@);
    reveal_strlit("onPopState");
    reveal_strlit("onpopstate");
    lemma_event_lowercased("onPopState"@, "onpopstate"@);
    reveal_strlit("onProgress");
    reveal_strlit("onprogress");
    lemma_event_lowercased("onProgress"@, "onprogress"@);
    reveal_strlit("onRateChange");
    reveal_strlit("onratechange");
    lemma_event_lowercased("onRateChange"@, "onratechange"@);
    reveal_strlit("onRejectionHandled");
    reveal_strlit("onrejectionhandled");
    lemma_event_lowercased("onRejectionHandled"@, "onrejectionhandled"@);
    reveal_strlit("onReset");
    reveal_strlit("onreset");
    lemma_event_lowercased("onReset"@, "onreset"@);
    reveal_strlit("onResize");
    reveal_strlit("onresize");
    lemma_event_lowercased("onResize"@, "onresize"@);
    reveal_strlit("onScroll");
    reveal_strlit("onscroll");
    lemma_event_lowercased("onScroll"@, "onscroll"@);
    reveal_strlit("onScrollEnd");
    reveal_strlit("onscrollend");
    lemma_event_lowercased("onScrollEnd"@, "onscrollend"@);
    reveal_strlit("onSecurityPolicyViolation");
    reveal_strlit("onsecuritypolicyviolation");
    lemma_event_lowercased("onSecurityPolicyViolation"@, "onsecuritypolicyviolation"@);
    reveal_strlit("onSeeked");
    reveal_strlit("onseeked");
    lemma_event_lowercased("onSeeked"@, "onseeked"@);
    reveal_strlit("onSeeking");
    reveal_strlit("onseeking");
    lemma_event_lowercased("onSeeking"@, "onseeking"@);
}

proof fn lemma_event_handlers_5()
    ensures
        attribute_name("onSelect"@) == "onselect"@,
        attribute_name("onSlotChange"@) == "onslotchange"@,
        attribute_name("onStalled"@) == "onstalled"@,
        attribute_name("onStorage"@) == "onstorage"@,
        attribute_name("onSubmit"@) == "onsubmit"@,
        attribute_name("onSuspend"@) == "onsuspend"@,
        attribute_name("onTimeUpdate"@) == "ontimeupdate"@,
        attribute_name("onToggle"@) == "ontoggle"@,
        attribute_name("onUnhandledRejection"@) == "onunhandledrejection"@,
        attribute_name("onUnload"@) == "onunload"@,
        attribute_name("onVolumeChange"@) == "onvolumechange"@,
        attribute_name("onWaiting"@) == "onwaiting"@,
        attribute_name("onWheel"@) == "onwheel"@,
{
    reveal_strlit("onSelect");
    reveal_strlit("onselect");
    lemma_event_lowercased("onSelect"@, "onselect"@);
    reveal_strlit("onSlotChange");
    reveal_strlit("onslotchange");
    lemma_event_lowercased("onSlotChange"@, "onslotchange"@);
    reveal_strlit("onStalled");
    reveal_strlit("onstalled");
    lemma_event_lowercased("onStalled"@, "onstalled"@);
    reveal_strlit("onStorage");
    reveal_strlit("onstorage");
    lemma_event_lowercased("onStorage"@, "onstorage"@);
    reveal_strlit("onSubmit");
    reveal_strlit("onsubmit");
    lemma_event_lowercased("onSubmit"@, "onsubmit"@);
    reveal_strlit("onSuspend");
    reveal_strlit("onsuspend");
    lemma_event_lowercased("onSuspend"@, "onsuspend"@);
    reveal_strlit("onTimeUpdate");
    reveal_strlit("ontimeupdate");
    lemma_event_lowercased("onTimeUpdate"@, "ontimeupdate"@);
    reveal_strlit("onToggle");
    reveal_strlit("ontoggle");
    lemma_event_lowercased("onToggle"@, "ontoggle"@);
    reveal_strlit("onUnhandledRejection");
    reveal_strlit("onunhandledrejection");
    lemma_event_lowercased("onUnhandledRejection"@, "onunhandledrejection"@);
    reveal_strlit("onUnload");
    reveal_strlit("onunload");
    lemma_event_lowercased("onUnload"@, "onunload"@);
    reveal_strlit("onVolumeChange");
    reveal_strlit("onvolumechange");
    lemma_event_lowercased("onVolumeChange"@, "onvolumechange"@);
    reveal_strlit("onWaiting");
    reveal_strlit("onwaiting");
    lemma_event_lowercased("onWaiting"@, "onwaiting"@);
    reveal_strlit("onWheel");
    reveal_strlit("onwheel");
    lemma_event_lowercased("onWheel"@, "onwheel"@);
}

/// Every HTML event-handler property `on<Event>` maps to the attribute that
/// is its ASCII lowercase: `onChange` to `onchange`, `onClick` to
/// `onclick`, and so on for each of them.
pub proof fn law_event_handler_attributes_are_lowercase()
    ensures
        attribute_name("onAbort"@) == "onabort"@,
        attribute_name("onAfterPrint"@) == "onafterprint"@,
        attribute_name("onAuxClick"@) == "onauxclick"@,
        attribute_name("onBeforeMatch"@) == "onbeforematch"@,
        attribute_name("onBeforePrint"@) == "onbeforeprint"@,
        attribute_name("onBeforeToggle"@) == "onbeforetoggle"@,
        attribute_name("onBeforeUnload"@) == "onbeforeunload"@,
        attribute_name("onBlur"@) == "onblur"@,
        attribute_name("onCanPlay"@) == "oncanplay"@,
        attribute_name("onCanPlayThrough"@) == "oncanplaythrough"@,
        attribute_name("onCancel"@) == "oncancel"@,
        attribute_name("onChange"@) == "onchange"@,
        attribute_name("onClick"@) == "onclick"@,
        attribute_name("onClose"@) == "onclose"@,
        attribute_name("onContextLost"@) == "oncontextlost"@,
        attribute_name("onContextMenu"@) == "oncontextmenu"@,
        attribute_name("onContextRestored"@) == "oncontextrestored"@,
        attribute_name("onCopy"@) == "oncopy"@,
        attribute_name("onCueChange"@) == "oncuechange"@,
        attribute_name("onCut"@) == "oncut"@,
        attribute_name("onDblClick"@) == "ondblclick"@,
        attribute_name("onDrag"@) == "ondrag"@,
        attribute_name("onDragEnd"@) == "ondragend"@,
        attribute_name("onDragEnter"@) == "ondragenter"@,
        attribute_name("onDragExit"@) == "ondragexit"@,
        attribute_name("onDragLeave"@) == "ondragleave"@,
        attribute_name("onDragOver"@) == "ondragover"@,
        attribute_name("onDragStart"@) == "ondragstart"@,
        attribute_name("onDrop"@) == "ondrop"@,
        attribute_name("onDurationChange"@) == "ondurationchange"@,
        attribute_name("onEmptied"@) == "onemptied"@,
        attribute_name("onEnded"@) == "onended"@,
        attribute_name("onError"@) == "onerror"@,
        attribute_name("onFocus"@) == "onfocus"@,
        attribute_name("onFormData"@) == "onformdata"@,
        attribute_name("onHashChange"@) == "onhashchange"@,
        attribute_name("onInput"@) == "oninput"@,
        attribute_name("onInvalid"@) == "oninvalid"@,
        attribute_name("onKeyDown"@) == "onkeydown"@,
        attribute_name("onKeyPress"@) == "onkeypress"@,
        attribute_name("onKeyUp"@) == "onkeyup"@,
        attribute_name("onLanguageChange"@) == "onlanguagechange"@,
        attribute_name("onLoad"@) == "onload"@,
        attribute_name("onLoadEnd"@) == "onloadend"@,
        attribute_name("onLoadStart"@) == "onloadstart"@,
        attribute_name("onLoadedData"@) == "onloadeddata"@,
        attribute_name("onLoadedMetadata"@) == "onloadedmetadata"@,
        attribute_name("onMessage"@) == "onmessage"@,
        attribute_name("onMessageError"@) == "onmessageerror"@,
        attribute_name("onMouseDown"@) == "onmousedown"@,
        attribute_name("onMouseEnter"@) == "onmouseenter"@,
        attribute_name("onMouseLeave"@) == "onmouseleave"@,
        attribute_name("onMouseMove"@) == "onmousemove"@,
        attribute_name("onMouseOut"@) == "onmouseout"@,
        attribute_name("onMouseOver"@) == "onmouseover"@,
        attribute_name("onMouseUp"@) == "onmouseup"@,
        attribute_name("onOffline"@) == "onoffline"@,
        attribute_name("onOnline"@) == "ononline"@,
        attribute_name("onPageHide"@) == "onpagehide"@,
        attribute_name("onPageShow"@) == "onpageshow"@,
        attribute_name("onPaste"@) == "onpaste"@,
        attribute_name("onPause"@) == "onpause"@,
        attribute_name("onPlay"@) == "onplay"@,
        attribute_name("onPlaying"@) == "onplaying"@,
        attribute_name("onPopState"@) == "onpopstate"@,
        attribute_name("onProgress"@) == "onprogress"@,
        attribute_name("onRateChange"@) == "onratechange"@,
        attribute_name("onRejectionHandled"@) == "onrejectionhandled"@,
        attribute_name("onReset"@) == "onreset"@,
        attribute_name("onResize"@) == "onresize"@,
        attribute_name("onScroll"@) == "onscroll"@,
        attribute_name("onScrollEnd"@) == "onscrollend"@,
        attribute_name("onSecurityPolicyViolation"@) == "onsecuritypolicyviolation"@,
        attribute_name("onSeeked"@) == "onseeked"@,
        attribute_name("onSeeking"@) == "onseeking"@,
        attribute_name("onSelect"@) == "onselect"@,
        attribute_name("onSlotChange"@) == "onslotchange"@,
        attribute_name("onStalled"@) == "onstalled"@,
        attribute_name("onStorage"@) == "onstorage"@,
        attribute_name("onSubmit"@) == "onsubmit"@,
        attribute_name("onSuspend"@) == "onsuspend"@,
        attribute_name("onTimeUpdate"@) == "ontimeupdate"@,
        attribute_name("onToggle"@) == "ontoggle"@,
        attribute_name("onUnhandledRejection"@) == "onunhandledrejection"@,
        attribute_name("onUnload"@) == "onunload"@,
        attribute_name("onVolumeChange"@) == "onvolumechange"@,
        attribute_name("onWaiting"@) == "onwaiting"@,
        attribute_name("onWheel"@) == "onwheel"@,
{
    lemma_event_handlers_0();
    lemma_event_handlers_1();
    lemma_event_handlers_2();
    lemma_event_handlers_3();
    lemma_event_handlers_4();
    lemma_event_handlers_5();
}


/// A known lowercased property that is none of the five special cases
/// maps to `out`, its ASCII lowercase character by character.
proof fn lemma_property_lowercased(name: Seq<char>, out: Seq<char>)
    requires
        name != "className"@ && name != "htmlFor"@ && name != "httpEquiv"@,
        name != "acceptCharset"@ && name != "xmlnsXLink"@,
        known_lowercased(name),
        out.len() == name.len(),
        forall|i: int| 0 <= i < name.len() ==> out[i] == lower_char(#[trigger] name[i]),
    ensures
        attribute_name(name) == out,
{
    assert(lower_ascii(name) =~= out);
}

proof fn lemma_html_properties_0()
    ensures
        attribute_name("accessKey"@) == "accesskey"@,
        attribute_name("allowFullScreen"@) == "allowfullscreen"@,
        attribute_name("allowPaymentRequest"@) == "allowpaymentrequest"@,
        attribute_name("allowUserMedia"@) == "allowusermedia"@,
        attribute_name("autoCapitalize"@) == "autocapitalize"@,
        attribute_name("autoComplete"@) == "autocomplete"@,
        attribute_name("autoFocus"@) == "autofocus"@,
        attribute_name("autoPlay"@) == "autoplay"@,
        attribute_name("charSet"@) == "charset"@,
        attribute_name("colSpan"@) == "colspan"@,
        attribute_name("contentEditable"@) == "contenteditable"@,
        attribute_name("controlsList"@) == "controlslist"@,
        attribute_name("crossOrigin"@) == "crossorigin"@,
        attribute_name("dateTime"@) == "datetime"@,
        attribute_name("dirName"@) == "dirname"@,
{
    reveal_strlit("className");
    reveal_strlit("htmlFor");
    reveal_strlit("httpEquiv");
    reveal_strlit("acceptCharset");
    reveal_strlit("xmlnsXLink");
    assert(attribute_name("accessKey"@) == "accesskey"@) by {
        reveal_strlit("accessKey");
        reveal_strlit("accesskey");
        assert("accessKey"@[0] != "className"@[0]);
        assert("accessKey"@ != "className"@);
        assert("accessKey"@.len() != "htmlFor"@.len());
        assert("accessKey"@ != "htmlFor"@);
        assert("accessKey"@[0] != "httpEquiv"@[0]);
        assert("accessKey"@ != "httpEquiv"@);
        assert("accessKey"@.len() != "acceptCharset"@.len());
        assert("accessKey"@ != "acceptCharset"@);
        assert("accessKey"@.len() != "xmlnsXLink"@.len());
        assert("accessKey"@ != "xmlnsXLink"@);
        lemma_property_lowercased("accessKey"@, "accesskey"@);
    }
    assert(attribute_name("allowFullScreen"@) == "allowfullscreen"@) by {
        reveal_strlit("allowFullScreen");
        reveal_strlit("allowfullscreen");
        assert("allowFullScreen"@.len() != "className"@.len());
        assert("allowFullScreen"@ != "className"@);
        assert("allowFullScreen"@.len() != "htmlFor"@.len());
        assert("allowFullScreen"@ != "htmlFor"@);
        assert("allowFullScreen"@.len() != "httpEquiv"@.len());
        assert("allowFullScreen"@ != "httpEquiv"@);
        assert("allowFullScreen"@.len() != "acceptCharset"@.len());
        assert("allowFullScreen"@ != "acceptCharset"@);
        assert("allowFullScreen"@.len() != "xmlnsXLink"@.len());
        assert("allowFullScreen"@ != "xmlnsXLink"@);
        lemma_property_lowercased("allowFullScreen"@, "allowfullscreen"@);
    }
    assert(attribute_name("allowPaymentRequest"@) == "allowpaymentrequest"@) by {
        reveal_strlit("allowPaymentRequest");
        reveal_strlit("allowpaymentrequest");
        assert("allowPaymentRequest"@.len() != "className"@.len());
        assert("allowPaymentRequest"@ != "className"@);
        assert("allowPaymentRequest"@.len() != "htmlFor"@.len());
        assert("allowPaymentRequest"@ != "htmlFor"@);
        assert("allowPaymentRequest"@.len() != "httpEquiv"@.len());
        assert("allowPaymentRequest"@ != "httpEquiv"@);
        assert("allowPaymentRequest"@.len() != "acceptCharset"@.len());
        assert("allowPaymentRequest"@ != "acceptCharset"@);
        assert("allowPaymentRequest"@.len() != "xmlnsXLink"@.len());
        assert("allowPaymentRequest"@ != "xmlnsXLink"@);
        lemma_property_lowercased("allowPaymentRequest"@, "allowpaymentrequest"@);
    }
    assert(attribute_name("allowUserMedia"@) == "allowusermedia"@) by {
        reveal_strlit("allowUserMedia");
        reveal_strlit("allowusermedia");
        assert("allowUserMedia"@.len() != "className"@.len());
        assert("allowUserMedia"@ != "className"@);
        assert("allowUserMedia"@.len() != "htmlFor"@.len());
        assert("allowUserMedia"@ != "htmlFor"@);
        assert("allowUserMedia"@.len() != "httpEquiv"@.len());
        assert("allowUserMedia"@ != "httpEquiv"@);
        assert("allowUserMedia"@.len() != "acceptCharset"@.len());
        assert("allowUserMedia"@ != "acceptCharset"@);
        assert("allowUserMedia"@.len() != "xmlnsXLink"@.len());
        assert("allowUserMedia"@ != "xmlnsXLink"@);
        lemma_property_lowercased("allowUserMedia"@, "allowusermedia"@);
    }
    assert(attribute_name("autoCapitalize"@) == "autocapitalize"@) by {
        reveal_strlit("autoCapitalize");
        reveal_strlit("autocapitalize");
        assert("autoCapitalize"@.len() != "className"@.len());
        assert("autoCapitalize"@ != "className"@);
        assert("autoCapitalize"@.len() != "htmlFor"@.len());
        assert("autoCapitalize"@ != "htmlFor"@);
        assert("autoCapitalize"@.len() != "httpEquiv"@.len());
        assert("autoCapitalize"@ != "httpEquiv"@);
        assert("autoCapitalize"@.len() != "acceptCharset"@.len());
        assert("autoCapitalize"@ != "acceptCharset"@);
        assert("autoCapitalize"@.len() != "xmlnsXLink"@.len());
        assert("autoCapitalize"@ != "xmlnsXLink"@);
        lemma_property_lowercased("autoCapitalize"@, "autocapitalize"@);
    }
    assert(attribute_name("autoComplete"@) == "autocomplete"@) by {
        reveal_strlit("autoComplete");
        reveal_strlit("autocomplete");
        assert("autoComplete"@.len() != "className"@.len());
        assert("autoComplete"@ != "className"@);
        assert("autoComplete"@.len() != "htmlFor"@.len());
        assert("autoComplete"@ != "htmlFor"@);
        assert("autoComplete"@.len() != "httpEquiv"@.len());
        assert("autoComplete"@ != "httpEquiv"@);
        assert("autoComplete"@.len() != "acceptCharset"@.len());
        assert("autoComplete"@ != "acceptCharset"@);
        assert("autoComplete"@.len() != "xmlnsXLink"@.len());
        assert("autoComplete"@ != "xmlnsXLink"@);
        lemma_property_lowercased("autoComplete"@, "autocomplete"@);
    }
    assert(attribute_name("autoFocus"@) == "autofocus"@) by {
        reveal_strlit("autoFocus");
        reveal_strlit("autofocus");
        assert("autoFocus"@[0] != "className"@[0]);
        assert("autoFocus"@ != "className"@);
        assert("autoFocus"@.len() != "htmlFor"@.len());
        assert("autoFocus"@ != "htmlFor"@);
        assert("autoFocus"@[0] != "httpEquiv"@[0]);
        assert("autoFocus"@ != "httpEquiv"@);
        assert("autoFocus"@.len() != "acceptCharset"@.len());
        assert("autoFocus"@ != "acceptCharset"@);
        assert("autoFocus"@.len() != "xmlnsXLink"@.len());
        assert("autoFocus"@ != "xmlnsXLink"@);
        lemma_property_lowercased("autoFocus"@, "autofocus"@);
    }
    assert(attribute_name("autoPlay"@) == "autoplay"@) by {
        reveal_strlit("autoPlay");
        reveal_strlit("autoplay");
        assert("autoPlay"@.len() != "className"@.len());
        assert("autoPlay"@ != "className"@);
        assert("autoPlay"@.len() != "htmlFor"@.len());
        assert("autoPlay"@ != "htmlFor"@);
        assert("autoPlay"@.len() != "httpEquiv"@.len());
        assert("autoPlay"@ != "httpEquiv"@);
        assert("autoPlay"@.len() != "acceptCharset"@.len());
        assert("autoPlay"@ != "acceptCharset"@);
        assert("autoPlay"@.len() != "xmlnsXLink"@.len());
        assert("autoPlay"@ != "xmlnsXLink"@);
        lemma_property_lowercased("autoPlay"@, "autoplay"@);
    }
    assert(attribute_name("charSet"@) == "charset"@) by {
        reveal_strlit("charSet");
        reveal_strlit("charset");
        assert("charSet"@.len() != "className"@.len());
        assert("charSet"@ != "className"@);
        assert("charSet"@[0] != "htmlFor"@[0]);
        assert("charSet"@ != "htmlFor"@);
        assert("charSet"@.len() != "httpEquiv"@.len());
        assert("charSet"@ != "httpEquiv"@);
        assert("charSet"@.len() != "acceptCharset"@.len());
        assert("charSet"@ != "acceptCharset"@);
        assert("charSet"@.len() != "xmlnsXLink"@.len());
        assert("charSet"@ != "xmlnsXLink"@);
        lemma_property_lowercased("charSet"@, "charset"@);
    }
    assert(attribute_name("colSpan"@) == "colspan"@) by {
        reveal_strlit("colSpan");
        reveal_strlit("colspan");
        assert("colSpan"@.len() != "className"@.len());
        assert("colSpan"@ != "className"@);
        assert("colSpan"@[0] != "htmlFor"@[0]);
        assert("colSpan"@ != "htmlFor"@);
        assert("colSpan"@.len() != "httpEquiv"@.len());
        assert("colSpan"@ != "httpEquiv"@);
        assert("colSpan"@.len() != "acceptCharset"@.len());
        assert("colSpan"@ != "acceptCharset"@);
        assert("colSpan"@.len() != "xmlnsXLink"@.len());
        assert("colSpan"@ != "xmlnsXLink"@);
        lemma_property_lowercased("colSpan"@, "colspan"@);
    }
    assert(attribute_name("contentEditable"@) == "contenteditable"@) by {
        reveal_strlit("contentEditable");
        reveal_strlit("contenteditable");
        assert("contentEditable"@.len() != "className"@.len());
        assert("contentEditable"@ != "className"@);
        assert("contentEditable"@.len() != "htmlFor"@.len());
        assert("contentEditable"@ != "htmlFor"@);
        assert("contentEditable"@.len() != "httpEquiv"@.len());
        assert("contentEditable"@ != "httpEquiv"@);
        assert("contentEditable"@.len() != "acceptCharset"@.len());
        assert("contentEditable"@ != "acceptCharset"@);
        assert("contentEditable"@.len() != "xmlnsXLink"@.len());
        assert("contentEditable"@ != "xmlnsXLink"@);
        lemma_property_lowercased("contentEditable"@, "contenteditable"@);
    }
    assert(attribute_name("controlsList"@) == "controlslist"@) by {
        reveal_strlit("controlsList");
        reveal_strlit("controlslist");
        assert("controlsList"@.len() != "className"@.len());
        assert("controlsList"@ != "className"@);
        assert("controlsList"@.len() != "htmlFor"@.len());
        assert("controlsList"@ != "htmlFor"@);
        assert("controlsList"@.len() != "httpEquiv"@.len());
        assert("controlsList"@ != "httpEquiv"@);
        assert("controlsList"@.len() != "acceptCharset"@.len());
        assert("controlsList"@ != "acceptCharset"@);
        assert("controlsList"@.len() != "xmlnsXLink"@.len());
        assert("controlsList"@ != "xmlnsXLink"@);
        lemma_property_lowercased("controlsList"@, "controlslist"@);
    }
    assert(attribute_name("crossOrigin"@) == "crossorigin"@) by {
        reveal_strlit("crossOrigin");
        reveal_strlit("crossorigin");
        assert("crossOrigin"@.len() != "className"@.len());
        assert("crossOrigin"@ != "className"@);
        assert("crossOrigin"@.len() != "htmlFor"@.len());
        assert("crossOrigin"@ != "htmlFor"@);
        assert("crossOrigin"@.len() != "httpEquiv"@.len());
        assert("crossOrigin"@ != "httpEquiv"@);
        assert("crossOrigin"@.len() != "acceptCharset"@.len());
        assert("crossOrigin"@ != "acceptCharset"@);
        assert("crossOrigin"@.len() != "xmlnsXLink"@.len());
        assert("crossOrigin"@ != "xmlnsXLink"@);
        lemma_property_lowercased("crossOrigin"@, "crossorigin"@);
    }
    assert(attribute_name("dateTime"@) == "datetime"@) by {
        reveal_strlit("dateTime");
        reveal_strlit("datetime");
        assert("dateTime"@.len() != "className"@.len());
        assert("dateTime"@ != "className"@);
        assert("dateTime"@.len() != "htmlFor"@.len());
        assert("dateTime"@ != "htmlFor"@);
        assert("dateTime"@.len() != "httpEquiv"@.len());
        assert("dateTime"@ != "httpEquiv"@);
        assert("dateTime"@.len() != "acceptCharset"@.len());
        assert("dateTime"@ != "acceptCharset"@);
        assert("dateTime"@.len() != "xmlnsXLink"@.len());
        assert("dateTime"@ != "xmlnsXLink"@);
        lemma_property_lowercased("dateTime"@, "datetime"@);
    }
    assert(attribute_name("dirName"@) == "dirname"@) by {
        reveal_strlit("dirName");
        reveal_strlit("dirname");
        assert("dirName"@.len() != "className"@.len());
        assert("dirName"@ != "className"@);
        assert("dirName"@[0] != "htmlFor"@[0]);
        assert("dirName"@ != "htmlFor"@);
        assert("dirName"@.len() != "httpEquiv"@.len());
        assert("dirName"@ != "httpEquiv"@);
        assert("dirName"@.len() != "acceptCharset"@.len());
        assert("dirName"@ != "acceptCharset"@);
        assert("dirName"@.len() != "xmlnsXLink"@.len());
        assert("dirName"@ != "xmlnsXLink"@);
        lemma_property_lowercased("dirName"@, "dirname"@);
    }
}

proof fn lemma_html_properties_1()
    ensures
        attribute_name("encType"@) == "enctype"@,
        attribute_name("enterKeyHint"@) == "enterkeyhint"@,
        attribute_name("fetchPriority"@) == "fetchpriority"@,
        attribute_name("formAction"@) == "formaction"@,
        attribute_name("formEncType"@) == "formenctype"@,
        attribute_name("formMethod"@) == "formmethod"@,
        attribute_name("formNoValidate"@) == "formnovalidate"@,
        attribute_name("formTarget"@) == "formtarget"@,
        attribute_name("hrefLang"@) == "hreflang"@,
        attribute_name("imageSizes"@) == "imagesizes"@,
        attribute_name("imageSrcSet"@) == "imagesrcset"@,
        attribute_name("inputMode"@) == "inputmode"@,
        attribute_name("isMap"@) == "ismap"@,
        attribute_name("itemId"@) == "itemid"@,
        attribute_name("itemProp"@) == "itemprop"@,
{
    reveal_strlit("className");
    reveal_strlit("htmlFor");
    reveal_strlit("httpEquiv");
    reveal_strlit("acceptCharset");
    reveal_strlit("xmlnsXLink");
    assert(attribute_name("encType"@) == "enctype"@) by {
        reveal_strlit("encType");
        reveal_strlit("enctype");
        assert("encType"@.len() != "className"@.len());
        assert("encType"@ != "className"@);
        assert("encType"@[0] != "htmlFor"@[0]);
        assert("encType"@ != "htmlFor"@);
        assert("encType"@.len() != "httpEquiv"@.len());
        assert("encType"@ != "httpEquiv"@);
        assert("encType"@.len() != "acceptCharset"@.len());
        assert("encType"@ != "acceptCharset"@);
        assert("encType"@.len() != "xmlnsXLink"@.len());
        assert("encType"@ != "xmlnsXLink"@);
        lemma_property_lowercased("encType"@, "enctype"@);
    }
    assert(attribute_name("enterKeyHint"@) == "enterkeyhint"@) by {
        reveal_strlit("enterKeyHint");
        reveal_strlit("enterkeyhint");
        assert("enterKeyHint"@.len() != "className"@.len());
        assert("enterKeyHint"@ != "className"@);
        assert("enterKeyHint"@.len() != "htmlFor"@.len());
        assert("enterKeyHint"@ != "htmlFor"@);
        assert("enterKeyHint"@.len() != "httpEquiv"@.len());
        assert("enterKeyHint"@ != "httpEquiv"@);
        assert("enterKeyHint"@.len() != "acceptCharset"@.len());
        assert("enterKeyHint"@ != "acceptCharset"@);
        assert("enterKeyHint"@.len() != "xmlnsXLink"@.len());
        assert("enterKeyHint"@ != "xmlnsXLink"@);
        lemma_property_lowercased("enterKeyHint"@, "enterkeyhint"@);
    }
    assert(attribute_name("fetchPriority"@) == "fetchpriority"@) by {
        reveal_strlit("fetchPriority");
        reveal_strlit("fetchpriority");
        assert("fetchPriority"@.len() != "className"@.len());
        assert("fetchPriority"@ != "className"@);
        assert("fetchPriority"@.len() != "htmlFor"@.len());
        assert("fetchPriority"@ != "htmlFor"@);
        assert("fetchPriority"@.len() != "httpEquiv"@.len());
        assert("fetchPriority"@ != "httpEquiv"@);
        assert("fetchPriority"@[0] != "acceptCharset"@[0]);
        assert("fetchPriority"@ != "acceptCharset"@);
        assert("fetchPriority"@.len() != "xmlnsXLink"@.len());
        assert("fetchPriority"@ != "xmlnsXLink"@);
        lemma_property_lowercased("fetchPriority"@, "fetchpriority"@);
    }
    assert(attribute_name("formAction"@) == "formaction"@) by {
        reveal_strlit("formAction");
        reveal_strlit("formaction");
        assert("formAction"@.len() != "className"@.len());
        assert("formAction"@ != "className"@);
        assert("formAction"@.len() != "htmlFor"@.len());
        assert("formAction"@ != "htmlFor"@);
        assert("formAction"@.len() != "httpEquiv"@.len());
        assert("formAction"@ != "httpEquiv"@);
        assert("formAction"@.len() != "acceptCharset"@.len());
        assert("formAction"@ != "acceptCharset"@);
        assert("formAction"@[0] != "xmlnsXLink"@[0]);
        assert("formAction"@ != "xmlnsXLink"@);
        lemma_property_lowercased("formAction"@, "formaction"@);
    }
    assert(attribute_name("formEncType"@) == "formenctype"@) by {
        reveal_strlit("formEncType");
        reveal_strlit("formenctype");
        assert("formEncType"@.len() != "className"@.len());
        assert("formEncType"@ != "className"@);
        assert("formEncType"@.len() != "htmlFor"@.len());
        assert("formEncType"@ != "htmlFor"@);
        assert("formEncType"@.len() != "httpEquiv"@.len());
        assert("formEncType"@ != "httpEquiv"@);
        assert("formEncType"@.len() != "acceptCharset"@.len());
        assert("formEncType"@ != "acceptCharset"@);
        assert("formEncType"@.len() != "xmlnsXLink"@.len());
        assert("formEncType"@ != "xmlnsXLink"@);
        lemma_property_lowercased("formEncType"@, "formenctype"@);
    }
    assert(attribute_name("formMethod"@) == "formmethod"@) by {
        reveal_strlit("formMethod");
        reveal_strlit("formmethod");
        assert("formMethod"@.len() != "className"@.len());
        assert("formMethod"@ != "className"@);
        assert("formMethod"@.len() != "htmlFor"@.len());
        assert("formMethod"@ != "htmlFor"@);
        assert("formMethod"@.len() != "httpEquiv"@.len());
        assert("formMethod"@ != "httpEquiv"@);
        assert("formMethod"@.len() != "acceptCharset"@.len());
        assert("formMethod"@ != "acceptCharset"@);
        assert("formMethod"@[0] != "xmlnsXLink"@[0]);
        assert("formMethod"@ != "xmlnsXLink"@);
        lemma_property_lowercased("formMethod"@, "formmethod"@);
    }
    assert(attribute_name("formNoValidate"@) == "formnovalidate"@) by {
        reveal_strlit("formNoValidate");
        reveal_strlit("formnovalidate");
        assert("formNoValidate"@.len() != "className"@.len());
        assert("formNoValidate"@ != "className"@);
        assert("formNoValidate"@.len() != "htmlFor"@.len());
        assert("formNoValidate"@ != "htmlFor"@);
        assert("formNoValidate"@.len() != "httpEquiv"@.len());
        assert("formNoValidate"@ != "httpEquiv"@);
        assert("formNoValidate"@.len() != "acceptCharset"@.len());
        assert("formNoValidate"@ != "acceptCharset"@);
        assert("formNoValidate"@.len() != "xmlnsXLink"@.len());
        assert("formNoValidate"@ != "xmlnsXLink"@);
        lemma_property_lowercased("formNoValidate"@, "formnovalidate"@);
    }
    assert(attribute_name("formTarget"@) == "formtarget"@) by {
        reveal_strlit("formTarget");
        reveal_strlit("formtarget");
        assert("formTarget"@.len() != "className"@.len());
        assert("formTarget"@ != "className"@);
        assert("formTarget"@.len() != "htmlFor"@.len());
        assert("formTarget"@ != "htmlFor"@);
        assert("formTarget"@.len() != "httpEquiv"@.len());
        assert("formTarget"@ != "httpEquiv"@);
        assert("formTarget"@.len() != "acceptCharset"@.len());
        assert("formTarget"@ != "acceptCharset"@);
        assert("formTarget"@[0] != "xmlnsXLink"@[0]);
        assert("formTarget"@ != "xmlnsXLink"@);
        lemma_property_lowercased("formTarget"@, "formtarget"@);
    }
    assert(attribute_name("hrefLang"@) == "hreflang"@) by {
        reveal_strlit("hrefLang");
        reveal_strlit("hreflang");
        assert("hrefLang"@.len() != "className"@.len());
        assert("hrefLang"@ != "className"@);
        assert("hrefLang"@.len() != "htmlFor"@.len());
        assert("hrefLang"@ != "htmlFor"@);
        assert("hrefLang"@.len() != "httpEquiv"@.len());
        assert("hrefLang"@ != "httpEquiv"@);
        assert("hrefLang"@.len() != "acceptCharset"@.len());
        assert("hrefLang"@ != "acceptCharset"@);
        assert("hrefLang"@.len() != "xmlnsXLink"@.len());
        assert("hrefLang"@ != "xmlnsXLink"@);
        lemma_property_lowercased("hrefLang"@, "hreflang"@);
    }
    assert(attribute_name("imageSizes"@) == "imagesizes"@) by {
        reveal_strlit("imageSizes");
        reveal_strlit("imagesizes");
        assert("imageSizes"@.len() != "className"@.len());
        assert("imageSizes"@ != "className"@);
        assert("imageSizes"@.len() != "htmlFor"@.len());
        assert("imageSizes"@ != "htmlFor"@);
        assert("imageSizes"@.len() != "httpEquiv"@.len());
        assert("imageSizes"@ != "httpEquiv"@);
        assert("imageSizes"@.len() != "acceptCharset"@.len());
        assert("imageSizes"@ != "acceptCharset"@);
        assert("imageSizes"@[0] != "xmlnsXLink"@[0]);
        assert("imageSizes"@ != "xmlnsXLink"@);
        lemma_property_lowercased("imageSizes"@, "imagesizes"@);
    }
    assert(attribute_name("imageSrcSet"@) == "imagesrcset"@) by {
        reveal_strlit("imageSrcSet");
        reveal_strlit("imagesrcset");
        assert("imageSrcSet"@.len() != "className"@.len());
        assert("imageSrcSet"@ != "className"@);
        assert("imageSrcSet"@.len() != "htmlFor"@.len());
        assert("imageSrcSet"@ != "htmlFor"@);
        assert("imageSrcSet"@.len() != "httpEquiv"@.len());
        assert("imageSrcSet"@ != "httpEquiv"@);
        assert("imageSrcSet"@.len() != "acceptCharset"@.len());
        assert("imageSrcSet"@ != "acceptCharset"@);
        assert("imageSrcSet"@.len() != "xmlnsXLink"@.len());
        assert("imageSrcSet"@ != "xmlnsXLink"@);
        lemma_property_lowercased("imageSrcSet"@, "imagesrcset"@);
    }
    assert(attribute_name("inputMode"@) == "inputmode"@) by {
        reveal_strlit("inputMode");
        reveal_strlit("inputmode");
        assert("inputMode"@[0] != "className"@[0]);
        assert("inputMode"@ != "className"@);
        assert("inputMode"@.len() != "htmlFor"@.len());
        assert("inputMode"@ != "htmlFor"@);
        assert("inputMode"@[0] != "httpEquiv"@[0]);
        assert("inputMode"@ != "httpEquiv"@);
        assert("inputMode"@.len() != "acceptCharset"@.len());
        assert("inputMode"@ != "acceptCharset"@);
        assert("inputMode"@.len() != "xmlnsXLink"@.len());
        assert("inputMode"@ != "xmlnsXLink"@);
        lemma_property_lowercased("inputMode"@, "inputmode"@);
    }
    assert(attribute_name("isMap"@) == "ismap"@) by {
        reveal_strlit("isMap");
        reveal_strlit("ismap");
        assert("isMap"@.len() != "className"@.len());
        assert("isMap"@ != "className"@);
        assert("isMap"@.len() != "htmlFor"@.len());
        assert("isMap"@ != "htmlFor"@);
        assert("isMap"@.len() != "httpEquiv"@.len());
        assert("isMap"@ != "httpEquiv"@);
        assert("isMap"@.len() != "acceptCharset"@.len());
        assert("isMap"@ != "acceptCharset"@);
        assert("isMap"@.len() != "xmlnsXLink"@.len());
        assert("isMap"@ != "xmlnsXLink"@);
        lemma_property_lowercased("isMap"@, "ismap"@);
    }
    assert(attribute_name("itemId"@) == "itemid"@) by {
        reveal_strlit("itemId");
        reveal_strlit("itemid");
        assert("itemId"@.len() != "className"@.len());
        assert("itemId"@ != "className"@);
        assert("itemId"@.len() != "htmlFor"@.len());
        assert("itemId"@ != "htmlFor"@);
        assert("itemId"@.len() != "httpEquiv"@.len());
        assert("itemId"@ != "httpEquiv"@);
        assert("itemId"@.len() != "acceptCharset"@.len());
        assert("itemId"@ != "acceptCharset"@);
        assert("itemId"@.len() != "xmlnsXLink"@.len());
        assert("itemId"@ != "xmlnsXLink"@);
        lemma_property_lowercased("itemId"@, "itemid"@);
    }
    assert(attribute_name("itemProp"@) == "itemprop"@) by {
        reveal_strlit("itemProp");
        reveal_strlit("itemprop");
        assert("itemProp"@.len() != "className"@.len());
        assert("itemProp"@ != "className"@);
        assert("itemProp"@.len() != "htmlFor"@.len());
        assert("itemProp"@ != "htmlFor"@);
        assert("itemProp"@.len() != "httpEquiv"@.len());
        assert("itemProp"@ != "httpEquiv"@);
        assert("itemProp"@.len() != "acceptCharset"@.len());
        assert("itemProp"@ != "acceptCharset"@);
        assert("itemProp"@.len() != "xmlnsXLink"@.len());
        assert("itemProp"@ != "xmlnsXLink"@);
        lemma_property_lowercased("itemProp"@, "itemprop"@);
    }
}

proof fn lemma_html_properties_2()
    ensures
        attribute_name("itemRef"@) == "itemref"@,
        attribute_name("itemScope"@) == "itemscope"@,
        attribute_name("itemType"@) == "itemtype"@,
        attribute_name("maxLength"@) == "maxlength"@,
        attribute_name("minLength"@) == "minlength"@,
        attribute_name("noModule"@) == "nomodule"@,
        attribute_name("noValidate"@) == "novalidate"@,
        attribute_name("playsInline"@) == "playsinline"@,
        attribute_name("popoverTarget"@) == "popovertarget"@,
        attribute_name("popoverTargetAction"@) == "popovertargetaction"@,
        attribute_name("readOnly"@) == "readonly"@,
        attribute_name("referrerPolicy"@) == "referrerpolicy"@,
        attribute_name("rowSpan"@) == "rowspan"@,
        attribute_name("shadowRootClonable"@) == "shadowrootclonable"@,
        attribute_name("shadowRootDelegatesFocus"@) == "shadowrootdelegatesfocus"@,
{
    reveal_strlit("className");
    reveal_strlit("htmlFor");
    reveal_strlit("httpEquiv");
    reveal_strlit("acceptCharset");
    reveal_strlit("xmlnsXLink");
    assert(attribute_name("itemRef"@) == "itemref"@) by {
        reveal_strlit("itemRef");
        reveal_strlit("itemref");
        assert("itemRef"@.len() != "className"@.len());
        assert("itemRef"@ != "className"@);
        assert("itemRef"@[0] != "htmlFor"@[0]);
        assert("itemRef"@ != "htmlFor"@);
        assert("itemRef"@.len() != "httpEquiv"@.len());
        assert("itemRef"@ != "httpEquiv"@);
        assert("itemRef"@.len() != "acceptCharset"@.len());
        assert("itemRef"@ != "acceptCharset"@);
        assert("itemRef"@.len() != "xmlnsXLink"@.len());
        assert("itemRef"@ != "xmlnsXLink"@);
        lemma_property_lowercased("itemRef"@, "itemref"@);
    }
    assert(attribute_name("itemScope"@) == "itemscope"@) by {
        reveal_strlit("itemScope");
        reveal_strlit("itemscope");
        assert("itemScope"@[0] != "className"@[0]);
        assert("itemScope"@ != "className"@);
        assert("itemScope"@.len() != "htmlFor"@.len());
        assert("itemScope"@ != "htmlFor"@);
        assert("itemScope"@[0] != "httpEquiv"@[0]);
        assert("itemScope"@ != "httpEquiv"@);
        assert("itemScope"@.len() != "acceptCharset"@.len());
        assert("itemScope"@ != "acceptCharset"@);
        assert("itemScope"@.len() != "xmlnsXLink"@.len());
        assert("itemScope"@ != "xmlnsXLink"@);
        lemma_property_lowercased("itemScope"@, "itemscope"@);
    }
    assert(attribute_name("itemType"@) == "itemtype"@) by {
        reveal_strlit("itemType");
        reveal_strlit("itemtype");
        assert("itemType"@.len() != "className"@.len());
        assert("itemType"@ != "className"@);
        assert("itemType"@.len() != "htmlFor"@.len());
        assert("itemType"@ != "htmlFor"@);
        assert("itemType"@.len() != "httpEquiv"@.len());
        assert("itemType"@ != "httpEquiv"@);
        assert("itemType"@.len() != "acceptCharset"@.len());
        assert("itemType"@ != "acceptCharset"@);
        assert("itemType"@.len() != "xmlnsXLink"@.len());
        assert("itemType"@ != "xmlnsXLink"@);
        lemma_property_lowercased("itemType"@, "itemtype"@);
    }
    assert(attribute_name("maxLength"@) == "maxlength"@) by {
        reveal_strlit("maxLength");
        reveal_strlit("maxlength");
        assert("maxLength"@[0] != "className"@[0]);
        assert("maxLength"@ != "className"@);
        assert("maxLength"@.len() != "htmlFor"@.len());
        assert("maxLength"@ != "htmlFor"@);
        assert("maxLength"@[0] != "httpEquiv"@[0]);
        assert("maxLength"@ != "httpEquiv"@);
        assert("maxLength"@.len() != "acceptCharset"@.len());
        assert("maxLength"@ != "acceptCharset"@);
        assert("maxLength"@.len() != "xmlnsXLink"@.len());
        assert("maxLength"@ != "xmlnsXLink"@);
        lemma_property_lowercased("maxLength"@, "maxlength"@);
    }
    assert(attribute_name("minLength"@) == "minlength"@) by {
        reveal_strlit("minLength");
        reveal_strlit("minlength");
        assert("minLength"@[0] != "className"@[0]);
        assert("minLength"@ != "className"@);
        assert("minLength"@.len() != "htmlFor"@.len());
        assert("minLength"@ != "htmlFor"@);
        assert("minLength"@[0] != "httpEquiv"@[0]);
        assert("minLength"@ != "httpEquiv"@);
        assert("minLength"@.len() != "acceptCharset"@.len());
        assert("minLength"@ != "acceptCharset"@);
        assert("minLength"@.len() != "xmlnsXLink"@.len());
        assert("minLength"@ != "xmlnsXLink"@);
        lemma_property_lowercased("minLength"@, "minlength"@);
    }
    assert(attribute_name("noModule"@) == "nomodule"@) by {
        reveal_strlit("noModule");
        reveal_strlit("nomodule");
        assert("noModule"@.len() != "className"@.len());
        assert("noModule"@ != "className"@);
        assert("noModule"@.len() != "htmlFor"@.len());
        assert("noModule"@ != "htmlFor"@);
        assert("noModule"@.len() != "httpEquiv"@.len());
        assert("noModule"@ != "httpEquiv"@);
        assert("noModule"@.len() != "acceptCharset"@.len());
        assert("noModule"@ != "acceptCharset"@);
        assert("noModule"@.len() != "xmlnsXLink"@.len());
        assert("noModule"@ != "xmlnsXLink"@);
        lemma_property_lowercased("noModule"@, "nomodule"@);
    }
    assert(attribute_name("noValidate"@) == "novalidate"@) by {
        reveal_strlit("noValidate");
        reveal_strlit("novalidate");
        assert("noValidate"@.len() != "className"@.len());
        assert("noValidate"@ != "className"@);
        assert("noValidate"@.len() != "htmlFor"@.len());
        assert("noValidate"@ != "htmlFor"@);
        assert("noValidate"@.len() != "httpEquiv"@.len());
        assert("noValidate"@ != "httpEquiv"@);
        assert("noValidate"@.len() != "acceptCharset"@.len());
        assert("noValidate"@ != "acceptCharset"@);
        assert("noValidate"@[0] != "xmlnsXLink"@[0]);
        assert("noValidate"@ != "xmlnsXLink"@);
        lemma_property_lowercased("noValidate"@, "novalidate"@);
    }
    assert(attribute_name("playsInline"@) == "playsinline"@) by {
        reveal_strlit("playsInline");
        reveal_strlit("playsinline");
        assert("playsInline"@.len() != "className"@.len());
        assert("playsInline"@ != "className"@);
        assert("playsInline"@.len() != "htmlFor"@.len());
        assert("playsInline"@ != "htmlFor"@);
        assert("playsInline"@.len() != "httpEquiv"@.len());
        assert("playsInline"@ != "httpEquiv"@);
        assert("playsInline"@.len() != "acceptCharset"@.len());
        assert("playsInline"@ != "acceptCharset"@);
        assert("playsInline"@.len() != "xmlnsXLink"@.len());
        assert("playsInline"@ != "xmlnsXLink"@);
        lemma_property_lowercased("playsInline"@, "playsinline"@);
    }
    assert(attribute_name("popoverTarget"@) == "popovertarget"@) by {
        reveal_strlit("popoverTarget");
        reveal_strlit("popovertarget");
        assert("popoverTarget"@.len() != "className"@.len());
        assert("popoverTarget"@ != "className"@);
        assert("popoverTarget"@.len() != "htmlFor"@.len());
        assert("popoverTarget"@ != "htmlFor"@);
        assert("popoverTarget"@.len() != "httpEquiv"@.len());
        assert("popoverTarget"@ != "httpEquiv"@);
        assert("popoverTarget"@[0] != "acceptCharset"@[0]);
        assert("popoverTarget"@ != "acceptCharset"@);
        assert("popoverTarget"@.len() != "xmlnsXLink"@.len());
        assert("popoverTarget"@ != "xmlnsXLink"@);
        lemma_property_lowercased("popoverTarget"@, "popovertarget"@);
    }
    assert(attribute_name("popoverTargetAction"@) == "popovertargetaction"@) by {
        reveal_strlit("popoverTargetAction");
        reveal_strlit("popovertargetaction");
        assert("popoverTargetAction"@.len() != "className"@.len());
        assert("popoverTargetAction"@ != "className"@);
        assert("popoverTargetAction"@.len() != "htmlFor"@.len());
        assert("popoverTargetAction"@ != "htmlFor"@);
        assert("popoverTargetAction"@.len() != "httpEquiv"@.len());
        assert("popoverTargetAction"@ != "httpEquiv"@);
        assert("popoverTargetAction"@.len() != "acceptCharset"@.len());
        assert("popoverTargetAction"@ != "acceptCharset"@);
        assert("popoverTargetAction"@.len() != "xmlnsXLink"@.len());
        assert("popoverTargetAction"@ != "xmlnsXLink"@);
        lemma_property_lowercased("popoverTargetAction"@, "popovertargetaction"@);
    }
    assert(attribute_name("readOnly"@) == "readonly"@) by {
        reveal_strlit("readOnly");
        reveal_strlit("readonly");
        assert("readOnly"@.len() != "className"@.len());
        assert("readOnly"@ != "className"@);
        assert("readOnly"@.len() != "htmlFor"@.len());
        assert("readOnly"@ != "htmlFor"@);
        assert("readOnly"@.len() != "httpEquiv"@.len());
        assert("readOnly"@ != "httpEquiv"@);
        assert("readOnly"@.len() != "acceptCharset"@.len());
        assert("readOnly"@ != "acceptCharset"@);
        assert("readOnly"@.len() != "xmlnsXLink"@.len());
        assert("readOnly"@ != "xmlnsXLink"@);
        lemma_property_lowercased("readOnly"@, "readonly"@);
    }
    assert(attribute_name("referrerPolicy"@) == "referrerpolicy"@) by {
        reveal_strlit("referrerPolicy");
        reveal_strlit("referrerpolicy");
        assert("referrerPolicy"@.len() != "className"@.len());
        assert("referrerPolicy"@ != "className"@);
        assert("referrerPolicy"@.len() != "htmlFor"@.len());
        assert("referrerPolicy"@ != "htmlFor"@);
        assert("referrerPolicy"@.len() != "httpEquiv"@.len());
        assert("referrerPolicy"@ != "httpEquiv"@);
        assert("referrerPolicy"@.len() != "acceptCharset"@.len());
        assert("referrerPolicy"@ != "acceptCharset"@);
        assert("referrerPolicy"@.len() != "xmlnsXLink"@.len());
        assert("referrerPolicy"@ != "xmlnsXLink"@);
        lemma_property_lowercased("referrerPolicy"@, "referrerpolicy"@);
    }
    assert(attribute_name("rowSpan"@) == "rowspan"@) by {
        reveal_strlit("rowSpan");
        reveal_strlit("rowspan");
        assert("rowSpan"@.len() != "className"@.len());
        assert("rowSpan"@ != "className"@);
        assert("rowSpan"@[0] != "htmlFor"@[0]);
        assert("rowSpan"@ != "htmlFor"@);
        assert("rowSpan"@.len() != "httpEquiv"@.len());
        assert("rowSpan"@ != "httpEquiv"@);
        assert("rowSpan"@.len() != "acceptCharset"@.len());
        assert("rowSpan"@ != "acceptCharset"@);
        assert("rowSpan"@.len() != "xmlnsXLink"@.len());
        assert("rowSpan"@ != "xmlnsXLink"@);
        lemma_property_lowercased("rowSpan"@, "rowspan"@);
    }
    assert(attribute_name("shadowRootClonable"@) == "shadowrootclonable"@) by {
        reveal_strlit("shadowRootClonable");
        reveal_strlit("shadowrootclonable");
        assert("shadowRootClonable"@.len() != "className"@.len());
        assert("shadowRootClonable"@ != "className"@);
        assert("shadowRootClonable"@.len() != "htmlFor"@.len());
        assert("shadowRootClonable"@ != "htmlFor"@);
        assert("shadowRootClonable"@.len() != "httpEquiv"@.len());
        assert("shadowRootClonable"@ != "httpEquiv"@);
        assert("shadowRootClonable"@.len() != "acceptCharset"@.len());
        assert("shadowRootClonable"@ != "acceptCharset"@);
        assert("shadowRootClonable"@.len() != "xmlnsXLink"@.len());
        assert("shadowRootClonable"@ != "xmlnsXLink"@);
        lemma_property_lowercased("shadowRootClonable"@, "shadowrootclonable"@);
    }
    assert(attribute_name("shadowRootDelegatesFocus"@) == "shadowrootdelegatesfocus"@) by {
        reveal_strlit("shadowRootDelegatesFocus");
        reveal_strlit("shadowrootdelegatesfocus");
        assert("shadowRootDelegatesFocus"@.len() != "className"@.len());
        assert("shadowRootDelegatesFocus"@ != "className"@);
        assert("shadowRootDelegatesFocus"@.len() != "htmlFor"@.len());
        assert("shadowRootDelegatesFocus"@ != "htmlFor"@);
        assert("shadowRootDelegatesFocus"@.len() != "httpEquiv"@.len());
        assert("shadowRootDelegatesFocus"@ != "httpEquiv"@);
        assert("shadowRootDelegatesFocus"@.len() != "acceptCharset"@.len());
        assert("shadowRootDelegatesFocus"@ != "acceptCharset"@);
        assert("shadowRootDelegatesFocus"@.len() != "xmlnsXLink"@.len());
        assert("shadowRootDelegatesFocus"@ != "xmlnsXLink"@);
        lemma_property_lowercased("shadowRootDelegatesFocus"@, "shadowrootdelegatesfocus"@);
    }
}

proof fn lemma_html_properties_3()
    ensures
        attribute_name("shadowRootMode"@) == "shadowrootmode"@,
        attribute_name("spellCheck"@) == "spellcheck"@,
        attribute_name("srcDoc"@) == "srcdoc"@,
        attribute_name("srcLang"@) == "srclang"@,
        attribute_name("srcSet"@) == "srcset"@,
        attribute_name("tabIndex"@) == "tabindex"@,
        attribute_name("typeMustMatch"@) == "typemustmatch"@,
        attribute_name("useMap"@) == "usemap"@,
        attribute_name("writingSuggestions"@) == "writingsuggestions"@,
        attribute_name("aLink"@) == "alink"@,
        attribute_name("bgColor"@) == "bgcolor"@,
        attribute_name("borderColor"@) == "bordercolor"@,
        attribute_name("bottomMargin"@) == "bottommargin"@,
        attribute_name("cellPadding"@) == "cellpadding"@,
        attribute_name("cellSpacing"@) == "cellspacing"@,
{
    reveal_strlit("className");
    reveal_strlit("htmlFor");
    reveal_strlit("httpEquiv");
    reveal_strlit("acceptCharset");
    reveal_strlit("xmlnsXLink");
    assert(attribute_name("shadowRootMode"@) == "shadowrootmode"@) by {
        reveal_strlit("shadowRootMode");
        reveal_strlit("shadowrootmode");
        assert("shadowRootMode"@.len() != "className"@.len());
        assert("shadowRootMode"@ != "className"@);
        assert("shadowRootMode"@.len() != "htmlFor"@.len());
        assert("shadowRootMode"@ != "htmlFor"@);
        assert("shadowRootMode"@.len() != "httpEquiv"@.len());
        assert("shadowRootMode"@ != "httpEquiv"@);
        assert("shadowRootMode"@.len() != "acceptCharset"@.len());
        assert("shadowRootMode"@ != "acceptCharset"@);
        assert("shadowRootMode"@.len() != "xmlnsXLink"@.len());
        assert("shadowRootMode"@ != "xmlnsXLink"@);
        lemma_property_lowercased("shadowRootMode"@, "shadowrootmode"@);
    }
    assert(attribute_name("spellCheck"@) == "spellcheck"@) by {
        reveal_strlit("spellCheck");
        reveal_strlit("spellcheck");
        assert("spellCheck"@.len() != "className"@.len());
        assert("spellCheck"@ != "className"@);
        assert("spellCheck"@.len() != "htmlFor"@.len());
        assert("spellCheck"@ != "htmlFor"@);
        assert("spellCheck"@.len() != "httpEquiv"@.len());
        assert("spellCheck"@ != "httpEquiv"@);
        assert("spellCheck"@.len() != "acceptCharset"@.len());
        assert("spellCheck"@ != "acceptCharset"@);
        assert("spellCheck"@[0] != "xmlnsXLink"@[0]);
        assert("spellCheck"@ != "xmlnsXLink"@);
        lemma_property_lowercased("spellCheck"@, "spellcheck"@);
    }
    assert(attribute_name("srcDoc"@) == "srcdoc"@) by {
        reveal_strlit("srcDoc");
        reveal_strlit("srcdoc");
        assert("srcDoc"@.len() != "className"@.len());
        assert("srcDoc"@ != "className"@);
        assert("srcDoc"@.len() != "htmlFor"@.len());
        assert("srcDoc"@ != "htmlFor"@);
        assert("srcDoc"@.len() != "httpEquiv"@.len());
        assert("srcDoc"@ != "httpEquiv"@);
        assert("srcDoc"@.len() != "acceptCharset"@.len());
        assert("srcDoc"@ != "acceptCharset"@);
        assert("srcDoc"@.len() != "xmlnsXLink"@.len());
        assert("srcDoc"@ != "xmlnsXLink"@);
        lemma_property_lowercased("srcDoc"@, "srcdoc"@);
    }
    assert(attribute_name("srcLang"@) == "srclang"@) by {
        reveal_strlit("srcLang");
        reveal_strlit("srclang");
        assert("srcLang"@.len() != "className"@.len());
        assert("srcLang"@ != "className"@);
        assert("srcLang"@[0] != "htmlFor"@[0]);
        assert("srcLang"@ != "htmlFor"@);
        assert("srcLang"@.len() != "httpEquiv"@.len());
        assert("srcLang"@ != "httpEquiv"@);
        assert("srcLang"@.len() != "acceptCharset"@.len());
        assert("srcLang"@ != "acceptCharset"@);
        assert("srcLang"@.len() != "xmlnsXLink"@.len());
        assert("srcLang"@ != "xmlnsXLink"@);
        lemma_property_lowercased("srcLang"@, "srclang"@);
    }
    assert(attribute_name("srcSet"@) == "srcset"@) by {
        reveal_strlit("srcSet");
        reveal_strlit("srcset");
        assert("srcSet"@.len() != "className"@.len());
        assert("srcSet"@ != "className"@);
        assert("srcSet"@.len() != "htmlFor"@.len());
        assert("srcSet"@ != "htmlFor"@);
        assert("srcSet"@.len() != "httpEquiv"@.len());
        assert("srcSet"@ != "httpEquiv"@);
        assert("srcSet"@.len() != "acceptCharset"@.len());
        assert("srcSet"@ != "acceptCharset"@);
        assert("srcSet"@.len() != "xmlnsXLink"@.len());
        assert("srcSet"@ != "xmlnsXLink"@);
        lemma_property_lowercased("srcSet"@, "srcset"@);
    }
    assert(attribute_name("tabIndex"@) == "tabindex"@) by {
        reveal_strlit("tabIndex");
        reveal_strlit("tabindex");
        assert("tabIndex"@.len() != "className"@.len());
        assert("tabIndex"@ != "className"@);
        assert("tabIndex"@.len() != "htmlFor"@.len());
        assert("tabIndex"@ != "htmlFor"@);
        assert("tabIndex"@.len() != "httpEquiv"@.len());
        assert("tabIndex"@ != "httpEquiv"@);
        assert("tabIndex"@.len() != "acceptCharset"@.len());
        assert("tabIndex"@ != "acceptCharset"@);
        assert("tabIndex"@.len() != "xmlnsXLink"@.len());
        assert("tabIndex"@ != "xmlnsXLink"@);
        lemma_property_lowercased("tabIndex"@, "tabindex"@);
    }
    assert(attribute_name("typeMustMatch"@) == "typemustmatch"@) by {
        reveal_strlit("typeMustMatch");
        reveal_strlit("typemustmatch");
        assert("typeMustMatch"@.len() != "className"@.len());
        assert("typeMustMatch"@ != "className"@);
        assert("typeMustMatch"@.len() != "htmlFor"@.len());
        assert("typeMustMatch"@ != "htmlFor"@);
        assert("typeMustMatch"@.len() != "httpEquiv"@.len());
        assert("typeMustMatch"@ != "httpEquiv"@);
        assert("typeMustMatch"@[0] != "acceptCharset"@[0]);
        assert("typeMustMatch"@ != "acceptCharset"@);
        assert("typeMustMatch"@.len() != "xmlnsXLink"@.len());
        assert("typeMustMatch"@ != "xmlnsXLink"@);
        lemma_property_lowercased("typeMustMatch"@, "typemustmatch"@);
    }
    assert(attribute_name("useMap"@) == "usemap"@) by {
        reveal_strlit("useMap");
        reveal_strlit("usemap");
        assert("useMap"@.len() != "className"@.len());
        assert("useMap"@ != "className"@);
        assert("useMap"@.len() != "htmlFor"@.len());
        assert("useMap"@ != "htmlFor"@);
        assert("useMap"@.len() != "httpEquiv"@.len());
        assert("useMap"@ != "httpEquiv"@);
        assert("useMap"@.len() != "acceptCharset"@.len());
        assert("useMap"@ != "acceptCharset"@);
        assert("useMap"@.len() != "xmlnsXLink"@.len());
        assert("useMap"@ != "xmlnsXLink"@);
        lemma_property_lowercased("useMap"@, "usemap"@);
    }
    assert(attribute_name("writingSuggestions"@) == "writingsuggestions"@) by {
        reveal_strlit("writingSuggestions");
        reveal_strlit("writingsuggestions");
        assert("writingSuggestions"@.len() != "className"@.len());
        assert("writingSuggestions"@ != "className"@);
        assert("writingSuggestions"@.len() != "htmlFor"@.len());
        assert("writingSuggestions"@ != "htmlFor"@);
        assert("writingSuggestions"@.len() != "httpEquiv"@.len());
        assert("writingSuggestions"@ != "httpEquiv"@);
        assert("writingSuggestions"@.len() != "acceptCharset"@.len());
        assert("writingSuggestions"@ != "acceptCharset"@);
        assert("writingSuggestions"@.len() != "xmlnsXLink"@.len());
        assert("writingSuggestions"@ != "xmlnsXLink"@);
        lemma_property_lowercased("writingSuggestions"@, "writingsuggestions"@);
    }
    assert(attribute_name("aLink"@) == "alink"@) by {
        reveal_strlit("aLink");
        reveal_strlit("alink");
        assert("aLink"@.len() != "className"@.len());
        assert("aLink"@ != "className"@);
        assert("aLink"@.len() != "htmlFor"@.len());
        assert("aLink"@ != "htmlFor"@);
        assert("aLink"@.len() != "httpEquiv"@.len());
        assert("aLink"@ != "httpEquiv"@);
        assert("aLink"@.len() != "acceptCharset"@.len());
        assert("aLink"@ != "acceptCharset"@);
        assert("aLink"@.len() != "xmlnsXLink"@.len());
        assert("aLink"@ != "xmlnsXLink"@);
        lemma_property_lowercased("aLink"@, "alink"@);
    }
    assert(attribute_name("bgColor"@) == "bgcolor"@) by {
        reveal_strlit("bgColor");
        reveal_strlit("bgcolor");
        assert("bgColor"@.len() != "className"@.len());
        assert("bgColor"@ != "className"@);
        assert("bgColor"@[0] != "htmlFor"@[0]);
        assert("bgColor"@ != "htmlFor"@);
        assert("bgColor"@.len() != "httpEquiv"@.len());
        assert("bgColor"@ != "httpEquiv"@);
        assert("bgColor"@.len() != "acceptCharset"@.len());
        assert("bgColor"@ != "acceptCharset"@);
        assert("bgColor"@.len() != "xmlnsXLink"@.len());
        assert("bgColor"@ != "xmlnsXLink"@);
        lemma_property_lowercased("bgColor"@, "bgcolor"@);
    }
    assert(attribute_name("borderColor"@) == "bordercolor"@) by {
        reveal_strlit("borderColor");
        reveal_strlit("bordercolor");
        assert("borderColor"@.len() != "className"@.len());
        assert("borderColor"@ != "className"@);
        assert("borderColor"@.len() != "htmlFor"@.len());
        assert("borderColor"@ != "htmlFor"@);
        assert("borderColor"@.len() != "httpEquiv"@.len());
        assert("borderColor"@ != "httpEquiv"@);
        assert("borderColor"@.len() != "acceptCharset"@.len());
        assert("borderColor"@ != "acceptCharset"@);
        assert("borderColor"@.len() != "xmlnsXLink"@.len());
        assert("borderColor"@ != "xmlnsXLink"@);
        lemma_property_lowercased("borderColor"@, "bordercolor"@);
    }
    assert(attribute_name("bottomMargin"@) == "bottommargin"@) by {
        reveal_strlit("bottomMargin");
        reveal_strlit("bottommargin");
        assert("bottomMargin"@.len() != "className"@.len());
        assert("bottomMargin"@ != "className"@);
        assert("bottomMargin"@.len() != "htmlFor"@.len());
        assert("bottomMargin"@ != "htmlFor"@);
        assert("bottomMargin"@.len() != "httpEquiv"@.len());
        assert("bottomMargin"@ != "httpEquiv"@);
        assert("bottomMargin"@.len() != "acceptCharset"@.len());
        assert("bottomMargin"@ != "acceptCharset"@);
        assert("bottomMargin"@.len() != "xmlnsXLink"@.len());
        assert("bottomMargin"@ != "xmlnsXLink"@);
        lemma_property_lowercased("bottomMargin"@, "bottommargin"@);
    }
    assert(attribute_name("cellPadding"@) == "cellpadding"@) by {
        reveal_strlit("cellPadding");
        reveal_strlit("cellpadding");
        assert("cellPadding"@.len() != "className"@.len());
        assert("cellPadding"@ != "className"@);
        assert("cellPadding"@.len() != "htmlFor"@.len());
        assert("cellPadding"@ != "htmlFor"@);
        assert("cellPadding"@.len() != "httpEquiv"@.len());
        assert("cellPadding"@ != "httpEquiv"@);
        assert("cellPadding"@.len() != "acceptCharset"@.len());
        assert("cellPadding"@ != "acceptCharset"@);
        assert("cellPadding"@.len() != "xmlnsXLink"@.len());
        assert("cellPadding"@ != "xmlnsXLink"@);
        lemma_property_lowercased("cellPadding"@, "cellpadding"@);
    }
    assert(attribute_name("cellSpacing"@) == "cellspacing"@) by {
        reveal_strlit("cellSpacing");
        reveal_strlit("cellspacing");
        assert("cellSpacing"@.len() != "className"@.len());
        assert("cellSpacing"@ != "className"@);
        assert("cellSpacing"@.len() != "htmlFor"@.len());
        assert("cellSpacing"@ != "htmlFor"@);
        assert("cellSpacing"@.len() != "httpEquiv"@.len());
        assert("cellSpacing"@ != "httpEquiv"@);
        assert("cellSpacing"@.len() != "acceptCharset"@.len());
        assert("cellSpacing"@ != "acceptCharset"@);
        assert("cellSpacing"@.len() != "xmlnsXLink"@.len());
        assert("cellSpacing"@ != "xmlnsXLink"@);
        lemma_property_lowercased("cellSpacing"@, "cellspacing"@);
    }
}

proof fn lemma_html_properties_4()
    ensures
        attribute_name("charOff"@) == "charoff"@,
        attribute_name("classId"@) == "classid"@,
        attribute_name("codeBase"@) == "codebase"@,
        attribute_name("codeType"@) == "codetype"@,
        attribute_name("frameBorder"@) == "frameborder"@,
        attribute_name("hSpace"@) == "hspace"@,
        attribute_name("leftMargin"@) == "leftmargin"@,
        attribute_name("longDesc"@) == "longdesc"@,
        attribute_name("lowSrc"@) == "lowsrc"@,
        attribute_name("marginHeight"@) == "marginheight"@,
        attribute_name("marginWidth"@) == "marginwidth"@,
        attribute_name("noHref"@) == "nohref"@,
        attribute_name("noResize"@) == "noresize"@,
        attribute_name("noShade"@) == "noshade"@,
        attribute_name("noWrap"@) == "nowrap"@,
{
    reveal_strlit("className");
    reveal_strlit("htmlFor");
    reveal_strlit("httpEquiv");
    reveal_strlit("acceptCharset");
    reveal_strlit("xmlnsXLink");
    assert(attribute_name("charOff"@) == "charoff"@) by {
        reveal_strlit("charOff");
        reveal_strlit("charoff");
        assert("charOff"@.len() != "className"@.len());
        assert("charOff"@ != "className"@);
        assert("charOff"@[0] != "htmlFor"@[0]);
        assert("charOff"@ != "htmlFor"@);
        assert("charOff"@.len() != "httpEquiv"@.len());
        assert("charOff"@ != "httpEquiv"@);
        assert("charOff"@.len() != "acceptCharset"@.len());
        assert("charOff"@ != "acceptCharset"@);
        assert("charOff"@.len() != "xmlnsXLink"@.len());
        assert("charOff"@ != "xmlnsXLink"@);
        lemma_property_lowercased("charOff"@, "charoff"@);
    }
    assert(attribute_name("classId"@) == "classid"@) by {
        reveal_strlit("classId");
        reveal_strlit("classid");
        assert("classId"@.len() != "className"@.len());
        assert("classId"@ != "className"@);
        assert("classId"@[0] != "htmlFor"@[0]);
        assert("classId"@ != "htmlFor"@);
        assert("classId"@.len() != "httpEquiv"@.len());
        assert("classId"@ != "httpEquiv"@);
        assert("classId"@.len() != "acceptCharset"@.len());
        assert("classId"@ != "acceptCharset"@);
        assert("classId"@.len() != "xmlnsXLink"@.len());
        assert("classId"@ != "xmlnsXLink"@);
        lemma_property_lowercased("classId"@, "classid"@);
    }
    assert(attribute_name("codeBase"@) == "codebase"@) by {
        reveal_strlit("codeBase");
        reveal_strlit("codebase");
        assert("codeBase"@.len() != "className"@.len());
        assert("codeBase"@ != "className"@);
        assert("codeBase"@.len() != "htmlFor"@.len());
        assert("codeBase"@ != "htmlFor"@);
        assert("codeBase"@.len() != "httpEquiv"@.len());
        assert("codeBase"@ != "httpEquiv"@);
        assert("codeBase"@.len() != "acceptCharset"@.len());
        assert("codeBase"@ != "acceptCharset"@);
        assert("codeBase"@.len() != "xmlnsXLink"@.len());
        assert("codeBase"@ != "xmlnsXLink"@);
        lemma_property_lowercased("codeBase"@, "codebase"@);
    }
    assert(attribute_name("codeType"@) == "codetype"@) by {
        reveal_strlit("codeType");
        reveal_strlit("codetype");
        assert("codeType"@.len() != "className"@.len());
        assert("codeType"@ != "className"@);
        assert("codeType"@.len() != "htmlFor"@.len());
        assert("codeType"@ != "htmlFor"@);
        assert("codeType"@.len() != "httpEquiv"@.len());
        assert("codeType"@ != "httpEquiv"@);
        assert("codeType"@.len() != "acceptCharset"@.len());
        assert("codeType"@ != "acceptCharset"@);
        assert("codeType"@.len() != "xmlnsXLink"@.len());
        assert("codeType"@ != "xmlnsXLink"@);
        lemma_property_lowercased("codeType"@, "codetype"@);
    }
    assert(attribute_name("frameBorder"@) == "frameborder"@) by {
        reveal_strlit("frameBorder");
        reveal_strlit("frameborder");
        assert("frameBorder"@.len() != "className"@.len());
        assert("frameBorder"@ != "className"@);
        assert("frameBorder"@.len() != "htmlFor"@.len());
        assert("frameBorder"@ != "htmlFor"@);
        assert("frameBorder"@.len() != "httpEquiv"@.len());
        assert("frameBorder"@ != "httpEquiv"@);
        assert("frameBorder"@.len() != "acceptCharset"@.len());
        assert("frameBorder"@ != "acceptCharset"@);
        assert("frameBorder"@.len() != "xmlnsXLink"@.len());
        assert("frameBorder"@ != "xmlnsXLink"@);
        lemma_property_lowercased("frameBorder"@, "frameborder"@);
    }
    assert(attribute_name("hSpace"@) == "hspace"@) by {
        reveal_strlit("hSpace");
        reveal_strlit("hspace");
        assert("hSpace"@.len() != "className"@.len());
        assert("hSpace"@ != "className"@);
        assert("hSpace"@.len() != "htmlFor"@.len());
        assert("hSpace"@ != "htmlFor"@);
        assert("hSpace"@.len() != "httpEquiv"@.len());
        assert("hSpace"@ != "httpEquiv"@);
        assert("hSpace"@.len() != "acceptCharset"@.len());
        assert("hSpace"@ != "acceptCharset"@);
        assert("hSpace"@.len() != "xmlnsXLink"@.len());
        assert("hSpace"@ != "xmlnsXLink"@);
        lemma_property_lowercased("hSpace"@, "hspace"@);
    }
    assert(attribute_name("leftMargin"@) == "leftmargin"@) by {
        reveal_strlit("leftMargin");
        reveal_strlit("leftmargin");
        assert("leftMargin"@.len() != "className"@.len());
        assert("leftMargin"@ != "className"@);
        assert("leftMargin"@.len() != "htmlFor"@.len());
        assert("leftMargin"@ != "htmlFor"@);
        assert("leftMargin"@.len() != "httpEquiv"@.len());
        assert("leftMargin"@ != "httpEquiv"@);
        assert("leftMargin"@.len() != "acceptCharset"@.len());
        assert("leftMargin"@ != "acceptCharset"@);
        assert("leftMargin"@[0] != "xmlnsXLink"@[0]);
        assert("leftMargin"@ != "xmlnsXLink"@);
        lemma_property_lowercased("leftMargin"@, "leftmargin"@);
    }
    assert(attribute_name("longDesc"@) == "longdesc"@) by {
        reveal_strlit("longDesc");
        reveal_strlit("longdesc");
        assert("longDesc"@.len() != "className"@.len());
        assert("longDesc"@ != "className"@);
        assert("longDesc"@.len() != "htmlFor"@.len());
        assert("longDesc"@ != "htmlFor"@);
        assert("longDesc"@.len() != "httpEquiv"@.len());
        assert("longDesc"@ != "httpEquiv"@);
        assert("longDesc"@.len() != "acceptCharset"@.len());
        assert("longDesc"@ != "acceptCharset"@);
        assert("longDesc"@.len() != "xmlnsXLink"@.len());
        assert("longDesc"@ != "xmlnsXLink"@);
        lemma_property_lowercased("longDesc"@, "longdesc"@);
    }
    assert(attribute_name("lowSrc"@) == "lowsrc"@) by {
        reveal_strlit("lowSrc");
        reveal_strlit("lowsrc");
        assert("lowSrc"@.len() != "className"@.len());
        assert("lowSrc"@ != "className"@);
        assert("lowSrc"@.len() != "htmlFor"@.len());
        assert("lowSrc"@ != "htmlFor"@);
        assert("lowSrc"@.len() != "httpEquiv"@.len());
        assert("lowSrc"@ != "httpEquiv"@);
        assert("lowSrc"@.len() != "acceptCharset"@.len());
        assert("lowSrc"@ != "acceptCharset"@);
        assert("lowSrc"@.len() != "xmlnsXLink"@.len());
        assert("lowSrc"@ != "xmlnsXLink"@);
        lemma_property_lowercased("lowSrc"@, "lowsrc"@);
    }
    assert(attribute_name("marginHeight"@) == "marginheight"@) by {
        reveal_strlit("marginHeight");
        reveal_strlit("marginheight");
        assert("marginHeight"@.len() != "className"@.len());
        assert("marginHeight"@ != "className"@);
        assert("marginHeight"@.len() != "htmlFor"@.len());
        assert("marginHeight"@ != "htmlFor"@);
        assert("marginHeight"@.len() != "httpEquiv"@.len());
        assert("marginHeight"@ != "httpEquiv"@);
        assert("marginHeight"@.len() != "acceptCharset"@.len());
        assert("marginHeight"@ != "acceptCharset"@);
        assert("marginHeight"@.len() != "xmlnsXLink"@.len());
        assert("marginHeight"@ != "xmlnsXLink"@);
        lemma_property_lowercased("marginHeight"@, "marginheight"@);
    }
    assert(attribute_name("marginWidth"@) == "marginwidth"@) by {
        reveal_strlit("marginWidth");
        reveal_strlit("marginwidth");
        assert("marginWidth"@.len() != "className"@.len());
        assert("marginWidth"@ != "className"@);
        assert("marginWidth"@.len() != "htmlFor"@.len());
        assert("marginWidth"@ != "htmlFor"@);
        assert("marginWidth"@.len() != "httpEquiv"@.len());
        assert("marginWidth"@ != "httpEquiv"@);
        assert("marginWidth"@.len() != "acceptCharset"@.len());
        assert("marginWidth"@ != "acceptCharset"@);
        assert("marginWidth"@.len() != "xmlnsXLink"@.len());
        assert("marginWidth"@ != "xmlnsXLink"@);
        lemma_property_lowercased("marginWidth"@, "marginwidth"@);
    }
    assert(attribute_name("noHref"@) == "nohref"@) by {
        reveal_strlit("noHref");
        reveal_strlit("nohref");
        assert("noHref"@.len() != "className"@.len());
        assert("noHref"@ != "className"@);
        assert("noHref"@.len() != "htmlFor"@.len());
        assert("noHref"@ != "htmlFor"@);
        assert("noHref"@.len() != "httpEquiv"@.len());
        assert("noHref"@ != "httpEquiv"@);
        assert("noHref"@.len() != "acceptCharset"@.len());
        assert("noHref"@ != "acceptCharset"@);
        assert("noHref"@.len() != "xmlnsXLink"@.len());
        assert("noHref"@ != "xmlnsXLink"@);
        lemma_property_lowercased("noHref"@, "nohref"@);
    }
    assert(attribute_name("noResize"@) == "noresize"@) by {
        reveal_strlit("noResize");
        reveal_strlit("noresize");
        assert("noResize"@.len() != "className"@.len());
        assert("noResize"@ != "className"@);
        assert("noResize"@.len() != "htmlFor"@.len());
        assert("noResize"@ != "htmlFor"@);
        assert("noResize"@.len() != "httpEquiv"@.len());
        assert("noResize"@ != "httpEquiv"@);
        assert("noResize"@.len() != "acceptCharset"@.len());
        assert("noResize"@ != "acceptCharset"@);
        assert("noResize"@.len() != "xmlnsXLink"@.len());
        assert("noResize"@ != "xmlnsXLink"@);
        lemma_property_lowercased("noResize"@, "noresize"@);
    }
    assert(attribute_name("noShade"@) == "noshade"@) by {
        reveal_strlit("noShade");
        reveal_strlit("noshade");
        assert("noShade"@.len() != "className"@.len());
        assert("noShade"@ != "className"@);
        assert("noShade"@[0] != "htmlFor"@[0]);
        assert("noShade"@ != "htmlFor"@);
        assert("noShade"@.len() != "httpEquiv"@.len());
        assert("noShade"@ != "httpEquiv"@);
        assert("noShade"@.len() != "acceptCharset"@.len());
        assert("noShade"@ != "acceptCharset"@);
        assert("noShade"@.len() != "xmlnsXLink"@.len());
        assert("noShade"@ != "xmlnsXLink"@);
        lemma_property_lowercased("noShade"@, "noshade"@);
    }
    assert(attribute_name("noWrap"@) == "nowrap"@) by {
        reveal_strlit("noWrap");
        reveal_strlit("nowrap");
        assert("noWrap"@.len() != "className"@.len());
        assert("noWrap"@ != "className"@);
        assert("noWrap"@.len() != "htmlFor"@.len());
        assert("noWrap"@ != "htmlFor"@);
        assert("noWrap"@.len() != "httpEquiv"@.len());
        assert("noWrap"@ != "httpEquiv"@);
        assert("noWrap"@.len() != "acceptCharset"@.len());
        assert("noWrap"@ != "acceptCharset"@);
        assert("noWrap"@.len() != "xmlnsXLink"@.len());
        assert("noWrap"@ != "xmlnsXLink"@);
        lemma_property_lowercased("noWrap"@, "nowrap"@);
    }
}

proof fn lemma_html_properties_5()
    ensures
        attribute_name("rightMargin"@) == "rightmargin"@,
        attribute_name("topMargin"@) == "topmargin"@,
        attribute_name("vAlign"@) == "valign"@,
        attribute_name("vLink"@) == "vlink"@,
        attribute_name("vSpace"@) == "vspace"@,
        attribute_name("valueType"@) == "valuetype"@,
        attribute_name("allowTransparency"@) == "allowtransparency"@,
        attribute_name("autoCorrect"@) == "autocorrect"@,
        attribute_name("autoSave"@) == "autosave"@,
        attribute_name("disablePictureInPicture"@) == "disablepictureinpicture"@,
        attribute_name("disableRemotePlayback"@) == "disableremoteplayback"@,
{
    reveal_strlit("className");
    reveal_strlit("htmlFor");
    reveal_strlit("httpEquiv");
    reveal_strlit("acceptCharset");
    reveal_strlit("xmlnsXLink");
    assert(attribute_name("rightMargin"@) == "rightmargin"@) by {
        reveal_strlit("rightMargin");
        reveal_strlit("rightmargin");
        assert("rightMargin"@.len() != "className"@.len());
        assert("rightMargin"@ != "className"@);
        assert("rightMargin"@.len() != "htmlFor"@.len());
        assert("rightMargin"@ != "htmlFor"@);
        assert("rightMargin"@.len() != "httpEquiv"@.len());
        assert("rightMargin"@ != "httpEquiv"@);
        assert("rightMargin"@.len() != "acceptCharset"@.len());
        assert("rightMargin"@ != "acceptCharset"@);
        assert("rightMargin"@.len() != "xmlnsXLink"@.len());
        assert("rightMargin"@ != "xmlnsXLink"@);
        lemma_property_lowercased("rightMargin"@, "rightmargin"@);
    }
    assert(attribute_name("topMargin"@) == "topmargin"@) by {
        reveal_strlit("topMargin");
        reveal_strlit("topmargin");
        assert("topMargin"@[0] != "className"@[0]);
        assert("topMargin"@ != "className"@);
        assert("topMargin"@.len() != "htmlFor"@.len());
        assert("topMargin"@ != "htmlFor"@);
        assert("topMargin"@[0] != "httpEquiv"@[0]);
        assert("topMargin"@ != "httpEquiv"@);
        assert("topMargin"@.len() != "acceptCharset"@.len());
        assert("topMargin"@ != "acceptCharset"@);
        assert("topMargin"@.len() != "xmlnsXLink"@.len());
        assert("topMargin"@ != "xmlnsXLink"@);
        lemma_property_lowercased("topMargin"@, "topmargin"@);
    }
    assert(attribute_name("vAlign"@) == "valign"@) by {
        reveal_strlit("vAlign");
        reveal_strlit("valign");
        assert("vAlign"@.len() != "className"@.len());
        assert("vAlign"@ != "className"@);
        assert("vAlign"@.len() != "htmlFor"@.len());
        assert("vAlign"@ != "htmlFor"@);
        assert("vAlign"@.len() != "httpEquiv"@.len());
        assert("vAlign"@ != "httpEquiv"@);
        assert("vAlign"@.len() != "acceptCharset"@.len());
        assert("vAlign"@ != "acceptCharset"@);
        assert("vAlign"@.len() != "xmlnsXLink"@.len());
        assert("vAlign"@ != "xmlnsXLink"@);
        lemma_property_lowercased("vAlign"@, "valign"@);
    }
    assert(attribute_name("vLink"@) == "vlink"@) by {
        reveal_strlit("vLink");
        reveal_strlit("vlink");
        assert("vLink"@.len() != "className"@.len());
        assert("vLink"@ != "className"@);
        assert("vLink"@.len() != "htmlFor"@.len());
        assert("vLink"@ != "htmlFor"@);
        assert("vLink"@.len() != "httpEquiv"@.len());
        assert("vLink"@ != "httpEquiv"@);
        assert("vLink"@.len() != "acceptCharset"@.len());
        assert("vLink"@ != "acceptCharset"@);
        assert("vLink"@.len() != "xmlnsXLink"@.len());
        assert("vLink"@ != "xmlnsXLink"@);
        lemma_property_lowercased("vLink"@, "vlink"@);
    }
    assert(attribute_name("vSpace"@) == "vspace"@) by {
        reveal_strlit("vSpace");
        reveal_strlit("vspace");
        assert("vSpace"@.len() != "className"@.len());
        assert("vSpace"@ != "className"@);
        assert("vSpace"@.len() != "htmlFor"@.len());
        assert("vSpace"@ != "htmlFor"@);
        assert("vSpace"@.len() != "httpEquiv"@.len());
        assert("vSpace"@ != "httpEquiv"@);
        assert("vSpace"@.len() != "acceptCharset"@.len());
        assert("vSpace"@ != "acceptCharset"@);
        assert("vSpace"@.len() != "xmlnsXLink"@.len());
        assert("vSpace"@ != "xmlnsXLink"@);
        lemma_property_lowercased("vSpace"@, "vspace"@);
    }
    assert(attribute_name("valueType"@) == "valuetype"@) by {
        reveal_strlit("valueType");
        reveal_strlit("valuetype");
        assert("valueType"@[0] != "className"@[0]);
        assert("valueType"@ != "className"@);
        assert("valueType"@.len() != "htmlFor"@.len());
        assert("valueType"@ != "htmlFor"@);
        assert("valueType"@[0] != "httpEquiv"@[0]);
        assert("valueType"@ != "httpEquiv"@);
        assert("valueType"@.len() != "acceptCharset"@.len());
        assert("valueType"@ != "acceptCharset"@);
        assert("valueType"@.len() != "xmlnsXLink"@.len());
        assert("valueType"@ != "xmlnsXLink"@);
        lemma_property_lowercased("valueType"@, "valuetype"@);
    }
    assert(attribute_name("allowTransparency"@) == "allowtransparency"@) by {
        reveal_strlit("allowTransparency");
        reveal_strlit("allowtransparency");
        assert("allowTransparency"@.len() != "className"@.len());
        assert("allowTransparency"@ != "className"@);
        assert("allowTransparency"@.len() != "htmlFor"@.len());
        assert("allowTransparency"@ != "htmlFor"@);
        assert("allowTransparency"@.len() != "httpEquiv"@.len());
        assert("allowTransparency"@ != "httpEquiv"@);
        assert("allowTransparency"@.len() != "acceptCharset"@.len());
        assert("allowTransparency"@ != "acceptCharset"@);
        assert("allowTransparency"@.len() != "xmlnsXLink"@.len());
        assert("allowTransparency"@ != "xmlnsXLink"@);
        lemma_property_lowercased("allowTransparency"@, "allowtransparency"@);
    }
    assert(attribute_name("autoCorrect"@) == "autocorrect"@) by {
        reveal_strlit("autoCorrect");
        reveal_strlit("autocorrect");
        assert("autoCorrect"@.len() != "className"@.len());
        assert("autoCorrect"@ != "className"@);
        assert("autoCorrect"@.len() != "htmlFor"@.len());
        assert("autoCorrect"@ != "htmlFor"@);
        assert("autoCorrect"@.len() != "httpEquiv"@.len());
        assert("autoCorrect"@ != "httpEquiv"@);
        assert("autoCorrect"@.len() != "acceptCharset"@.len());
        assert("autoCorrect"@ != "acceptCharset"@);
        assert("autoCorrect"@.len() != "xmlnsXLink"@.len());
        assert("autoCorrect"@ != "xmlnsXLink"@);
        lemma_property_lowercased("autoCorrect"@, "autocorrect"@);
    }
    assert(attribute_name("autoSave"@) == "autosave"@) by {
        reveal_strlit("autoSave");
        reveal_strlit("autosave");
        assert("autoSave"@.len() != "className"@.len());
        assert("autoSave"@ != "className"@);
        assert("autoSave"@.len() != "htmlFor"@.len());
        assert("autoSave"@ != "htmlFor"@);
        assert("autoSave"@.len() != "httpEquiv"@.len());
        assert("autoSave"@ != "httpEquiv"@);
        assert("autoSave"@.len() != "acceptCharset"@.len());
        assert("autoSave"@ != "acceptCharset"@);
        assert("autoSave"@.len() != "xmlnsXLink"@.len());
        assert("autoSave"@ != "xmlnsXLink"@);
        lemma_property_lowercased("autoSave"@, "autosave"@);
    }
    assert(attribute_name("disablePictureInPicture"@) == "disablepictureinpicture"@) by {
        reveal_strlit("disablePictureInPicture");
        reveal_strlit("disablepictureinpicture");
        assert("disablePictureInPicture"@.len() != "className"@.len());
        assert("disablePictureInPicture"@ != "className"@);
        assert("disablePictureInPicture"@.len() != "htmlFor"@.len());
        assert("disablePictureInPicture"@ != "htmlFor"@);
        assert("disablePictureInPicture"@.len() != "httpEquiv"@.len());
        assert("disablePictureInPicture"@ != "httpEquiv"@);
        assert("disablePictureInPicture"@.len() != "acceptCharset"@.len());
        assert("disablePictureInPicture"@ != "acceptCharset"@);
        assert("disablePictureInPicture"@.len() != "xmlnsXLink"@.len());
        assert("disablePictureInPicture"@ != "xmlnsXLink"@);
        lemma_property_lowercased("disablePictureInPicture"@, "disablepictureinpicture"@);
    }
    assert(attribute_name("disableRemotePlayback"@) == "disableremoteplayback"@) by {
        reveal_strlit("disableRemotePlayback");
        reveal_strlit("disableremoteplayback");
        assert("disableRemotePlayback"@.len() != "className"@.len());
        assert("disableRemotePlayback"@ != "className"@);
        assert("disableRemotePlayback"@.len() != "htmlFor"@.len());
        assert("disableRemotePlayback"@ != "htmlFor"@);
        assert("disableRemotePlayback"@.len() != "httpEquiv"@.len());
        assert("disableRemotePlayback"@ != "httpEquiv"@);
        assert("disableRemotePlayback"@.len() != "acceptCharset"@.len());
        assert("disableRemotePlayback"@ != "acceptCharset"@);
        assert("disableRemotePlayback"@.len() != "xmlnsXLink"@.len());
        assert("disableRemotePlayback"@ != "xmlnsXLink"@);
        lemma_property_lowercased("disableRemotePlayback"@, "disableremoteplayback"@);
    }
}

/// The HTML properties written in camel case whose attribute is their
/// ASCII lowercase (`tabIndex` to `tabindex`, `readOnly` to `readonly`, and
/// the others listed here) map to it.
pub proof fn law_html_property_attributes_are_lowercase()
    ensures
        attribute_name("accessKey"@) == "accesskey"@,
        attribute_name("allowFullScreen"@) == "allowfullscreen"@,
        attribute_name("allowPaymentRequest"@) == "allowpaymentrequest"@,
        attribute_name("allowUserMedia"@) == "allowusermedia"@,
        attribute_name("autoCapitalize"@) == "autocapitalize"@,
        attribute_name("autoComplete"@) == "autocomplete"@,
        attribute_name("autoFocus"@) == "autofocus"@,
        attribute_name("autoPlay"@) == "autoplay"@,
        attribute_name("charSet"@) == "charset"@,
        attribute_name("colSpan"@) == "colspan"@,
        attribute_name("contentEditable"@) == "contenteditable"@,
        attribute_name("controlsList"@) == "controlslist"@,
        attribute_name("crossOrigin"@) == "crossorigin"@,
        attribute_name("dateTime"@) == "datetime"@,
        attribute_name("dirName"@) == "dirname"@,
        attribute_name("encType"@) == "enctype"@,
        attribute_name("enterKeyHint"@) == "enterkeyhint"@,
        attribute_name("fetchPriority"@) == "fetchpriority"@,
        attribute_name("formAction"@) == "formaction"@,
        attribute_name("formEncType"@) == "formenctype"@,
        attribute_name("formMethod"@) == "formmethod"@,
        attribute_name("formNoValidate"@) == "formnovalidate"@,
        attribute_name("formTarget"@) == "formtarget"@,
        attribute_name("hrefLang"@) == "hreflang"@,
        attribute_name("imageSizes"@) == "imagesizes"@,
        attribute_name("imageSrcSet"@) == "imagesrcset"@,
        attribute_name("inputMode"@) == "inputmode"@,
        attribute_name("isMap"@) == "ismap"@,
        attribute_name("itemId"@) == "itemid"@,
        attribute_name("itemProp"@) == "itemprop"@,
        attribute_name("itemRef"@) == "itemref"@,
        attribute_name("itemScope"@) == "itemscope"@,
        attribute_name("itemType"@) == "itemtype"@,
        attribute_name("maxLength"@) == "maxlength"@,
        attribute_name("minLength"@) == "minlength"@,
        attribute_name("noModule"@) == "nomodule"@,
        attribute_name("noValidate"@) == "novalidate"@,
        attribute_name("playsInline"@) == "playsinline"@,
        attribute_name("popoverTarget"@) == "popovertarget"@,
        attribute_name("popoverTargetAction"@) == "popovertargetaction"@,
        attribute_name("readOnly"@) == "readonly"@,
        attribute_name("referrerPolicy"@) == "referrerpolicy"@,
        attribute_name("rowSpan"@) == "rowspan"@,
        attribute_name("shadowRootClonable"@) == "shadowrootclonable"@,
        attribute_name("shadowRootDelegatesFocus"@) == "shadowrootdelegatesfocus"@,
        attribute_name("shadowRootMode"@) == "shadowrootmode"@,
        attribute_name("spellCheck"@) == "spellcheck"@,
        attribute_name("srcDoc"@) == "srcdoc"@,
        attribute_name("srcLang"@) == "srclang"@,
        attribute_name("srcSet"@) == "srcset"@,
        attribute_name("tabIndex"@) == "tabindex"@,
        attribute_name("typeMustMatch"@) == "typemustmatch"@,
        attribute_name("useMap"@) == "usemap"@,
        attribute_name("writingSuggestions"@) == "writingsuggestions"@,
        attribute_name("aLink"@) == "alink"@,
        attribute_name("bgColor"@) == "bgcolor"@,
        attribute_name("borderColor"@) == "bordercolor"@,
        attribute_name("bottomMargin"@) == "bottommargin"@,
        attribute_name("cellPadding"@) == "cellpadding"@,
        attribute_name("cellSpacing"@) == "cellspacing"@,
        attribute_name("charOff"@) == "charoff"@,
        attribute_name("classId"@) == "classid"@,
        attribute_name("codeBase"@) == "codebase"@,
        attribute_name("codeType"@) == "codetype"@,
        attribute_name("frameBorder"@) == "frameborder"@,
        attribute_name("hSpace"@) == "hspace"@,
        attribute_name("leftMargin"@) == "leftmargin"@,
        attribute_name("longDesc"@) == "longdesc"@,
        attribute_name("lowSrc"@) == "lowsrc"@,
        attribute_name("marginHeight"@) == "marginheight"@,
        attribute_name("marginWidth"@) == "marginwidth"@,
        attribute_name("noHref"@) == "nohref"@,
        attribute_name("noResize"@) == "noresize"@,
        attribute_name("noShade"@) == "noshade"@,
        attribute_name("noWrap"@) == "nowrap"@,
        attribute_name("rightMargin"@) == "rightmargin"@,
        attribute_name("topMargin"@) == "topmargin"@,
        attribute_name("vAlign"@) == "valign"@,
        attribute_name("vLink"@) == "vlink"@,
        attribute_name("vSpace"@) == "vspace"@,
        attribute_name("valueType"@) == "valuetype"@,
        attribute_name("allowTransparency"@) == "allowtransparency"@,
        attribute_name("autoCorrect"@) == "autocorrect"@,
        attribute_name("autoSave"@) == "autosave"@,
        attribute_name("disablePictureInPicture"@) == "disablepictureinpicture"@,
        attribute_name("disableRemotePlayback"@) == "disableremoteplayback"@,
{
    lemma_html_properties_0();
    lemma_html_properties_1();
    lemma_html_properties_2();
    lemma_html_properties_3();
    lemma_html_properties_4();
    lemma_html_properties_5();
}

/// The special cases: `className` is `class`, `htmlFor` is `for`,
/// `httpEquiv` is `http-equiv`, `acceptCharset` is `accept-charset` and
/// `xmlnsXLink` is `xmlns:xlink`.
pub proof fn law_special_property_attributes()
    ensures
        attribute_name("className"@) == "class"@,
        attribute_name("htmlFor"@) == "for"@,
        attribute_name("httpEquiv"@) == "http-equiv"@,
        attribute_name("acceptCharset"@) == "accept-charset"@,
        attribute_name("xmlnsXLink"@) == "xmlns:xlink"@,
{
    reveal_strlit("className");
    reveal_strlit("htmlFor");
    reveal_strlit("httpEquiv");
    reveal_strlit("acceptCharset");
    reveal_strlit("xmlnsXLink");
    assert("htmlFor"@.len() != "className"@.len());
    assert("htmlFor"@ != "className"@);
    assert("httpEquiv"@[0] != "className"@[0]);
    assert("httpEquiv"@ != "className"@);
    assert("httpEquiv"@.len() != "htmlFor"@.len());
    assert("httpEquiv"@ != "htmlFor"@);
    assert("acceptCharset"@.len() != "className"@.len());
    assert("acceptCharset"@ != "className"@);
    assert("acceptCharset"@.len() != "htmlFor"@.len());
    assert("acceptCharset"@ != "htmlFor"@);
    assert("acceptCharset"@.len() != "httpEquiv"@.len());
    assert("acceptCharset"@ != "httpEquiv"@);
    assert("xmlnsXLink"@.len() != "className"@.len());
    assert("xmlnsXLink"@ != "className"@);
    assert("xmlnsXLink"@.len() != "htmlFor"@.len());
    assert("xmlnsXLink"@ != "htmlFor"@);
    assert("xmlnsXLink"@.len() != "httpEquiv"@.len());
    assert("xmlnsXLink"@ != "httpEquiv"@);
    assert("xmlnsXLink"@.len() != "acceptCharset"@.len());
    assert("xmlnsXLink"@ != "acceptCharset"@);
}

} // verus!
