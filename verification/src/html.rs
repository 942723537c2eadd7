//! HTML rendering of a HAST tree stored as a raw arena buffer.
use vstd::prelude::*;
use vstd::string::*;
use crate::arena::Arena;
use crate::codec::{
    decode_element_prop, decode_element_prop_count, decode_element_tag, decode_text_data,
    read_le32, read_prop, read_ref, HAST_COMMENT, HAST_DOCTYPE, HAST_ELEMENT, HAST_RAW, HAST_ROOT,
    HAST_TEXT, PROP_BOOL_FALSE, PROP_BOOL_TRUE, PROP_COMMA_SEP, PROP_SPACE_SEP, PROP_STRING,
};
use crate::node::StringRef;
use crate::raw_buffer::{
    buffer_error, buffer_nodes, buffer_str, buffer_str_ok, children_in_buffer, data_in_buffer,
    hdr_node_count, node_children, node_data, BufferError, MdastView,
};
use crate::text::{push_char, str_eq};

verus! {

/// The HTML void elements (no children, no closing tag).
pub open spec fn is_void_tag(t: Seq<char>) -> bool {
    ||| t == "area"@
    ||| t == "base"@
    ||| t == "br"@
    ||| t == "col"@
    ||| t == "embed"@
    ||| t == "hr"@
    ||| t == "img"@
    ||| t == "input"@
    ||| t == "link"@
    ||| t == "meta"@
    ||| t == "param"@
    ||| t == "source"@
    ||| t == "track"@
    ||| t == "wbr"@
}

/// Each character with `f` applied, concatenated.
pub open spec fn flat_map(s: Seq<char>, f: spec_fn(char) -> Seq<char>) -> Seq<char>
    decreases s.len(),
{
    if s.len() == 0 {
        Seq::empty()
    } else {
        flat_map(s.drop_last(), f) + f(s.last())
    }
}

/// How text content escapes a character.
pub open spec fn escape_text_char(c: char) -> Seq<char> {
    if c == '&' {
        "&amp;"@
    } else if c == '<' {
        "&lt;"@
    } else if c == '>' {
        "&gt;"@
    } else {
        seq![c]
    }
}

/// How an attribute value escapes a character.
pub open spec fn escape_attr_char(c: char) -> Seq<char> {
    if c == '&' {
        "&amp;"@
    } else if c == '"' {
        "&quot;"@
    } else {
        seq![c]
    }
}

/// Escaped text content.
pub open spec fn escape_text_spec(s: Seq<char>) -> Seq<char> {
    flat_map(s, |c: char| escape_text_char(c))
}

/// How text content escapes a character in the self-closing style, which
/// also writes `"` as `&quot;`.
pub open spec fn escape_text_quote_char(c: char) -> Seq<char> {
    if c == '"' {
        "&quot;"@
    } else {
        escape_text_char(c)
    }
}

/// Escaped text content in the self-closing style (`&`, `<`, `>`, `"`).
pub open spec fn escape_text_quote_spec(s: Seq<char>) -> Seq<char> {
    flat_map(s, |c: char| escape_text_quote_char(c))
}

/// Escaped attribute value.
pub open spec fn escape_attr_spec(s: Seq<char>) -> Seq<char> {
    flat_map(s, |c: char| escape_attr_char(c))
}

/// The attribute text of one property entry.
pub open spec fn prop_html(b: Seq<u8>, p: (StringRef, u8, StringRef)) -> Seq<char> {
    let name = buffer_str(b, p.0);
    if p.1 == PROP_BOOL_TRUE {
        " "@ + name
    } else if p.1 == PROP_STRING || p.1 == PROP_SPACE_SEP || p.1 == PROP_COMMA_SEP {
        " "@ + name + "=\""@ + escape_attr_spec(buffer_str(b, p.2)) + "\""@
    } else {
        Seq::empty()
    }
}

/// The attribute text of the first `k` property entries of element data.
pub open spec fn props_html(b: Seq<u8>, data: Seq<u8>, k: nat) -> Seq<char>
    decreases k,
{
    if k == 0 {
        Seq::empty()
    } else {
        props_html(b, data, (k - 1) as nat) + prop_html(b, read_prop(data, k - 1))
    }
}

/// Property entry `i` lies in the data and its strings can be read.
pub open spec fn prop_ok(b: Seq<u8>, data: Seq<u8>, i: int) -> bool {
    let p = read_prop(data, i);
    &&& 16 + 20 * i + 20 <= data.len()
    &&& buffer_str_ok(b, p.0)
    &&& (p.1 == PROP_STRING || p.1 == PROP_SPACE_SEP || p.1 == PROP_COMMA_SEP) ==> buffer_str_ok(b, p.2)
}

/// The first `k` property entries are fine.
pub open spec fn props_ok(b: Seq<u8>, data: Seq<u8>, k: nat) -> bool {
    forall|i: int| 0 <= i < k ==> #[trigger] prop_ok(b, data, i)
}

/// The HTML of node `id`, descending at most `fuel` levels; in the
/// self-closing style (`xhtml`) void elements end in ` />` and text also
/// escapes `"`, else void elements end in `>`.
pub open spec fn node_html(b: Seq<u8>, id: int, fuel: nat, xhtml: bool) -> Seq<char>
    decreases fuel, 0nat,
{
    if fuel == 0 {
        Seq::empty()
    } else {
        let n = buffer_nodes(b)[id];
        let t = n.node_type;
        let kids = node_children(b, n);
        let data = node_data(b, n);
        if t == HAST_ROOT {
            children_html(b, kids, (fuel - 1) as nat, xhtml)
        } else if t == HAST_ELEMENT {
            if data.len() < 16 {
                Seq::empty()
            } else {
                let tag = buffer_str(b, read_ref(data, 0));
                let open = "<"@ + tag + props_html(b, data, read_le32(data, 8) as nat);
                if is_void_tag(tag) {
                    open + if xhtml {
                        " />"@
                    } else {
                        ">"@
                    }
                } else {
                    open + ">"@ + children_html(b, kids, (fuel - 1) as nat, xhtml) + "</"@ + tag
                        + ">"@
                }
            }
        } else if t == HAST_TEXT {
            if data.len() >= 8 {
                if xhtml {
                    escape_text_quote_spec(buffer_str(b, read_ref(data, 0)))
                } else {
                    escape_text_spec(buffer_str(b, read_ref(data, 0)))
                }
            } else {
                Seq::empty()
            }
        } else if t == HAST_COMMENT {
            if data.len() >= 8 {
                "<!--"@ + buffer_str(b, read_ref(data, 0)) + "-->"@
            } else {
                Seq::empty()
            }
        } else if t == HAST_DOCTYPE {
            "<!doctype html>"@
        } else if t == HAST_RAW {
            if data.len() >= 8 {
                buffer_str(b, read_ref(data, 0))
            } else {
                Seq::empty()
            }
        } else {
            children_html(b, kids, (fuel - 1) as nat, xhtml)
        }
    }
}

/// The HTML of a list of nodes, one after the other.
pub open spec fn children_html(b: Seq<u8>, kids: Seq<u32>, fuel: nat, xhtml: bool) -> Seq<char>
    decreases fuel, kids.len() + 1,
{
    if kids.len() == 0 {
        Seq::empty()
    } else {
        children_html(b, kids.drop_last(), fuel, xhtml) + node_html(b, kids.last() as int, fuel, xhtml)
    }
}

/// Rendering node `id` with `fuel` reads only what lies in the buffer.
pub open spec fn node_ok(b: Seq<u8>, id: int, fuel: nat) -> bool
    decreases fuel, 0nat,
{
    &&& 0 <= id < hdr_node_count(b)
    &&& fuel > 0 ==> {
        let n = buffer_nodes(b)[id];
        let t = n.node_type;
        let kids = node_children(b, n);
        let data = node_data(b, n);
        if t == HAST_ELEMENT {
            &&& data_in_buffer(b, n)
            &&& data.len() >= 16 ==> {
                let tag = buffer_str(b, read_ref(data, 0));
                &&& buffer_str_ok(b, read_ref(data, 0))
                &&& props_ok(b, data, read_le32(data, 8) as nat)
                &&& !is_void_tag(tag) ==> children_in_buffer(b, n) && children_ok(
                    b,
                    kids,
                    (fuel - 1) as nat,
                )
            }
        } else if t == HAST_TEXT || t == HAST_COMMENT || t == HAST_RAW {
            &&& data_in_buffer(b, n)
            &&& data.len() >= 8 ==> buffer_str_ok(b, read_ref(data, 0))
        } else if t == HAST_DOCTYPE {
            true
        } else {
            children_in_buffer(b, n) && children_ok(b, kids, (fuel - 1) as nat)
        }
    }
}

/// Rendering each node of a list reads only what lies in the buffer.
pub open spec fn children_ok(b: Seq<u8>, kids: Seq<u32>, fuel: nat) -> bool
    decreases fuel, kids.len() + 1,
{
    if kids.len() == 0 {
        true
    } else {
        children_ok(b, kids.drop_last(), fuel) && node_ok(b, kids.last() as int, fuel)
    }
}

/// The buffer is a valid arena buffer whose HAST tree renders without
/// reading outside it.
pub open spec fn hast_buffer_ok(b: Seq<u8>) -> bool {
    buffer_error(b) is None ==> node_ok(b, 0, hdr_node_count(b) as nat)
}

/// The HTML of a HAST buffer, void elements ending in `>`.
pub open spec fn hast_buffer_html(b: Seq<u8>) -> Seq<char> {
    node_html(b, 0, hdr_node_count(b) as nat, false)
}

/// The HTML of a HAST buffer in the self-closing style: void elements end
/// in ` />` and text escapes `"` too.
pub open spec fn hast_buffer_xhtml(b: Seq<u8>) -> Seq<char> {
    node_html(b, 0, hdr_node_count(b) as nat, true)
}

/// Whether the tag names an HTML void element.
pub fn is_void(tag: &str) -> (r: bool)
    ensures
        r == is_void_tag(tag@),
{
    str_eq(tag, "area") || str_eq(tag, "base") || str_eq(tag, "br") || str_eq(tag, "col")
        || str_eq(tag, "embed") || str_eq(tag, "hr") || str_eq(tag, "img") || str_eq(tag, "input")
        || str_eq(tag, "link") || str_eq(tag, "meta") || str_eq(tag, "param") || str_eq(tag, "source")
        || str_eq(tag, "track") || str_eq(tag, "wbr")
}

/// Escape text content for HTML (`&`, `<`, `>`).
pub fn escape_text(s: &str) -> (r: String)
    ensures
        r@ == escape_text_spec(s@),
{
    let mut out = String::new();
    for c in it: s.chars()
        invariant
            out@ == escape_text_spec(it.seq().subrange(0, it.index() as int)),
            it.seq() == s@,
    {
        let ghost i0 = it.index();
        let ghost pre = it.seq().subrange(0, i0 as int);
        assert(it.seq()[i0 as int] == c);
        assert(it.seq().subrange(0, i0 + 1).drop_last() =~= pre);
        if c == '&' {
            out.append("&amp;");
        } else if c == '<' {
            out.append("&lt;");
        } else if c == '>' {
            out.append("&gt;");
        } else {
            push_char(&mut out, c);
        }
    }
    assert(s@.subrange(0, s@.len() as int) =~= s@);
    out
}

/// Escape text content in the self-closing style (`&`, `<`, `>`, `"`).
pub fn escape_text_quote(s: &str) -> (r: String)
    ensures
        r@ == escape_text_quote_spec(s@),
{
    let mut out = String::new();
    for c in it: s.chars()
        invariant
            out@ == escape_text_quote_spec(it.seq().subrange(0, it.index() as int)),
            it.seq() == s@,
    {
        let ghost i0 = it.index();
        let ghost pre = it.seq().subrange(0, i0 as int);
        assert(it.seq()[i0 as int] == c);
        assert(it.seq().subrange(0, i0 + 1).drop_last() =~= pre);
        if c == '&' {
            out.append("&amp;");
        } else if c == '<' {
            out.append("&lt;");
        } else if c == '>' {
            out.append("&gt;");
        } else if c == '"' {
            out.append("&quot;");
        } else {
            push_char(&mut out, c);
        }
    }
    assert(s@.subrange(0, s@.len() as int) =~= s@);
    out
}

/// Escape an attribute value for HTML (`&`, `"`).
pub fn escape_attr(s: &str) -> (r: String)
    ensures
        r@ == escape_attr_spec(s@),
{
    let mut out = String::new();
    for c in it: s.chars()
        invariant
            out@ == escape_attr_spec(it.seq().subrange(0, it.index() as int)),
            it.seq() == s@,
    {
        let ghost i0 = it.index();
        let ghost pre = it.seq().subrange(0, i0 as int);
        assert(it.seq()[i0 as int] == c);
        assert(it.seq().subrange(0, i0 + 1).drop_last() =~= pre);
        if c == '&' {
            out.append("&amp;");
        } else if c == '"' {
            out.append("&quot;");
        } else {
            push_char(&mut out, c);
        }
    }
    assert(s@.subrange(0, s@.len() as int) =~= s@);
    out
}

/// Append the attribute text of the element's properties.
fn render_props(data: &[u8], view: &MdastView, out: &mut String)
    requires
        data@.len() >= 16,
        props_ok(view.bytes(), data@, read_le32(data@, 8) as nat),
    ensures
        final(out)@ == old(out)@ + props_html(view.bytes(), data@, read_le32(data@, 8) as nat),
{
    let b = Ghost(view.bytes());
    let prop_count = decode_element_prop_count(data);
    let mut i: u32 = 0;
    while i < prop_count
        invariant
            i <= prop_count,
            prop_count == read_le32(data@, 8),
            props_ok(b@, data@, prop_count as nat),
            b@ == view.bytes(),
            out@ == old(out)@ + props_html(b@, data@, i as nat),
        decreases prop_count - i,
    {
        assert(prop_ok(b@, data@, i as int));
        let (name_ref, value_kind, value_ref) = decode_element_prop(data, i);
        let name = view.get_str(name_ref);
        if value_kind == PROP_BOOL_TRUE {
            out.append(" ");
            out.append(name);
        } else if value_kind == PROP_BOOL_FALSE {
        } else if value_kind == PROP_STRING || value_kind == PROP_SPACE_SEP
            || value_kind == PROP_COMMA_SEP {
            let value = view.get_str(value_ref);
            out.append(" ");
            out.append(name);
            out.append("=\"");
            let escaped = escape_attr(value);
            out.append(escaped.as_str());
            out.append("\"");
        }
        i = i + 1;
    }
}

/// Append the HTML of node `node_id`, descending at most `fuel` levels.
fn render_node(node_id: u32, view: &MdastView, out: &mut String, fuel: u32, xhtml: bool)
    requires
        node_ok(view.bytes(), node_id as int, fuel as nat),
    ensures
        final(out)@ == old(out)@ + node_html(view.bytes(), node_id as int, fuel as nat, xhtml),
    decreases fuel, 0nat,
{
    if fuel == 0 {
        assert(old(out)@ + Seq::<char>::empty() =~= old(out)@);
        return;
    }
    let ghost b = view.bytes();
    let node = view.get_node(node_id);
    let raw_type = node.node_type;
    if raw_type == HAST_ELEMENT {
        let data = view.get_type_data(node_id);
        if data.len() < 16 {
            assert(old(out)@ + Seq::<char>::empty() =~= old(out)@);
            return;
        }
        let tag_ref = decode_element_tag(data);
        let tag = view.get_str(tag_ref);
        out.append("<");
        out.append(tag);
        render_props(data, view, out);
        if is_void(tag) {
            if xhtml {
                out.append(" />");
            } else {
                out.append(">");
            }
        } else {
            out.append(">");
            render_children(node_id, view, out, fuel - 1, xhtml);
            out.append("</");
            out.append(tag);
            out.append(">");
        }
    } else if raw_type == HAST_TEXT {
        let data = view.get_type_data(node_id);
        if data.len() >= 8 {
            let sr = decode_text_data(data);
            let text = view.get_str(sr);
            let escaped = if xhtml {
                escape_text_quote(text)
            } else {
                escape_text(text)
            };
            out.append(escaped.as_str());
        } else {
            assert(old(out)@ + Seq::<char>::empty() =~= old(out)@);
        }
    } else if raw_type == HAST_COMMENT {
        let data = view.get_type_data(node_id);
        if data.len() >= 8 {
            let sr = decode_text_data(data);
            let text = view.get_str(sr);
            out.append("<!--");
            out.append(text);
            out.append("-->");
        } else {
            assert(old(out)@ + Seq::<char>::empty() =~= old(out)@);
        }
    } else if raw_type == HAST_DOCTYPE {
        out.append("<!doctype html>");
    } else if raw_type == HAST_RAW {
        let data = view.get_type_data(node_id);
        if data.len() >= 8 {
            let sr = decode_text_data(data);
            let html = view.get_str(sr);
            out.append(html);
        } else {
            assert(old(out)@ + Seq::<char>::empty() =~= old(out)@);
        }
    } else {
        render_children(node_id, view, out, fuel - 1, xhtml);
    }
}

/// Append the HTML of every child of `node_id`, in order.
fn render_children(node_id: u32, view: &MdastView, out: &mut String, fuel: u32, xhtml: bool)
    requires
        view.children_ok(node_id),
        children_ok(view.bytes(), view.children_spec(node_id), fuel as nat),
    ensures
        final(out)@ == old(out)@ + children_html(
            view.bytes(),
            view.children_spec(node_id),
            fuel as nat,
            xhtml,
        ),
    decreases fuel, 1nat,
{
    let kids = view.get_children(node_id);
    let ghost b = view.bytes();
    let mut k: usize = 0;
    while k < kids.len()
        invariant
            k <= kids@.len(),
            b == view.bytes(),
            kids@ == view.children_spec(node_id),
            children_ok(b, kids@, fuel as nat),
            out@ == old(out)@ + children_html(b, kids@.subrange(0, k as int), fuel as nat, xhtml),
        decreases kids@.len() - k,
    {
        let ghost pre = out@;
        proof {
            lemma_children_ok_prefix(b, kids@, fuel as nat, k as int + 1);
            assert(kids@.subrange(0, k + 1).drop_last() =~= kids@.subrange(0, k as int));
        }
        render_node(kids[k], view, out, fuel, xhtml);
        k = k + 1;
    }
    assert(kids@.subrange(0, k as int) =~= kids@);
}

/// Every prefix of a fine list is fine, and so is its last node.
proof fn lemma_children_ok_prefix(b: Seq<u8>, kids: Seq<u32>, fuel: nat, m: int)
    requires
        children_ok(b, kids, fuel),
        0 < m <= kids.len(),
    ensures
        children_ok(b, kids.subrange(0, m), fuel),
        node_ok(b, kids[m - 1] as int, fuel),
    decreases kids.len(),
{
    if m == kids.len() {
        assert(kids.subrange(0, m) =~= kids);
    } else {
        lemma_children_ok_prefix(b, kids.drop_last(), fuel, m);
        assert(kids.drop_last().subrange(0, m) =~= kids.subrange(0, m));
    }
}

/// Whether the first `count` property entries are fine.
fn check_props(data: &[u8], view: &MdastView, count: u32) -> (r: bool)
    ensures
        r == props_ok(view.bytes(), data@, count as nat),
{
    let ghost b = view.bytes();
    let mut i: u32 = 0;
    while i < count
        invariant
            i <= count,
            b == view.bytes(),
            props_ok(b, data@, i as nat),
        decreases count - i,
    {
        let base = 16 + 20 * (i as u64);
        if base + 20 > data.len() as u64 {
            assert(!prop_ok(b, data@, i as int));
            return false;
        }
        let (name_ref, value_kind, value_ref) = decode_element_prop(data, i);
        if !view.str_fits(name_ref) {
            assert(!prop_ok(b, data@, i as int));
            return false;
        }
        if (value_kind == PROP_STRING || value_kind == PROP_SPACE_SEP || value_kind == PROP_COMMA_SEP)
            && !view.str_fits(value_ref) {
            assert(!prop_ok(b, data@, i as int));
            return false;
        }
        assert(prop_ok(b, data@, i as int));
        i = i + 1;
    }
    true
}

/// Whether rendering node `node_id` with `fuel` reads only what lies in the buffer.
fn check_node(node_id: u32, view: &MdastView, fuel: u32) -> (r: bool)
    ensures
        r == node_ok(view.bytes(), node_id as int, fuel as nat),
    decreases fuel, 0nat,
{
    if node_id >= view.node_count() {
        return false;
    }
    if fuel == 0 {
        return true;
    }
    let node = view.get_node(node_id);
    let raw_type = node.node_type;
    if raw_type == HAST_ELEMENT {
        if !view.data_fits(node_id) {
            return false;
        }
        let data = view.get_type_data(node_id);
        if data.len() < 16 {
            return true;
        }
        let tag_ref = decode_element_tag(data);
        if !view.str_fits(tag_ref) {
            return false;
        }
        let count = decode_element_prop_count(data);
        if !check_props(data, view, count) {
            return false;
        }
        let tag = view.get_str(tag_ref);
        if is_void(tag) {
            return true;
        }
        if !view.children_fit(node_id) {
            return false;
        }
        check_children(node_id, view, fuel - 1)
    } else if raw_type == HAST_TEXT || raw_type == HAST_COMMENT || raw_type == HAST_RAW {
        if !view.data_fits(node_id) {
            return false;
        }
        let data = view.get_type_data(node_id);
        if data.len() < 8 {
            return true;
        }
        view.str_fits(decode_text_data(data))
    } else if raw_type == HAST_DOCTYPE {
        true
    } else {
        if !view.children_fit(node_id) {
            return false;
        }
        check_children(node_id, view, fuel - 1)
    }
}

/// Whether every child of `node_id` is fine.
fn check_children(node_id: u32, view: &MdastView, fuel: u32) -> (r: bool)
    requires
        view.children_ok(node_id),
    ensures
        r == children_ok(view.bytes(), view.children_spec(node_id), fuel as nat),
    decreases fuel, 1nat,
{
    let kids = view.get_children(node_id);
    let ghost b = view.bytes();
    let mut k: usize = 0;
    while k < kids.len()
        invariant
            k <= kids@.len(),
            b == view.bytes(),
            kids@ == view.children_spec(node_id),
            children_ok(b, kids@.subrange(0, k as int), fuel as nat),
        decreases kids@.len() - k,
    {
        let ok = check_node(kids[k], view, fuel);
        proof {
            assert(kids@.subrange(0, k + 1).drop_last() =~= kids@.subrange(0, k as int));
        }
        if !ok {
            proof {
                lemma_children_ok_fails(b, kids@, fuel as nat, k as int);
            }
            return false;
        }
        k = k + 1;
    }
    assert(kids@.subrange(0, k as int) =~= kids@);
    true
}

/// A list with a failing node fails.
proof fn lemma_children_ok_fails(b: Seq<u8>, kids: Seq<u32>, fuel: nat, k: int)
    requires
        0 <= k < kids.len(),
        !node_ok(b, kids[k] as int, fuel),
    ensures
        !children_ok(b, kids, fuel),
    decreases kids.len(),
{
    if k < kids.len() - 1 {
        lemma_children_ok_fails(b, kids.drop_last(), fuel, k);
    }
}

/// Whether `hast_buffer_to_html` can render the buffer: it is not a valid
/// arena buffer (then the conversion reports the error), or its HAST tree
/// reads only what lies in it.
pub fn hast_buffer_renderable(buf: &[u8]) -> (r: bool)
    ensures
        r == hast_buffer_ok(buf@),
{
    match Arena::from_raw_buffer(buf) {
        Err(_) => true,
        Ok(view) => {
            let fuel = view.node_count();
            check_node(0, &view, fuel)
        }
    }
}

/// Convert a HAST binary buffer to an HTML string.
///
/// Rendering descends at most as many levels as the buffer has nodes; a
/// deeper descent is only possible in a buffer whose child lists form a cycle.
pub fn hast_buffer_to_html(buf: &[u8]) -> (r: Result<String, BufferError>)
    requires
        hast_buffer_ok(buf@),
    ensures
        match r {
            Ok(s) => buffer_error(buf@) is None && s@ == hast_buffer_html(buf@),
            Err(e) => buffer_error(buf@) == Some(e),
        },
{
    let view = Arena::from_raw_buffer(buf)?;
    let mut out = String::new();
    let fuel = view.node_count();
    render_node(0, &view, &mut out, fuel, false);
    Ok(out)
}

/// Convert a HAST binary buffer to HTML in the self-closing style: void
/// elements end in ` />` and text escapes `"` as well as `&`, `<`, `>`.
pub fn hast_buffer_to_xhtml(buf: &[u8]) -> (r: Result<String, BufferError>)
    requires
        hast_buffer_ok(buf@),
    ensures
        match r {
            Ok(s) => buffer_error(buf@) is None && s@ == hast_buffer_xhtml(buf@),
            Err(e) => buffer_error(buf@) == Some(e),
        },
{
    let view = Arena::from_raw_buffer(buf)?;
    let mut out = String::new();
    let fuel = view.node_count();
    render_node(0, &view, &mut out, fuel, true);
    Ok(out)
}


/// An element whose tag is one of the HTML void elements (`area`, `base`,
/// `br`, `col`, `embed`, `hr`, `img`, `input`, `link`, `meta`, `param`,
/// `source`, `track`, `wbr`) renders as its start tag alone: `>` (or ` />`
/// in the self-closing style) right after its properties, with no children
/// and no closing tag.
pub proof fn law_void_elements_have_no_end_tag(b: Seq<u8>, id: int, fuel: nat, xhtml: bool)
    requires
        fuel > 0,
        buffer_nodes(b)[id].node_type == HAST_ELEMENT,
        node_data(b, buffer_nodes(b)[id]).len() >= 16,
        ({
            let tag = buffer_str(b, read_ref(node_data(b, buffer_nodes(b)[id]), 0));
            ||| tag == "area"@
            ||| tag == "base"@
            ||| tag == "br"@
            ||| tag == "col"@
            ||| tag == "embed"@
            ||| tag == "hr"@
            ||| tag == "img"@
            ||| tag == "input"@
            ||| tag == "link"@
            ||| tag == "meta"@
            ||| tag == "param"@
            ||| tag == "source"@
            ||| tag == "track"@
            ||| tag == "wbr"@
        }),
    ensures
        ({
            let data = node_data(b, buffer_nodes(b)[id]);
            let tag = buffer_str(b, read_ref(data, 0));
            node_html(b, id, fuel, xhtml) == "<"@ + tag + props_html(b, data, read_le32(data, 8) as nat) + if xhtml {
                " />"@
            } else {
                ">"@
            }
        }),
{
}

} // verus!
