//! Parsing a raw MDX JSX tag into its name, its attributes and whether it
//! closes or is self-contained.
//!
//! Every delimiter the parser looks at is an ASCII character, so positions
//! are counted in characters: scanning by bytes would make the same
//! decisions, as the bytes of a multi-byte character are never delimiters.
use vstd::prelude::*;
use crate::ascii::{white_space, is_whitespace};
use crate::text::push_char;

verus! {

/// An attribute of a JSX tag, with its text as written.
#[derive(Debug, Clone, PartialEq, Eq)]
pub enum JsxAttr {
    /// `{...expr}`: the expression, trimmed.
    Spread(String),
    /// `name` with no value.
    Boolean(String),
    /// `name="value"` or `name='value'`: the value between the quotes.
    Literal(String, String),
    /// `name={expr}`: the expression between the braces.
    Expression(String, String),
}

/// The text of an attribute, as character sequences.
pub enum AttrView {
    Spread(Seq<char>),
    Boolean(Seq<char>),
    Literal(Seq<char>, Seq<char>),
    Expression(Seq<char>, Seq<char>),
}

impl View for JsxAttr {
    type V = AttrView;

    open spec fn view(&self) -> AttrView {
        match self {
            JsxAttr::Spread(e) => AttrView::Spread(e@),
            JsxAttr::Boolean(n) => AttrView::Boolean(n@),
            JsxAttr::Literal(n, v) => AttrView::Literal(n@, v@),
            JsxAttr::Expression(n, e) => AttrView::Expression(n@, e@),
        }
    }
}

/// A parsed JSX tag.
#[derive(Debug, Clone, PartialEq, Eq)]
pub struct JsxElementData {
    /// The tag name (empty for a fragment).
    pub name: String,
    /// The attributes of an opening tag, in order.
    pub attrs: Vec<JsxAttr>,
    /// The raw text the tag was parsed from.
    pub raw: String,
    /// A closing tag `</Name>`.
    pub is_closing: bool,
    /// A tag that needs no separate closing tag: `<Name/>`, or a line that
    /// holds its own closing tag.
    pub is_self_closing: bool,
}

/// What is left of a sequence of length `n` from `i` on.
pub open spec fn crem(n: int, i: int) -> nat {
    if i < n {
        (n - i) as nat
    } else {
        0
    }
}

/// An ASCII character.
pub open spec fn ascii_char(c: char) -> bool {
    (c as u32) < 128
}

/// ASCII whitespace: space, tab, line feed, form feed or carriage return.
pub open spec fn ascii_ws_char(c: char) -> bool {
    c == ' ' || c == '\t' || c == '\n' || c == '\x0C' || c == '\r'
}

/// An ASCII letter or digit.
pub open spec fn ascii_alnum_char(c: char) -> bool {
    ('a' <= c && c <= 'z') || ('A' <= c && c <= 'Z') || ('0' <= c && c <= '9')
}

/// A character of an attribute name.
pub open spec fn attr_name_char(c: char) -> bool {
    ascii_alnum_char(c) || c == '-' || c == ':' || c == '_'
}

/// A character of a tag name, as skipped before the attributes.
pub open spec fn tag_name_char(c: char) -> bool {
    attr_name_char(c) || c == '.'
}

/// Past the ASCII whitespace at `i`.
pub open spec fn skip_ws(t: Seq<char>, i: int) -> int
    decreases crem(t.len() as int, i),
{
    if 0 <= i < t.len() && ascii_ws_char(t[i]) {
        skip_ws(t, i + 1)
    } else {
        i
    }
}

/// Past the tag-name characters at `i`.
pub open spec fn skip_tag_name(t: Seq<char>, i: int) -> int
    decreases crem(t.len() as int, i),
{
    if 0 <= i < t.len() && tag_name_char(t[i]) {
        skip_tag_name(t, i + 1)
    } else {
        i
    }
}

/// Past the attribute-name characters at `i`.
pub open spec fn attr_name_end(t: Seq<char>, i: int) -> int
    decreases crem(t.len() as int, i),
{
    if 0 <= i < t.len() && attr_name_char(t[i]) {
        attr_name_end(t, i + 1)
    } else {
        i
    }
}

/// Inside a value quoted by `q`: the index of the closing quote, or past the
/// end; a backslash skips the next character.
pub open spec fn value_quote_end(t: Seq<char>, i: int, q: char) -> int
    decreases crem(t.len() as int, i),
{
    if 0 <= i < t.len() && t[i] != q {
        if t[i] == '\\' {
            value_quote_end(t, i + 2, q)
        } else {
            value_quote_end(t, i + 1, q)
        }
    } else {
        i
    }
}

/// Inside braces with `depth` open: the index past the brace that closes
/// them all, or where the input runs out; quoted strings are skipped.
pub open spec fn brace_end(t: Seq<char>, i: int, depth: int) -> int
    decreases crem(t.len() as int, i),
{
    if i < 0 || i >= t.len() || depth <= 0 {
        i
    } else {
        let c = t[i];
        if c == '{' {
            brace_end(t, i + 1, depth + 1)
        } else if c == '}' {
            brace_end(t, i + 1, depth - 1)
        } else if c == '\'' || c == '"' || c == '`' {
            proof {
                lemma_value_quote_end(t, i + 1, c);
            }
            brace_end(t, value_quote_end(t, i + 1, c) + 1, depth)
        } else {
            brace_end(t, i + 1, depth)
        }
    }
}

pub proof fn lemma_value_quote_end(t: Seq<char>, i: int, q: char)
    requires
        0 <= i,
    ensures
        i <= value_quote_end(t, i, q),
        i <= t.len() ==> value_quote_end(t, i, q) <= t.len() + 1,
    decreases crem(t.len() as int, i),
{
    if 0 <= i < t.len() && t[i] != q {
        if t[i] == '\\' {
            lemma_value_quote_end(t, i + 2, q);
        } else {
            lemma_value_quote_end(t, i + 1, q);
        }
    }
}

pub proof fn lemma_brace_end(t: Seq<char>, i: int, depth: int)
    requires
        0 <= i,
    ensures
        i <= brace_end(t, i, depth),
        i <= t.len() ==> brace_end(t, i, depth) <= t.len() + 2,
    decreases crem(t.len() as int, i),
{
    if 0 <= i < t.len() && depth > 0 {
        let c = t[i];
        if c == '{' {
            lemma_brace_end(t, i + 1, depth + 1);
        } else if c == '}' {
            lemma_brace_end(t, i + 1, depth - 1);
        } else if c == '\'' || c == '"' || c == '`' {
            lemma_value_quote_end(t, i + 1, c);
            lemma_brace_end(t, value_quote_end(t, i + 1, c) + 1, depth);
        } else {
            lemma_brace_end(t, i + 1, depth);
        }
    }
}

/// A braced value that starts at `s0` and whose scan stopped at `j` can be
/// cut out as `[s0, j - 1)`: the cut lies within the text and falls after
/// an ASCII character (the closing brace, or a last character that is one
/// byte long).
pub open spec fn cut_ok(t: Seq<char>, s0: int, j: int) -> bool {
    let e = j - 1;
    &&& s0 <= e <= t.len()
    &&& e < t.len() ==> ascii_char(t[e])
}

/// The whitespace-trimmed text of `t` (whitespace in the sense of
/// `char::is_whitespace`).
pub open spec fn trim_start(t: Seq<char>, i: int) -> int
    decreases crem(t.len() as int, i),
{
    if 0 <= i < t.len() && white_space(t[i]) {
        trim_start(t, i + 1)
    } else {
        i
    }
}

/// Where the text ends once trailing whitespace before `j` (down to `lo`)
/// is dropped.
pub open spec fn trim_end(t: Seq<char>, lo: int, j: int) -> int
    decreases j - lo,
{
    if j > lo && white_space(t[j - 1]) {
        trim_end(t, lo, j - 1)
    } else {
        j
    }
}

/// `t` without leading and trailing whitespace.
pub open spec fn trim(t: Seq<char>) -> Seq<char> {
    let a = trim_start(t, 0);
    t.subrange(a, trim_end(t, a, t.len() as int))
}

pub proof fn lemma_trim(t: Seq<char>)
    ensures
        0 <= trim_start(t, 0) <= trim_end(t, trim_start(t, 0), t.len() as int) <= t.len(),
        trim(t).len() <= t.len(),
{
    lemma_trim_start(t, 0);
    lemma_trim_end(t, trim_start(t, 0), t.len() as int);
}

proof fn lemma_trim_start(t: Seq<char>, i: int)
    requires
        0 <= i <= t.len(),
    ensures
        i <= trim_start(t, i) <= t.len(),
    decreases crem(t.len() as int, i),
{
    if 0 <= i < t.len() && white_space(t[i]) {
        lemma_trim_start(t, i + 1);
    }
}

proof fn lemma_trim_end(t: Seq<char>, lo: int, j: int)
    requires
        lo <= j,
    ensures
        lo <= trim_end(t, lo, j) <= j,
    decreases j - lo,
{
    if j > lo && white_space(t[j - 1]) {
        lemma_trim_end(t, lo, j - 1);
    }
}

/// The attributes from `i` on, after those already in `acc`; `None` when a
/// value cannot be cut out of the text (an unterminated value at the very
/// end of the input).
pub open spec fn attrs_scan(t: Seq<char>, i: int, acc: Seq<AttrView>) -> Option<Seq<AttrView>>
    decreases crem(t.len() as int, i),
{
    let p = skip_ws(t, i);
    if p < 0 || p >= t.len() {
        Some(acc)
    } else if t[p] == '>' || (t[p] == '/' && p + 1 < t.len() && t[p + 1] == '>') {
        Some(acc)
    } else if t[p] == '{' {
        let j = brace_end(t, p + 1, 1);
        proof {
            lemma_skip_ws(t, i);
            lemma_brace_end(t, p + 1, 1);
        }
        if !cut_ok(t, p + 1, j) {
            None
        } else {
            attrs_scan(t, j, acc.push(AttrView::Spread(trim(t.subrange(p + 1, j - 1)))))
        }
    } else {
        let ne = attr_name_end(t, p);
        proof {
            lemma_skip_ws(t, i);
            lemma_attr_name_end(t, p);
        }
        if ne == p {
            attrs_scan(t, p + 1, acc)
        } else {
            proof {
                lemma_skip_ws(t, ne);
            }
            let name = t.subrange(p, ne);
            let k = skip_ws(t, ne);
            if k < t.len() && t[k] == '=' {
                let k2 = skip_ws(t, k + 1);
                proof {
                    lemma_skip_ws(t, k + 1);
                }
                if k2 >= t.len() {
                    attrs_scan(t, k2, acc.push(AttrView::Boolean(name)))
                } else if t[k2] == '"' || t[k2] == '\'' {
                    let ve = value_quote_end(t, k2 + 1, t[k2]);
                    proof {
                        lemma_value_quote_end(t, k2 + 1, t[k2]);
                    }
                    if ve > t.len() {
                        None
                    } else {
                        attrs_scan(
                            t,
                            if ve < t.len() {
                                ve + 1
                            } else {
                                ve
                            },
                            acc.push(AttrView::Literal(name, t.subrange(k2 + 1, ve))),
                        )
                    }
                } else if t[k2] == '{' {
                    let j = brace_end(t, k2 + 1, 1);
                    proof {
                        lemma_brace_end(t, k2 + 1, 1);
                    }
                    if !cut_ok(t, k2 + 1, j) {
                        None
                    } else {
                        attrs_scan(
                            t,
                            j,
                            acc.push(AttrView::Expression(name, t.subrange(k2 + 1, j - 1))),
                        )
                    }
                } else {
                    attrs_scan(t, k2, acc.push(AttrView::Boolean(name)))
                }
            } else {
                attrs_scan(t, k, acc.push(AttrView::Boolean(name)))
            }
        }
    }
}

pub proof fn lemma_skip_ws(t: Seq<char>, i: int)
    requires
        0 <= i,
    ensures
        i <= skip_ws(t, i),
        i <= t.len() ==> skip_ws(t, i) <= t.len(),
    decreases crem(t.len() as int, i),
{
    if 0 <= i < t.len() && ascii_ws_char(t[i]) {
        lemma_skip_ws(t, i + 1);
    }
}

pub proof fn lemma_attr_name_end(t: Seq<char>, i: int)
    requires
        0 <= i,
    ensures
        i <= attr_name_end(t, i),
        i <= t.len() ==> attr_name_end(t, i) <= t.len(),
    decreases crem(t.len() as int, i),
{
    if 0 <= i < t.len() && attr_name_char(t[i]) {
        lemma_attr_name_end(t, i + 1);
    }
}

pub proof fn lemma_skip_tag_name(t: Seq<char>, i: int)
    requires
        0 <= i,
    ensures
        i <= skip_tag_name(t, i),
        i <= t.len() ==> skip_tag_name(t, i) <= t.len(),
    decreases crem(t.len() as int, i),
{
    if 0 <= i < t.len() && tag_name_char(t[i]) {
        lemma_skip_tag_name(t, i + 1);
    }
}

/// Scanning the opening tag from `i`: `depth` braces open, inside a quote
/// `quote` (or none), after the character `prev`. Ends past the first `>`
/// outside quotes and braces, or at the end of the text.
pub open spec fn opening_scan(t: Seq<char>, i: int, depth: int, quote: Option<char>, prev: char) -> int
    decreases crem(t.len() as int, i),
{
    if i < 0 || i >= t.len() {
        t.len() as int
    } else {
        let c = t[i];
        match quote {
            Some(q) => opening_scan(
                t,
                i + 1,
                depth,
                if c == q && prev != '\\' {
                    None
                } else {
                    Some(q)
                },
                c,
            ),
            None => if c == '\'' || c == '"' || c == '`' {
                opening_scan(t, i + 1, depth, Some(c), c)
            } else if c == '{' {
                opening_scan(t, i + 1, depth + 1, None, c)
            } else if c == '}' {
                opening_scan(t, i + 1, depth - 1, None, c)
            } else if c == '>' && depth == 0 {
                i + 1
            } else {
                opening_scan(t, i + 1, depth, None, c)
            },
        }
    }
}

/// The opening tag at the start of `t`: up to and including the first
/// unbalanced `>`, or all of `t`.
pub open spec fn opening_tag(t: Seq<char>) -> Seq<char> {
    t.subrange(0, opening_scan(t, 0, 0, None, '\0'))
}

/// The attributes of the tag at the start of `t`: after `<`, an optional
/// `/`, whitespace and the tag name.
pub open spec fn tag_attrs(t: Seq<char>) -> Option<Seq<AttrView>> {
    let o = opening_tag(t);
    let i0 = if 1 < o.len() && o[1] == '/' {
        2
    } else {
        1
    };
    attrs_scan(o, skip_tag_name(o, skip_ws(o, i0)), Seq::empty())
}

/// Where a tag name that starts `t` ends: at whitespace, `/`, `>` or `{`.
pub open spec fn tag_name_len(t: Seq<char>, i: int) -> int
    decreases crem(t.len() as int, i),
{
    if 0 <= i < t.len() && !(white_space(t[i]) || t[i] == '/' || t[i] == '>' || t[i] == '{') {
        tag_name_len(t, i + 1)
    } else {
        i
    }
}

/// The tag name at the start of `t`.
pub open spec fn tag_name(t: Seq<char>) -> Seq<char> {
    t.subrange(0, tag_name_len(t, 0))
}

/// `p` occurs in `s`.
pub open spec fn contains_seq(s: Seq<char>, p: Seq<char>) -> bool {
    exists|k: int| 0 <= k && k + p.len() <= s.len() && #[trigger] s.subrange(k, k + p.len()) == p
}

/// `</name>`.
pub open spec fn close_tag(name: Seq<char>) -> Seq<char> {
    seq!['<', '/'] + name + seq!['>']
}

/// The tag is a closing tag `</…>`.
pub open spec fn is_closing_tag(s: Seq<char>) -> bool {
    s.len() >= 2 && s[0] == '<' && s[1] == '/'
}

/// The name of the (trimmed) tag `s`.
pub open spec fn element_name(s: Seq<char>) -> Seq<char> {
    if is_closing_tag(s) {
        tag_name(s.subrange(2, s.len() as int))
    } else {
        tag_name(s.subrange(1, s.len() as int))
    }
}

/// An opening tag needs no separate closing tag: it ends in `/>`, or its
/// own closing tag follows on the same text.
pub open spec fn self_closing(s: Seq<char>) -> bool {
    ||| s.len() >= 2 && s[s.len() - 2] == '/' && s[s.len() - 1] == '>'
    ||| contains_seq(s, close_tag(element_name(s)))
}

/// The raw tags that the parser takes: non-empty once trimmed, starting
/// with an ASCII character, and, for an opening tag, with attribute values
/// that can be cut out of the text.
pub open spec fn parsable_tag(raw: Seq<char>) -> bool {
    let s = trim(raw);
    &&& s.len() > 0
    &&& ascii_char(s[0])
    &&& !is_closing_tag(s) ==> tag_attrs(s) is Some
}

/// The views of a list of attributes.
pub open spec fn attr_views(v: Seq<JsxAttr>) -> Seq<AttrView> {
    v.map_values(|a: JsxAttr| a@)
}

/// The characters of a string slice.
fn chars_of(s: &str) -> (r: Vec<char>)
    ensures
        r@ == s@,
{
    let mut out: Vec<char> = Vec::new();
    for c in it: s.chars()
        invariant
            out@ == it.seq().subrange(0, it.index() as int),
            it.seq() == s@,
    {
        let ghost i0 = it.index();
        assert(it.seq()[i0 as int] == c);
        out.push(c);
        assert(out@ =~= it.seq().subrange(0, i0 + 1));
    }
    assert(out@ =~= s@);
    out
}

/// The characters `t[a..b]` as a string.
fn string_of(t: &[char], a: usize, b: usize) -> (r: String)
    requires
        a <= b <= t@.len(),
    ensures
        r@ == t@.subrange(a as int, b as int),
{
    let mut out = String::new();
    let mut i = a;
    while i < b
        invariant
            a <= i <= b <= t@.len(),
            out@ == t@.subrange(a as int, i as int),
        decreases b - i,
    {
        push_char(&mut out, t[i]);
        assert(out@ =~= t@.subrange(a as int, i + 1));
        i += 1;
    }
    out
}

/// The characters `t[a..b]` without leading and trailing whitespace.
fn trimmed_string_of(t: &[char], a: usize, b: usize) -> (r: String)
    requires
        a <= b <= t@.len(),
    ensures
        r@ == trim(t@.subrange(a as int, b as int)),
{
    let ghost u = t@.subrange(a as int, b as int);
    let mut i = a;
    while i < b && is_whitespace(t[i])
        invariant
            a <= i <= b <= t@.len(),
            u == t@.subrange(a as int, b as int),
            trim_start(u, i - a) == trim_start(u, 0),
        decreases b - i,
    {
        i += 1;
    }
    let mut j = b;
    while j > i && is_whitespace(t[j - 1])
        invariant
            a <= i <= j <= b <= t@.len(),
            u == t@.subrange(a as int, b as int),
            trim_start(u, 0) == i - a,
            trim_end(u, i - a, j - a) == trim_end(u, i - a, b - a),
        decreases j,
    {
        j -= 1;
    }
    assert(u.subrange(i - a, j - a) =~= t@.subrange(i as int, j as int));
    string_of(t, i, j)
}

fn is_ascii_ws_char(c: char) -> (r: bool)
    ensures
        r == ascii_ws_char(c),
{
    c == ' ' || c == '\t' || c == '\n' || c == '\x0C' || c == '\r'
}

fn is_attr_name_char(c: char) -> (r: bool)
    ensures
        r == attr_name_char(c),
{
    ('a' <= c && c <= 'z') || ('A' <= c && c <= 'Z') || ('0' <= c && c <= '9') || c == '-' || c
        == ':' || c == '_'
}

/// Past the ASCII whitespace at `i`.
fn skip_ws_at(t: &[char], i: usize) -> (r: usize)
    requires
        i <= t@.len(),
    ensures
        r as int == skip_ws(t@, i as int),
        i <= r <= t@.len(),
{
    let mut k = i;
    while k < t.len() && is_ascii_ws_char(t[k])
        invariant
            i <= k <= t@.len(),
            skip_ws(t@, k as int) == skip_ws(t@, i as int),
        decreases t@.len() - k,
    {
        k += 1;
    }
    k
}

/// Inside a value quoted by `q` from `i`: the index of the closing quote.
fn value_quote_scan(t: &[char], i: usize, q: char) -> (r: usize)
    requires
        i <= t@.len() < i32::MAX,
    ensures
        r as int == value_quote_end(t@, i as int, q),
        i <= r <= t@.len() + 1,
{
    let mut k = i;
    while k < t.len() && t[k] != q
        invariant
            i <= k <= t@.len() + 1,
            t@.len() < i32::MAX,
            value_quote_end(t@, k as int, q) == value_quote_end(t@, i as int, q),
        decreases t@.len() + 1 - k,
    {
        if t[k] == '\\' {
            k += 1;
        }
        k += 1;
    }
    k
}

/// Inside one open brace from `i`: past the brace that closes it.
fn brace_scan(t: &[char], i: usize) -> (r: usize)
    requires
        i <= t@.len() < i32::MAX,
    ensures
        r as int == brace_end(t@, i as int, 1),
        i <= r <= t@.len() + 2,
{
    let n = t.len();
    let mut k = i;
    let mut depth: i32 = 1;
    while k < n && depth > 0
        invariant
            i <= k <= n + 2,
            n == t@.len() < i32::MAX,
            depth <= k - i + 1,
            brace_end(t@, k as int, depth as int) == brace_end(t@, i as int, 1),
        decreases n + 2 - k,
    {
        let c = t[k];
        if c == '{' {
            depth += 1;
        } else if c == '}' {
            depth -= 1;
        } else if c == '\'' || c == '"' || c == '`' {
            k = value_quote_scan(t, k + 1, c);
        }
        k += 1;
    }
    proof {
        lemma_brace_end(t@, i as int, 1);
    }
    k
}

/// The length of the opening tag at the start of `t`: up to and including
/// the first `>` outside quotes and braces, or all of `t`.
fn extract_opening_tag(t: &[char]) -> (r: usize)
    requires
        t@.len() < i32::MAX,
    ensures
        r as int == opening_scan(t@, 0, 0, None, '\0'),
        r <= t@.len(),
{
    let mut depth: i32 = 0;
    let mut in_single_quote = false;
    let mut in_double_quote = false;
    let mut in_backtick = false;
    let mut prev = '\0';
    let mut i: usize = 0;
    while i < t.len()
        invariant
            i <= t@.len() < i32::MAX,
            -(i as int) <= depth <= i,
            (in_single_quote as int) + (in_double_quote as int) + (in_backtick as int) <= 1,
            opening_scan(
                t@,
                i as int,
                depth as int,
                if in_single_quote {
                    Some('\'')
                } else if in_double_quote {
                    Some('"')
                } else if in_backtick {
                    Some('`')
                } else {
                    None
                },
                prev,
            ) == opening_scan(t@, 0, 0, None, '\0'),
        decreases t@.len() - i,
    {
        let ch = t[i];
        if in_single_quote {
            if ch == '\'' && prev != '\\' {
                in_single_quote = false;
            }
        } else if in_double_quote {
            if ch == '"' && prev != '\\' {
                in_double_quote = false;
            }
        } else if in_backtick {
            if ch == '`' && prev != '\\' {
                in_backtick = false;
            }
        } else {
            if ch == '\'' {
                in_single_quote = true;
            } else if ch == '"' {
                in_double_quote = true;
            } else if ch == '`' {
                in_backtick = true;
            } else if ch == '{' {
                depth += 1;
            } else if ch == '}' {
                depth -= 1;
            } else if ch == '>' && depth == 0 {
                return i + 1;
            }
        }
        prev = ch;
        i += 1;
    }
    i
}

/// The attributes of the opening tag `tag`, scanned from `start`.
fn scan_attrs(tag: &[char], start: usize) -> (r: Vec<JsxAttr>)
    requires
        start <= tag@.len() < i32::MAX,
        attrs_scan(tag@, start as int, Seq::empty()) is Some,
    ensures
        attrs_scan(tag@, start as int, Seq::empty()) == Some(attr_views(r@)),
{
    let ghost t = tag@;
    let len = tag.len();
    let mut attrs: Vec<JsxAttr> = Vec::new();
    let mut i = start;
    assert(attr_views(attrs@) =~= Seq::<AttrView>::empty());
    loop
        invariant
            i <= len + 2,
            len == t.len() < i32::MAX,
            t == tag@,
            attrs_scan(t, i as int, attr_views(attrs@)) == attrs_scan(t, start as int, Seq::empty()),
            attrs_scan(t, start as int, Seq::empty()) is Some,
        decreases len + 2 - i,
    {
        let ghost i0 = i as int;
        let ghost acc = attr_views(attrs@);
        if i > len {
            return attrs;
        }
        i = skip_ws_at(tag, i);
        if i >= len {
            return attrs;
        }
        if tag[i] == '>' || (tag[i] == '/' && i + 1 < len && tag[i + 1] == '>') {
            return attrs;
        }
        if tag[i] == '{' {
            i += 1;
            let vs = i;
            i = brace_scan(tag, vs);
            let value = trimmed_string_of(tag, vs, i - 1);
            let ghost a = JsxAttr::Spread(value);
            attrs.push(JsxAttr::Spread(value));
            assert(attr_views(attrs@) =~= acc.push(a@));
            continue;
        }
        let name_start = i;
        while i < len && is_attr_name_char(tag[i])
            invariant
                name_start <= i <= len,
                len == t.len(),
                t == tag@,
                attr_name_end(t, i as int) == attr_name_end(t, name_start as int),
            decreases len - i,
        {
            i += 1;
        }
        if i == name_start {
            i += 1;
            continue;
        }
        let name = string_of(tag, name_start, i);
        i = skip_ws_at(tag, i);
        if i < len && tag[i] == '=' {
            i = skip_ws_at(tag, i + 1);
            if i >= len {
                let ghost a = JsxAttr::Boolean(name);
                attrs.push(JsxAttr::Boolean(name));
                assert(attr_views(attrs@) =~= acc.push(a@));
                continue;
            }
            let q = tag[i];
            if q == '"' || q == '\'' {
                i += 1;
                let val_start = i;
                i = value_quote_scan(tag, val_start, q);
                let value = string_of(tag, val_start, i);
                if i < len {
                    i += 1;
                }
                let ghost a = JsxAttr::Literal(name, value);
                attrs.push(JsxAttr::Literal(name, value));
                assert(attr_views(attrs@) =~= acc.push(a@));
            } else if q == '{' {
                i += 1;
                let val_start = i;
                i = brace_scan(tag, val_start);
                let value = string_of(tag, val_start, i - 1);
                let ghost a = JsxAttr::Expression(name, value);
                attrs.push(JsxAttr::Expression(name, value));
                assert(attr_views(attrs@) =~= acc.push(a@));
            } else {
                let ghost a = JsxAttr::Boolean(name);
                attrs.push(JsxAttr::Boolean(name));
                assert(attr_views(attrs@) =~= acc.push(a@));
            }
        } else {
            let ghost a = JsxAttr::Boolean(name);
            attrs.push(JsxAttr::Boolean(name));
            assert(attr_views(attrs@) =~= acc.push(a@));
        }
    }
}

/// The attributes of the tag at the start of `text`: those of its opening
/// tag (up to the first unbalanced `>`), after the tag name.
fn parse_jsx_attrs(text: &[char]) -> (r: Vec<JsxAttr>)
    requires
        text@.len() < i32::MAX,
        tag_attrs(text@) is Some,
    ensures
        tag_attrs(text@) == Some(attr_views(r@)),
{
    let end = extract_opening_tag(text);
    let tag = vstd::slice::slice_subrange(text, 0, end);
    assert(tag@ =~= opening_tag(text@));
    let len = tag.len();
    let mut i: usize = 1;
    if i < len && tag[i] == '/' {
        i += 1;
    }
    proof {
        assert(i == (if 1 < tag@.len() && tag@[1] == '/' {
            2int
        } else {
            1int
        }));
    }
    let i = skip_ws_at(tag, if i <= len {
        i
    } else {
        len
    });
    proof {
        if 1 > len {
            assert(skip_ws(tag@, 1) == 1);
            assert(skip_ws(tag@, 0) == 0 || len > 0);
        }
    }
    let mut k = i;
    while k < len && (is_attr_name_char(tag[k]) || tag[k] == '.')
        invariant
            i <= k <= len,
            len == tag@.len(),
            skip_tag_name(tag@, k as int) == skip_tag_name(tag@, i as int),
        decreases len - k,
    {
        k += 1;
    }
    scan_attrs(tag, k)
}

/// The name at the start of `t[from..]`: up to whitespace, `/`, `>` or `{`.
fn extract_tag_name(t: &[char], from: usize) -> (r: String)
    requires
        from <= t@.len(),
    ensures
        r@ == tag_name(t@.subrange(from as int, t@.len() as int)),
{
    let ghost u = t@.subrange(from as int, t@.len() as int);
    let mut i = from;
    while i < t.len() && !(is_whitespace(t[i]) || t[i] == '/' || t[i] == '>' || t[i] == '{')
        invariant
            from <= i <= t@.len(),
            u == t@.subrange(from as int, t@.len() as int),
            tag_name_len(u, i - from) == tag_name_len(u, 0),
        decreases t@.len() - i,
    {
        i += 1;
    }
    assert(u.subrange(0, i - from) =~= t@.subrange(from as int, i as int));
    string_of(t, from, i)
}

/// Whether `p` occurs in `s`.
fn contains_chars(s: &[char], p: &[char]) -> (r: bool)
    ensures
        r == contains_seq(s@, p@),
{
    if p.len() > s.len() {
        return false;
    }
    let mut k: usize = 0;
    while k <= s.len() - p.len()
        invariant
            p@.len() <= s@.len(),
            k <= s@.len() - p@.len() + 1,
            forall|j: int| 0 <= j < k ==> #[trigger] s@.subrange(j, j + p@.len()) != p@,
        decreases s@.len() + 1 - k,
    {
        let mut m: usize = 0;
        let mut same = true;
        let slen = s.len();
        while same && m < p.len()
            invariant
                slen == s@.len(),
                p@.len() <= s@.len(),
                k <= s@.len() - p@.len(),
                m <= p@.len(),
                forall|x: int| 0 <= x < m ==> s@[k + x] == p@[x],
                !same ==> m < p@.len() && s@[k + m] != p@[m as int],
            decreases p@.len() - m + (if same { 1int } else { 0int }),
        {
            if s[k + m] == p[m] {
                m += 1;
            } else {
                same = false;
            }
        }
        if same {
            assert(s@.subrange(k as int, k + p@.len()) =~= p@);
            return true;
        }
        assert(s@.subrange(k as int, k + p@.len())[m as int] != p@[m as int]);
        k += 1;
    }
    proof {
        assert forall|j: int| 0 <= j && j + p@.len() <= s@.len() implies #[trigger] s@.subrange(
            j,
            j + p@.len(),
        ) != p@ by {
            assert(j < k);
        }
    }
    false
}

/// Parses a raw JSX tag (opening, closing, self-closing or a fragment)
/// into its name and attributes. A tag is self-closing when it ends in `/>`
/// or when its own closing tag follows in the same text.
pub fn parse_jsx_tag(raw: &str) -> (r: JsxElementData)
    requires
        raw@.len() < i32::MAX,
        parsable_tag(raw@),
    ensures
        r.raw@ == raw@,
        r.name@ == element_name(trim(raw@)),
        r.is_closing == is_closing_tag(trim(raw@)),
        r.is_self_closing == (!is_closing_tag(trim(raw@)) && self_closing(trim(raw@))),
        attr_views(r.attrs@) == if is_closing_tag(trim(raw@)) {
            Seq::empty()
        } else {
            tag_attrs(trim(raw@))->0
        },
{
    let all = chars_of(raw);
    let n = all.len();
    let s_str = trimmed_string_of(all.as_slice(), 0, n);
    assert(all@.subrange(0, n as int) =~= all@);
    let s = chars_of(s_str.as_str());
    let ghost t = s@;
    proof {
        lemma_trim(raw@);
    }
    let len = s.len();
    if len >= 2 && s[0] == '<' && s[1] == '/' {
        let name = extract_tag_name(s.as_slice(), 2);
        let r = JsxElementData {
            name,
            attrs: Vec::new(),
            raw: raw.to_owned(),
            is_closing: true,
            is_self_closing: false,
        };
        assert(attr_views(r.attrs@) =~= Seq::<AttrView>::empty());
        return r;
    }
    let ends_self_close = len >= 2 && s[len - 2] == '/' && s[len - 1] == '>';
    let name = extract_tag_name(s.as_slice(), 1);
    let name_chars = chars_of(name.as_str());
    let mut close_tag_chars: Vec<char> = Vec::new();
    close_tag_chars.push('<');
    close_tag_chars.push('/');
    let mut k: usize = 0;
    while k < name_chars.len()
        invariant
            k <= name_chars@.len(),
            close_tag_chars@ == seq!['<', '/'] + name_chars@.subrange(0, k as int),
        decreases name_chars@.len() - k,
    {
        close_tag_chars.push(name_chars[k]);
        assert(close_tag_chars@ =~= seq!['<', '/'] + name_chars@.subrange(0, k + 1));
        k += 1;
    }
    close_tag_chars.push('>');
    assert(close_tag_chars@ =~= close_tag(element_name(t)));
    let is_self_contained = contains_chars(s.as_slice(), close_tag_chars.as_slice());
    let attrs = parse_jsx_attrs(s.as_slice());
    JsxElementData {
        name,
        attrs,
        raw: raw.to_owned(),
        is_closing: false,
        is_self_closing: ends_self_close || is_self_contained,
    }
}

pub proof fn lemma_value_quote_end_within(t: Seq<char>, i: int, q: char)
    requires
        0 <= i <= t.len(),
        t.len() >= 1,
        t.last() != '\\',
    ensures
        value_quote_end(t, i, q) <= t.len(),
    decreases crem(t.len() as int, i),
{
    if 0 <= i < t.len() && t[i] != q {
        if t[i] == '\\' {
            lemma_value_quote_end_within(t, i + 2, q);
        } else {
            lemma_value_quote_end_within(t, i + 1, q);
        }
    }
}

/// In a text that does not end in a backslash, a brace scan stops within
/// one past the end, either at or past the end or right after a `}`.
pub proof fn lemma_brace_end_shape(t: Seq<char>, i: int, d: int)
    requires
        1 <= d,
        0 <= i <= t.len() + 1,
        t.len() >= 1,
        t.last() != '\\',
    ensures
        i <= brace_end(t, i, d) <= t.len() + 1,
        brace_end(t, i, d) >= t.len() || (brace_end(t, i, d) > i && t[brace_end(t, i, d) - 1]
            == '}'),
    decreases crem(t.len() as int, i),
{
    if i < t.len() {
        let c = t[i];
        if c == '{' {
            lemma_brace_end_shape(t, i + 1, d + 1);
        } else if c == '}' {
            if d - 1 > 0 {
                lemma_brace_end_shape(t, i + 1, d - 1);
            }
        } else if c == '\'' || c == '"' || c == '`' {
            lemma_value_quote_end(t, i + 1, c);
            lemma_value_quote_end_within(t, i + 1, c);
            lemma_brace_end_shape(t, value_quote_end(t, i + 1, c) + 1, d);
        } else {
            lemma_brace_end_shape(t, i + 1, d);
        }
    }
}

/// The attributes of a tag that ends in `>` can always be cut out.
pub proof fn lemma_attrs_total(t: Seq<char>, i: int, acc: Seq<AttrView>)
    requires
        t.len() >= 1,
        t.last() == '>',
        0 <= i,
    ensures
        attrs_scan(t, i, acc) is Some,
    decreases crem(t.len() as int, i),
{
    let n = t.len() as int;
    let p = skip_ws(t, i);
    lemma_skip_ws(t, i);
    if p >= n {
    } else if t[p] == '>' || (t[p] == '/' && p + 1 < n && t[p + 1] == '>') {
    } else if t[p] == '{' {
        lemma_brace_end_shape(t, p + 1, 1);
        let j = brace_end(t, p + 1, 1);
        lemma_attrs_total(t, j, acc.push(AttrView::Spread(trim(t.subrange(p + 1, j - 1)))));
    } else {
        let ne = attr_name_end(t, p);
        lemma_attr_name_end(t, p);
        if ne == p {
            lemma_attrs_total(t, p + 1, acc);
        } else {
            lemma_skip_ws(t, ne);
            let name = t.subrange(p, ne);
            let k = skip_ws(t, ne);
            if k < n && t[k] == '=' {
                let k2 = skip_ws(t, k + 1);
                lemma_skip_ws(t, k + 1);
                if k2 >= n {
                    lemma_attrs_total(t, k2, acc.push(AttrView::Boolean(name)));
                } else if t[k2] == '"' || t[k2] == '\'' {
                    let ve = value_quote_end(t, k2 + 1, t[k2]);
                    lemma_value_quote_end(t, k2 + 1, t[k2]);
                    lemma_value_quote_end_within(t, k2 + 1, t[k2]);
                    lemma_attrs_total(
                        t,
                        if ve < n {
                            ve + 1
                        } else {
                            ve
                        },
                        acc.push(AttrView::Literal(name, t.subrange(k2 + 1, ve))),
                    );
                } else if t[k2] == '{' {
                    lemma_brace_end_shape(t, k2 + 1, 1);
                    let j = brace_end(t, k2 + 1, 1);
                    lemma_attrs_total(
                        t,
                        j,
                        acc.push(AttrView::Expression(name, t.subrange(k2 + 1, j - 1))),
                    );
                } else {
                    lemma_attrs_total(t, k2, acc.push(AttrView::Boolean(name)));
                }
            } else {
                lemma_attrs_total(t, k, acc.push(AttrView::Boolean(name)));
            }
        }
    }
}

/// The opening-tag scan stops at the end or right after a `>`.
pub proof fn lemma_opening_scan(t: Seq<char>, i: int, depth: int, quote: Option<char>, prev: char)
    requires
        0 <= i,
    ensures
        opening_scan(t, i, depth, quote, prev) == t.len() || (i < opening_scan(
            t,
            i,
            depth,
            quote,
            prev,
        ) <= t.len() && t[opening_scan(t, i, depth, quote, prev) - 1] == '>'),
    decreases crem(t.len() as int, i),
{
    if i < t.len() {
        let c = t[i];
        match quote {
            Some(q) => {
                lemma_opening_scan(
                    t,
                    i + 1,
                    depth,
                    if c == q && prev != '\\' {
                        None
                    } else {
                        Some(q)
                    },
                    c,
                );
            },
            None => {
                if c == '\'' || c == '"' || c == '`' {
                    lemma_opening_scan(t, i + 1, depth, Some(c), c);
                } else if c == '{' {
                    lemma_opening_scan(t, i + 1, depth + 1, None, c);
                } else if c == '}' {
                    lemma_opening_scan(t, i + 1, depth - 1, None, c);
                } else if c == '>' && depth == 0 {
                } else {
                    lemma_opening_scan(t, i + 1, depth, None, c);
                }
            },
        }
    }
}

/// A tag that starts with an ASCII character and ends in `>`, with no
/// whitespace to trim, can be parsed.
pub proof fn lemma_tag_parsable(s: Seq<char>)
    requires
        s.len() >= 1,
        ascii_char(s[0]),
        !white_space(s[0]),
        s.last() == '>',
        !white_space(s.last()),
    ensures
        trim(s) == s,
        parsable_tag(s),
{
    assert(trim_start(s, 0) == 0);
    assert(trim_end(s, 0, s.len() as int) == s.len());
    assert(s.subrange(0, s.len() as int) =~= s);
    lemma_opening_scan(s, 0, 0, None, '\0');
    let o = opening_tag(s);
    let i0: int = if 1 < o.len() && o[1] == '/' {
        2
    } else {
        1
    };
    lemma_skip_ws(o, i0);
    lemma_skip_tag_name(o, skip_ws(o, i0));
    lemma_attrs_total(o, skip_tag_name(o, skip_ws(o, i0)), Seq::empty());
}

} // verus!
