//! Splitting the text of a directive label (`:::tip[Set a `baseUrl`]`)
//! into pieces: plain text, inline code on balanced backtick runs, MDX
//! expressions on balanced `{…}` spans, and JSX elements on `<Name>…</Name>`
//! or `<Name/>` tags. Pieces are byte ranges of the text;
//! the tree builder turns them into nodes.
use vstd::prelude::*;
use vstd::string::*;
use vstd::utf8::*;
use crate::mdx::{
    expression_len, as_int, scan_mdx_inline_expression, scan_mdx_inline_jsx, inline_jsx_end,
    lemma_inline_jsx_end, rem, BACKTICK, LBRACE, LT,
};
use crate::jsx::{
    parse_jsx_tag, JsxElementData, is_closing_tag, self_closing, element_name, lemma_tag_parsable,
};
use crate::text::{
    substr, str_eq, lemma_boundary_after_ascii, lemma_ascii_ends, lemma_decode_len, range_ok,
};

verus! {

/// A piece of a split label, as byte ranges of its text.
#[derive(Debug, Clone, Copy, PartialEq, Eq)]
pub enum LabelPiece {
    /// Plain text `[start, end)`.
    Text { start: usize, end: usize },
    /// Inline code spanning `[start, end)` with the backtick runs, whose code
    /// is `[code_start, code_end)`.
    InlineCode { start: usize, end: usize, code_start: usize, code_end: usize },
    /// An MDX expression spanning `[start, end)` with its braces, whose
    /// content is `[content_start, content_end)`.
    Expression { start: usize, end: usize, content_start: usize, content_end: usize },
}

/// Past the run of backticks at `i`.
pub open spec fn run_end(t: Seq<u8>, i: int) -> int
    decreases rem(t, i),
{
    if 0 <= i < t.len() && t[i] == BACKTICK {
        run_end(t, i + 1)
    } else {
        i
    }
}

pub proof fn lemma_run_end(t: Seq<u8>, i: int)
    requires
        0 <= i,
    ensures
        i <= run_end(t, i),
        i <= t.len() ==> run_end(t, i) <= t.len(),
        0 <= i < t.len() && t[i] == BACKTICK ==> i < run_end(t, i),
        forall|k: int| i <= k < run_end(t, i) ==> t[k] == BACKTICK,
    decreases rem(t, i),
{
    if 0 <= i < t.len() && t[i] == BACKTICK {
        lemma_run_end(t, i + 1);
    }
}

/// From `j` on, the first backtick run exactly `n` long: its start and end.
pub open spec fn close_run(t: Seq<u8>, j: int, n: int) -> Option<(int, int)>
    decreases rem(t, j),
{
    if j < 0 || j >= t.len() {
        None
    } else if t[j] == BACKTICK {
        let ce = run_end(t, j);
        proof {
            lemma_run_end(t, j);
        }
        if ce - j == n {
            Some((j, ce))
        } else {
            close_run(t, ce, n)
        }
    } else {
        close_run(t, j + 1, n)
    }
}

pub proof fn lemma_close_run(t: Seq<u8>, j: int, n: int)
    requires
        0 <= j,
    ensures
        close_run(t, j, n) matches Some((cs, ce)) ==> j <= cs < ce <= t.len() && ce - cs == n,
    decreases rem(t, j),
{
    if 0 <= j < t.len() {
        lemma_run_end(t, j);
        if t[j] == BACKTICK {
            if run_end(t, j) - j != n {
                lemma_close_run(t, run_end(t, j), n);
            }
        } else {
            lemma_close_run(t, j + 1, n);
        }
    }
}

/// The balanced backtick pairs from `i` on, as (opening start, opening end,
/// closing start, closing end): each run of backticks is paired with the
/// next run of the same length; a run with no partner is left as text.
pub open spec fn backtick_pairs(t: Seq<u8>, i: int) -> Seq<(int, int, int, int)>
    decreases rem(t, i),
{
    if i < 0 || i >= t.len() {
        Seq::empty()
    } else if t[i] != BACKTICK {
        backtick_pairs(t, i + 1)
    } else {
        let oe = run_end(t, i);
        proof {
            lemma_run_end(t, i);
            lemma_close_run(t, oe, oe - i);
        }
        match close_run(t, oe, oe - i) {
            Some((cs, ce)) => seq![(i, oe, cs, ce)] + backtick_pairs(t, ce),
            None => backtick_pairs(t, oe),
        }
    }
}

/// The expression spans from `i` on, as (start, content start, content
/// end, end): each `{` that starts a closed expression, scanned with the
/// MDX expression lexer.
pub open spec fn expression_spans(t: Seq<u8>, i: int) -> Seq<(int, int, int, int)>
    decreases rem(t, i),
{
    if i < 0 || i >= t.len() {
        Seq::empty()
    } else if t[i] != LBRACE {
        expression_spans(t, i + 1)
    } else {
        match expression_len(t.subrange(i, t.len() as int)) {
            Some(total) => if 0 < total <= t.len() - i {
                seq![(i, i + 1, i + total - 1, i + total)] + expression_spans(t, i + total)
            } else {
                Seq::empty()
            },
            None => expression_spans(t, i + 1),
        }
    }
}

/// The pieces that the spans, given as (start, inner start, inner end,
/// end), cut a text of length `len` into from `cursor` on: the text before
/// each span, the span itself (inline code when `code`, else an
/// expression), and the text after the last one; empty text is left out.
pub open spec fn pieces(
    len: int,
    spans: Seq<(int, int, int, int)>,
    cursor: int,
    code: bool,
) -> Seq<LabelPiece>
    decreases spans.len(),
{
    if spans.len() == 0 {
        if cursor < len {
            seq![LabelPiece::Text { start: cursor as usize, end: len as usize }]
        } else {
            Seq::empty()
        }
    } else {
        let p = spans[0];
        let lead = if p.0 > cursor {
            seq![LabelPiece::Text { start: cursor as usize, end: p.0 as usize }]
        } else {
            Seq::empty()
        };
        let mid = if code {
            LabelPiece::InlineCode {
                start: p.0 as usize,
                end: p.3 as usize,
                code_start: p.1 as usize,
                code_end: p.2 as usize,
            }
        } else {
            LabelPiece::Expression {
                start: p.0 as usize,
                end: p.3 as usize,
                content_start: p.1 as usize,
                content_end: p.2 as usize,
            }
        };
        lead + seq![mid] + pieces(len, spans.drop_first(), p.3, code)
    }
}

/// Past the run of backticks at `i`.
fn scan_run_end(t: &[u8], i: usize) -> (r: usize)
    requires
        i <= t@.len(),
    ensures
        r as int == run_end(t@, i as int),
        i <= r <= t@.len(),
        i < t@.len() && t@[i as int] == BACKTICK ==> i < r,
{
    let mut k = i;
    while k < t.len() && t[k] == BACKTICK
        invariant
            i <= k <= t@.len(),
            run_end(t@, k as int) == run_end(t@, i as int),
        decreases t@.len() - k,
    {
        k += 1;
    }
    k
}

/// From `j` on, the first backtick run exactly `n` long.
fn find_close_run(t: &[u8], j: usize, n: usize) -> (r: Option<(usize, usize)>)
    requires
        j <= t@.len(),
    ensures
        match r {
            Some((cs, ce)) => close_run(t@, j as int, n as int) == Some((cs as int, ce as int)),
            None => close_run(t@, j as int, n as int) is None,
        },
{
    let mut k = j;
    while k < t.len()
        invariant
            j <= k <= t@.len(),
            close_run(t@, k as int, n as int) == close_run(t@, j as int, n as int),
        decreases t@.len() - k,
    {
        if t[k] == BACKTICK {
            let cs = k;
            k = scan_run_end(t, cs);
            if k - cs == n {
                return Some((cs, k));
            }
        } else {
            k += 1;
        }
    }
    None
}

/// Splits a label's text into plain text and inline code on balanced
/// backtick runs (an opening run and the next run of the same length);
/// `None` when there is no such pair and the text stays as it is.
pub fn split_text_on_backticks(text: &[u8]) -> (r: Option<Vec<LabelPiece>>)
    ensures
        r is None <==> backtick_pairs(text@, 0).len() == 0,
        r matches Some(v) ==> v@ == pieces(text@.len() as int, backtick_pairs(text@, 0), 0, true),
{
    let ghost t = text@;
    let len = text.len();
    if crate::line_index::memchr_find(BACKTICK, text).is_none() {
        proof {
            lemma_no_backtick(t, 0);
        }
        return None;
    }
    let mut out: Vec<LabelPiece> = Vec::new();
    let mut cursor: usize = 0;
    let mut any = false;
    let mut i: usize = 0;
    let ghost found: Seq<(int, int, int, int)> = Seq::empty();
    while i < len
        invariant
            cursor <= i <= len,
            len == t.len(),
            t == text@,
            backtick_pairs(t, 0) == found + backtick_pairs(t, i as int),
            any == (found.len() > 0),
            pieces(len as int, backtick_pairs(t, 0), 0, true) == out@ + pieces(
                len as int,
                backtick_pairs(t, i as int),
                cursor as int,
                true,
            ),
        decreases len - i,
    {
        if text[i] != BACKTICK {
            i += 1;
            continue;
        }
        let open_start = i;
        let open_end = scan_run_end(text, i);
        proof {
            lemma_run_end(t, i as int);
            lemma_close_run(t, open_end as int, open_end - open_start);
        }
        match find_close_run(text, open_end, open_end - open_start) {
            Some((cs, ce)) => {
                let ghost p = (open_start as int, open_end as int, cs as int, ce as int);
                let ghost rest = backtick_pairs(t, ce as int);
                let ghost old_out = out@;
                assert(backtick_pairs(t, i as int) == seq![p] + rest);
                assert((seq![p] + rest).drop_first() =~= rest);
                if open_start > cursor {
                    out.push(LabelPiece::Text { start: cursor, end: open_start });
                }
                out.push(
                    LabelPiece::InlineCode {
                        start: open_start,
                        end: ce,
                        code_start: open_end,
                        code_end: cs,
                    },
                );
                proof {
                    let lead = if p.0 > cursor {
                        seq![LabelPiece::Text { start: cursor, end: open_start }]
                    } else {
                        Seq::empty()
                    };
                    assert(out@ =~= old_out + lead + seq![
                        LabelPiece::InlineCode {
                            start: open_start,
                            end: ce,
                            code_start: open_end,
                            code_end: cs,
                        },
                    ]);
                    assert(found + (seq![p] + rest) =~= found.push(p) + rest);
                    found = found.push(p);
                }
                cursor = ce;
                i = ce;
                any = true;
            },
            None => {
                i = open_end;
            },
        }
    }
    if !any {
        assert(found =~= backtick_pairs(t, 0));
        return None;
    }
    if cursor < len {
        out.push(LabelPiece::Text { start: cursor, end: len });
    }
    assert(out@ =~= pieces(len as int, backtick_pairs(t, 0), 0, true));
    Some(out)
}

proof fn lemma_no_backtick(t: Seq<u8>, i: int)
    requires
        0 <= i,
        forall|k: int| 0 <= k < t.len() ==> t[k] != BACKTICK,
    ensures
        backtick_pairs(t, i).len() == 0,
    decreases rem(t, i),
{
    if 0 <= i < t.len() {
        lemma_no_backtick(t, i + 1);
    }
}

/// The length of the closed MDX expression that starts at `i`.
fn expr_len_from(text: &[u8], i: usize) -> (r: Option<usize>)
    requires
        i < text@.len() < usize::MAX,
    ensures
        as_int(r) == expression_len(text@.subrange(i as int, text@.len() as int)),
        r matches Some(n) ==> 0 < n <= text@.len() - i,
{
    let rest = vstd::slice::slice_subrange(text, i, text.len());
    match scan_mdx_inline_expression(rest) {
        None => None,
        Some((_, _, total)) => Some(total),
    }
}

/// Splits a label's text into plain text and MDX expressions on `{…}`
/// spans that the expression lexer closes; `None` when there is no such
/// span and the text stays as it is.
pub fn split_text_on_mdx_expressions(text: &[u8]) -> (r: Option<Vec<LabelPiece>>)
    requires
        text@.len() < usize::MAX,
    ensures
        r is None <==> expression_spans(text@, 0).len() == 0,
        r matches Some(v) ==> v@ == pieces(text@.len() as int, expression_spans(text@, 0), 0, false),
{
    let ghost t = text@;
    let len = text.len();
    if crate::line_index::memchr_find(LBRACE, text).is_none() {
        proof {
            lemma_no_brace(t, 0);
        }
        return None;
    }
    let mut out: Vec<LabelPiece> = Vec::new();
    let mut cursor: usize = 0;
    let mut any = false;
    let mut i: usize = 0;
    let ghost found: Seq<(int, int, int, int)> = Seq::empty();
    while i < len
        invariant
            cursor <= i <= len,
            len == t.len() < usize::MAX,
            t == text@,
            expression_spans(t, 0) == found + expression_spans(t, i as int),
            any == (found.len() > 0),
            pieces(len as int, expression_spans(t, 0), 0, false) == out@ + pieces(
                len as int,
                expression_spans(t, i as int),
                cursor as int,
                false,
            ),
        decreases len - i,
    {
        if text[i] != LBRACE {
            i += 1;
            continue;
        }
        let scanned = expr_len_from(text, i);
        match scanned {
            None => {
                i += 1;
            },
            Some(total) => {
                let ghost p = (i as int, i + 1, i + total - 1, i + total);
                let ghost tail = expression_spans(t, i + total);
                let ghost old_out = out@;
                assert(expression_spans(t, i as int) == seq![p] + tail);
                assert((seq![p] + tail).drop_first() =~= tail);
                if i > cursor {
                    out.push(LabelPiece::Text { start: cursor, end: i });
                }
                let piece = LabelPiece::Expression {
                    start: i,
                    end: i + total,
                    content_start: i + 1,
                    content_end: i + total - 1,
                };
                out.push(piece);
                proof {
                    let lead = if p.0 > cursor {
                        seq![LabelPiece::Text { start: cursor, end: i }]
                    } else {
                        Seq::empty()
                    };
                    assert(out@ =~= old_out + lead + seq![piece]);
                    assert(found + (seq![p] + tail) =~= found.push(p) + tail);
                    found = found.push(p);
                }
                cursor = i + total;
                i = i + total;
                any = true;
            },
        }
    }
    if !any {
        assert(found =~= expression_spans(t, 0));
        return None;
    }
    if cursor < len {
        out.push(LabelPiece::Text { start: cursor, end: len });
    }
    assert(out@ =~= pieces(len as int, expression_spans(t, 0), 0, false));
    Some(out)
}

proof fn lemma_no_brace(t: Seq<u8>, i: int)
    requires
        0 <= i,
        forall|k: int| 0 <= k < t.len() ==> t[k] != LBRACE,
    ensures
        expression_spans(t, i).len() == 0,
    decreases rem(t, i),
{
    if 0 <= i < t.len() {
        lemma_no_brace(t, i + 1);
    }
}

/// A piece of a label split on JSX tags, as byte ranges of its text.
#[derive(Debug, Clone, PartialEq, Eq)]
pub enum JsxPiece {
    /// Plain text `[start, end)`.
    Text { start: usize, end: usize },
    /// A JSX element named `name` spanning `[start, end)`; its text content is
    /// `[inner_start, inner_end)` (empty for a self-closing tag).
    Element { start: usize, end: usize, name: String, inner_start: usize, inner_end: usize },
}

/// A piece of a label split on JSX tags, with the element name as characters.
pub enum JsxPieceView {
    Text(int, int),
    Element(int, int, Seq<char>, int, int),
}

impl View for JsxPiece {
    type V = JsxPieceView;

    open spec fn view(&self) -> JsxPieceView {
        match self {
            JsxPiece::Text { start, end } => JsxPieceView::Text(*start as int, *end as int),
            JsxPiece::Element { start, end, name, inner_start, inner_end } => JsxPieceView::Element(
                *start as int,
                *end as int,
                name@,
                *inner_start as int,
                *inner_end as int,
            ),
        }
    }
}

/// The views of a list of JSX pieces.
pub open spec fn jsx_piece_views(v: Seq<JsxPiece>) -> Seq<JsxPieceView> {
    v.map_values(|p: JsxPiece| p@)
}

/// The length of the inline JSX tag that starts at `i`.
#[verifier::opaque]
pub open spec fn tag_len_at(t: Seq<u8>, i: int) -> Option<int> {
    inline_jsx_end(t.subrange(i, t.len() as int))
}

/// The characters of the tag `t[i..i + e]`.
pub open spec fn tag_text(t: Seq<u8>, i: int, e: int) -> Seq<char> {
    decode_utf8(t.subrange(i, i + e))
}

/// From `j` on, the first closing tag named `name`: its start and end.
pub open spec fn close_search(t: Seq<u8>, j: int, name: Seq<char>) -> Option<(int, int)>
    decreases rem(t, j),
{
    if j < 0 || j >= t.len() {
        None
    } else if t[j] != LT {
        close_search(t, j + 1, name)
    } else {
        match tag_len_at(t, j) {
            None => close_search(t, j + 1, name),
            Some(e) => if e <= 0 {
                None
            } else {
                let c = tag_text(t, j, e);
                if is_closing_tag(c) && element_name(c) == name {
                    Some((j, j + e))
                } else {
                    close_search(t, j + e, name)
                }
            },
        }
    }
}

/// The JSX elements of a label from `i` on, as (start, inner start, inner
/// end, end, name): a self-closing tag (ending in `/>`, or holding its own
/// closing tag), or an opening tag paired with the next closing tag of the
/// same name; closing tags alone and unpaired opening tags stay text.
pub open spec fn jsx_spans(t: Seq<u8>, i: int) -> Seq<(int, int, int, int, Seq<char>)>
    decreases rem(t, i),
{
    if i < 0 || i >= t.len() {
        Seq::empty()
    } else if t[i] != LT {
        jsx_spans(t, i + 1)
    } else {
        match tag_len_at(t, i) {
            None => jsx_spans(t, i + 1),
            Some(e) => if e <= 0 {
                Seq::empty()
            } else {
                let c = tag_text(t, i, e);
                let name = element_name(c);
                if is_closing_tag(c) {
                    jsx_spans(t, i + e)
                } else if self_closing(c) {
                    seq![(i, i + e, i + e, i + e, name)] + jsx_spans(t, i + e)
                } else {
                    match close_search(t, i + e, name) {
                        Some((cs, ce)) => if ce > i {
                            seq![(i, i + e, cs, ce, name)] + jsx_spans(t, ce)
                        } else {
                            Seq::empty()
                        },
                        None => jsx_spans(t, i + e),
                    }
                }
            },
        }
    }
}

/// The pieces that JSX spans cut a text of length `len` into from `cursor`
/// on: the text before each element, the element, and the text after the
/// last one; empty text is left out.
pub open spec fn jsx_pieces(len: int, spans: Seq<(int, int, int, int, Seq<char>)>, cursor: int) -> Seq<
    JsxPieceView,
>
    decreases spans.len(),
{
    if spans.len() == 0 {
        if cursor < len {
            seq![JsxPieceView::Text(cursor, len)]
        } else {
            Seq::empty()
        }
    } else {
        let p = spans[0];
        let lead = if p.0 > cursor {
            seq![JsxPieceView::Text(cursor, p.0)]
        } else {
            Seq::empty()
        };
        lead + seq![JsxPieceView::Element(p.0, p.3, p.4, p.1, p.2)] + jsx_pieces(
            len,
            spans.drop_first(),
            p.3,
        )
    }
}

/// The inline JSX tag at `i`, if there is one: its length and what it
/// parses to.
fn tag_at(text: &str, bytes: &[u8], i: usize) -> (r: Option<(usize, JsxElementData)>)
    requires
        bytes@ == text.spec_bytes(),
        i < bytes@.len() < i32::MAX,
        bytes@[i as int] == LT,
    ensures
        match tag_len_at(bytes@, i as int) {
            None => r is None,
            Some(e) => r matches Some((len, d)) && len == e && 0 < e <= bytes@.len() - i && {
                let c = tag_text(bytes@, i as int, e);
                &&& d.is_closing == is_closing_tag(c)
                &&& d.name@ == element_name(c)
                &&& d.is_self_closing == (!is_closing_tag(c) && self_closing(c))
            },
        },
{
    let ghost t = bytes@;
    let rest = vstd::slice::slice_subrange(bytes, i, bytes.len());
    let scanned = scan_mdx_inline_jsx(rest);
    proof {
        reveal(tag_len_at);
        lemma_inline_jsx_end(rest@);
    }
    match scanned {
        None => None,
        Some(e) => {
            let ghost sub = t.subrange(i as int, i + e);
            proof {
                encode_utf8_valid_utf8(text@);
                let k = i + e - 1;
                assert(t[k] == rest@[e - 1]);
                is_char_boundary_iff_not_is_continuation_byte(t, k);
                lemma_boundary_after_ascii(t, k);
                if k + 1 < t.len() {
                    is_char_boundary_iff_not_is_continuation_byte(t, k + 1);
                }
                assert(range_ok(t, i as int, e as int));
            }
            let tag = substr(text, i, e);
            proof {
                assert(tag.spec_bytes() == sub);
                encode_utf8_valid_utf8(tag@);
                encode_utf8_decode_utf8(tag@);
                assert(sub[0] == LT);
                assert(sub[sub.len() - 1] == rest@[e - 1]);
                lemma_ascii_ends(sub);
                lemma_decode_len(sub);
                let c = tag@;
                assert(c == tag_text(t, i as int, e as int));
                assert(c[0] == '<');
                assert(decode_utf8(sub) == c);
                assert(c.last() as u32 == 62);
                char_u32_cast(c.last(), 62);
                char_u32_cast('>', 62);
                assert(c.last() == '>');
                lemma_tag_parsable(c);
            }
            let d = parse_jsx_tag(tag);
            Some((e, d))
        },
    }
}

/// From `j` on, the first closing tag named `name`.
fn find_close_tag(text: &str, bytes: &[u8], j: usize, name: &str) -> (r: Option<(usize, usize)>)
    requires
        bytes@ == text.spec_bytes(),
        j <= bytes@.len() < i32::MAX,
    ensures
        match close_search(bytes@, j as int, name@) {
            None => r is None,
            Some((cs, ce)) => r == Some((cs as usize, ce as usize)) && j <= cs < ce <= bytes@.len(),
        },
{
    let len = bytes.len();
    let mut k = j;
    while k < len
        invariant
            j <= k <= len,
            len == bytes@.len() < i32::MAX,
            bytes@ == text.spec_bytes(),
            close_search(bytes@, k as int, name@) == close_search(bytes@, j as int, name@),
        decreases len - k,
    {
        if bytes[k] != LT {
            k += 1;
            continue;
        }
        match tag_at(text, bytes, k) {
            None => {
                k += 1;
            },
            Some((e, d)) => {
                if d.is_closing && str_eq(d.name.as_str(), name) {
                    return Some((k, k + e));
                }
                k += e;
            },
        }
    }
    None
}

/// Splits a label's text on JSX elements: a self-closing tag, or an opening
/// tag and the next closing tag of the same name with the text between
/// them as content; `None` when there is no such element and the text
/// stays as it is.
pub fn split_text_on_jsx_tags(text: &str) -> (r: Option<Vec<JsxPiece>>)
    requires
        text.spec_bytes().len() < i32::MAX,
    ensures
        r is None <==> jsx_spans(text.spec_bytes(), 0).len() == 0,
        r matches Some(v) ==> jsx_piece_views(v@) == jsx_pieces(
            text.spec_bytes().len() as int,
            jsx_spans(text.spec_bytes(), 0),
            0,
        ),
{
    let bytes = text.as_bytes();
    let ghost t = bytes@;
    let len = bytes.len();
    if crate::line_index::memchr_find(LT, bytes).is_none() {
        proof {
            lemma_no_lt(t, 0);
        }
        return None;
    }
    let mut out: Vec<JsxPiece> = Vec::new();
    let mut cursor: usize = 0;
    let mut any = false;
    let mut i: usize = 0;
    let ghost found: Seq<(int, int, int, int, Seq<char>)> = Seq::empty();
    assert(jsx_piece_views(out@) =~= Seq::<JsxPieceView>::empty());
    assert(Seq::<JsxPieceView>::empty() + jsx_pieces(len as int, jsx_spans(t, 0), 0) =~= jsx_pieces(
        len as int,
        jsx_spans(t, 0),
        0,
    ));
    while i < len
        invariant
            cursor <= i <= len,
            len == t.len() < i32::MAX,
            t == bytes@,
            bytes@ == text.spec_bytes(),
            jsx_spans(t, 0) == found + jsx_spans(t, i as int),
            any == (found.len() > 0),
            jsx_pieces(len as int, jsx_spans(t, 0), 0) == jsx_piece_views(out@) + jsx_pieces(
                len as int,
                jsx_spans(t, i as int),
                cursor as int,
            ),
        decreases len - i,
    {
        if bytes[i] != LT {
            i += 1;
            continue;
        }
        let (e, d) = match tag_at(text, bytes, i) {
            None => {
                i += 1;
                continue;
            },
            Some(x) => x,
        };
        if d.is_closing {
            i += e;
            continue;
        }
        let ghost old_out = jsx_piece_views(out@);
        let ghost name_v = d.name@;
        let (inner_start, inner_end, end) = if d.is_self_closing {
            (i + e, i + e, i + e)
        } else {
            match find_close_tag(text, bytes, i + e, d.name.as_str()) {
                None => {
                    i += e;
                    continue;
                },
                Some((cs, ce)) => (i + e, cs, ce),
            }
        };
        let ghost p = (i as int, inner_start as int, inner_end as int, end as int, name_v);
        let ghost tail = jsx_spans(t, end as int);
        assert(jsx_spans(t, i as int) == seq![p] + tail);
        assert((seq![p] + tail).drop_first() =~= tail);
        if i > cursor {
            out.push(JsxPiece::Text { start: cursor, end: i });
        }
        let piece = JsxPiece::Element { start: i, end, name: d.name, inner_start, inner_end };
        let ghost pv = piece@;
        out.push(piece);
        proof {
            let lead = if p.0 > cursor {
                seq![JsxPieceView::Text(cursor as int, i as int)]
            } else {
                Seq::empty()
            };
            assert(jsx_piece_views(out@) =~= old_out + lead + seq![pv]);
            assert(found + (seq![p] + tail) =~= found.push(p) + tail);
            found = found.push(p);
        }
        cursor = end;
        i = end;
        any = true;
    }
    if !any {
        assert(found =~= jsx_spans(t, 0));
        return None;
    }
    let ghost before = jsx_piece_views(out@);
    if cursor < len {
        out.push(JsxPiece::Text { start: cursor, end: len });
    }
    assert(jsx_piece_views(out@) =~= jsx_pieces(len as int, jsx_spans(t, 0), 0));
    Some(out)
}

proof fn lemma_no_lt(t: Seq<u8>, i: int)
    requires
        0 <= i,
        forall|k: int| 0 <= k < t.len() ==> t[k] != LT,
    ensures
        jsx_spans(t, i).len() == 0,
    decreases rem(t, i),
{
    if 0 <= i < t.len() {
        lemma_no_lt(t, i + 1);
    }
}

/// The byte range a label piece covers.
pub open spec fn piece_range(p: LabelPiece) -> (int, int) {
    match p {
        LabelPiece::Text { start, end } => (start as int, end as int),
        LabelPiece::InlineCode { start, end, .. } => (start as int, end as int),
        LabelPiece::Expression { start, end, .. } => (start as int, end as int),
    }
}

/// The pieces cover `[from, to)` one after the other, none of them empty.
pub open spec fn tiles(ps: Seq<LabelPiece>, from: int, to: int) -> bool
    decreases ps.len(),
{
    if ps.len() == 0 {
        from == to
    } else {
        let r = piece_range(ps[0]);
        r.0 == from && r.0 < r.1 && tiles(ps.drop_first(), r.1, to)
    }
}

/// Spans in order from `cursor` on, each non-empty, all within `len`.
pub open spec fn spans_ordered(spans: Seq<(int, int, int, int)>, cursor: int, len: int) -> bool
    decreases spans.len(),
{
    if spans.len() == 0 {
        0 <= cursor <= len
    } else {
        let p = spans[0];
        0 <= cursor <= p.0 && p.0 < p.3 <= len && spans_ordered(spans.drop_first(), p.3, len)
    }
}

proof fn lemma_pieces_tile(len: int, spans: Seq<(int, int, int, int)>, cursor: int, code: bool)
    requires
        spans_ordered(spans, cursor, len),
        len <= usize::MAX,
    ensures
        tiles(pieces(len, spans, cursor, code), cursor, len),
    decreases spans.len(),
{
    if spans.len() == 0 {
        if cursor < len {
            let ps = pieces(len, spans, cursor, code);
            assert(ps.drop_first() =~= Seq::<LabelPiece>::empty());
            assert(piece_range(ps[0]) == (cursor, len));
            assert(tiles(ps.drop_first(), len, len));
        }
    } else {
        let p = spans[0];
        lemma_pieces_tile(len, spans.drop_first(), p.3, code);
        let rest = pieces(len, spans.drop_first(), p.3, code);
        let mid = if code {
            LabelPiece::InlineCode {
                start: p.0 as usize,
                end: p.3 as usize,
                code_start: p.1 as usize,
                code_end: p.2 as usize,
            }
        } else {
            LabelPiece::Expression {
                start: p.0 as usize,
                end: p.3 as usize,
                content_start: p.1 as usize,
                content_end: p.2 as usize,
            }
        };
        assert((seq![mid] + rest).drop_first() =~= rest);
        assert(piece_range(mid) == (p.0, p.3));
        assert(tiles(seq![mid] + rest, p.0, len));
        if p.0 > cursor {
            let lead = seq![LabelPiece::Text { start: cursor as usize, end: p.0 as usize }];
            assert((lead + seq![mid] + rest).drop_first() =~= seq![mid] + rest);
            assert(piece_range(lead[0]) == (cursor, p.0));
            assert(tiles(lead + seq![mid] + rest, cursor, len));
            assert(pieces(len, spans, cursor, code) == lead + seq![mid] + rest);
        } else {
            assert(Seq::<LabelPiece>::empty() + seq![mid] + rest =~= seq![mid] + rest);
            assert(pieces(len, spans, cursor, code) == seq![mid] + rest);
        }
    }
}

pub(crate) proof fn lemma_backtick_pairs_ordered(t: Seq<u8>, i: int)
    requires
        0 <= i <= t.len(),
    ensures
        spans_ordered(backtick_pairs(t, i), i, t.len() as int),
    decreases rem(t, i),
{
    if i < t.len() {
        if t[i] != BACKTICK {
            lemma_backtick_pairs_ordered(t, i + 1);
            lemma_ordered_from_later(backtick_pairs(t, i + 1), i, i + 1, t.len() as int);
        } else {
            let oe = run_end(t, i);
            lemma_run_end(t, i);
            lemma_close_run(t, oe, oe - i);
            match close_run(t, oe, oe - i) {
                Some((cs, ce)) => {
                    lemma_backtick_pairs_ordered(t, ce);
                    let sp = seq![(i, oe, cs, ce)] + backtick_pairs(t, ce);
                    assert(sp.drop_first() =~= backtick_pairs(t, ce));
                },
                None => {
                    lemma_backtick_pairs_ordered(t, oe);
                    lemma_ordered_from_later(backtick_pairs(t, oe), i, oe, t.len() as int);
                },
            }
        }
    }
}

proof fn lemma_ordered_from_later(spans: Seq<(int, int, int, int)>, c0: int, c1: int, len: int)
    requires
        0 <= c0 <= c1,
        spans_ordered(spans, c1, len),
    ensures
        spans_ordered(spans, c0, len),
{
}

pub(crate) proof fn lemma_expression_spans_ordered(t: Seq<u8>, i: int)
    requires
        0 <= i <= t.len(),
    ensures
        spans_ordered(expression_spans(t, i), i, t.len() as int),
    decreases rem(t, i),
{
    if i < t.len() {
        if t[i] != LBRACE {
            lemma_expression_spans_ordered(t, i + 1);
            lemma_ordered_from_later(expression_spans(t, i + 1), i, i + 1, t.len() as int);
        } else {
            match expression_len(t.subrange(i, t.len() as int)) {
                Some(total) => {
                    if 0 < total <= t.len() - i {
                        lemma_expression_spans_ordered(t, i + total);
                        let sp = seq![(i, i + 1, i + total - 1, i + total)] + expression_spans(
                            t,
                            i + total,
                        );
                        assert(sp.drop_first() =~= expression_spans(t, i + total));
                    }
                },
                None => {
                    lemma_expression_spans_ordered(t, i + 1);
                    lemma_ordered_from_later(expression_spans(t, i + 1), i, i + 1, t.len() as int);
                },
            }
        }
    }
}

/// Splitting a label on backtick pairs loses nothing: the pieces cover the
/// whole text, one after the other, none of them empty.
pub proof fn law_backtick_pieces_tile(t: Seq<u8>)
    requires
        t.len() <= usize::MAX,
    ensures
        tiles(pieces(t.len() as int, backtick_pairs(t, 0), 0, true), 0, t.len() as int),
{
    lemma_backtick_pairs_ordered(t, 0);
    lemma_pieces_tile(t.len() as int, backtick_pairs(t, 0), 0, true);
}

/// Splitting a label on MDX expressions loses nothing: the pieces cover the
/// whole text, one after the other, none of them empty.
pub proof fn law_expression_pieces_tile(t: Seq<u8>)
    requires
        t.len() <= usize::MAX,
    ensures
        tiles(pieces(t.len() as int, expression_spans(t, 0), 0, false), 0, t.len() as int),
{
    lemma_expression_spans_ordered(t, 0);
    lemma_pieces_tile(t.len() as int, expression_spans(t, 0), 0, false);
}

/// The byte range a JSX piece covers.
pub open spec fn jsx_range(p: JsxPieceView) -> (int, int) {
    match p {
        JsxPieceView::Text(a, b) => (a, b),
        JsxPieceView::Element(a, b, _, _, _) => (a, b),
    }
}

/// The JSX pieces cover `[from, to)` one after the other, none of them
/// empty.
pub open spec fn jsx_tiles(ps: Seq<JsxPieceView>, from: int, to: int) -> bool
    decreases ps.len(),
{
    if ps.len() == 0 {
        from == to
    } else {
        let r = jsx_range(ps[0]);
        r.0 == from && r.0 < r.1 && jsx_tiles(ps.drop_first(), r.1, to)
    }
}

/// JSX spans in order from `cursor` on, each non-empty, all within `len`.
pub open spec fn jsx_spans_ordered(
    spans: Seq<(int, int, int, int, Seq<char>)>,
    cursor: int,
    len: int,
) -> bool
    decreases spans.len(),
{
    if spans.len() == 0 {
        0 <= cursor <= len
    } else {
        let p = spans[0];
        0 <= cursor <= p.0 && p.0 < p.3 <= len && jsx_spans_ordered(spans.drop_first(), p.3, len)
    }
}

proof fn lemma_tag_len_at(t: Seq<u8>, i: int)
    requires
        0 <= i <= t.len(),
    ensures
        tag_len_at(t, i) matches Some(e) ==> 0 < e <= t.len() - i,
{
    reveal(tag_len_at);
    lemma_inline_jsx_end(t.subrange(i, t.len() as int));
}

proof fn lemma_close_search(t: Seq<u8>, j: int, name: Seq<char>)
    requires
        0 <= j <= t.len(),
    ensures
        close_search(t, j, name) matches Some((cs, ce)) ==> j <= cs < ce <= t.len(),
    decreases rem(t, j),
{
    if j < t.len() {
        if t[j] != LT {
            lemma_close_search(t, j + 1, name);
        } else {
            lemma_tag_len_at(t, j);
            match tag_len_at(t, j) {
                None => {
                    lemma_close_search(t, j + 1, name);
                },
                Some(e) => {
                    if e > 0 {
                        let c = tag_text(t, j, e);
                        if !(is_closing_tag(c) && element_name(c) == name) {
                            lemma_close_search(t, j + e, name);
                        }
                    }
                },
            }
        }
    }
}

proof fn lemma_jsx_ordered_from_later(
    spans: Seq<(int, int, int, int, Seq<char>)>,
    c0: int,
    c1: int,
    len: int,
)
    requires
        0 <= c0 <= c1,
        jsx_spans_ordered(spans, c1, len),
    ensures
        jsx_spans_ordered(spans, c0, len),
{
}

pub(crate) proof fn lemma_jsx_spans_ordered(t: Seq<u8>, i: int)
    requires
        0 <= i <= t.len(),
    ensures
        jsx_spans_ordered(jsx_spans(t, i), i, t.len() as int),
    decreases rem(t, i),
{
    if i < t.len() {
        if t[i] != LT {
            lemma_jsx_spans_ordered(t, i + 1);
            lemma_jsx_ordered_from_later(jsx_spans(t, i + 1), i, i + 1, t.len() as int);
        } else {
            lemma_tag_len_at(t, i);
            match tag_len_at(t, i) {
                None => {
                    lemma_jsx_spans_ordered(t, i + 1);
                    lemma_jsx_ordered_from_later(jsx_spans(t, i + 1), i, i + 1, t.len() as int);
                },
                Some(e) => {
                    let c = tag_text(t, i, e);
                    let name = element_name(c);
                    if is_closing_tag(c) {
                        lemma_jsx_spans_ordered(t, i + e);
                        lemma_jsx_ordered_from_later(jsx_spans(t, i + e), i, i + e, t.len() as int);
                    } else if self_closing(c) {
                        lemma_jsx_spans_ordered(t, i + e);
                        let sp = seq![(i, i + e, i + e, i + e, name)] + jsx_spans(t, i + e);
                        assert(sp.drop_first() =~= jsx_spans(t, i + e));
                    } else {
                        lemma_close_search(t, i + e, name);
                        match close_search(t, i + e, name) {
                            Some((cs, ce)) => {
                                lemma_jsx_spans_ordered(t, ce);
                                let sp = seq![(i, i + e, cs, ce, name)] + jsx_spans(t, ce);
                                assert(sp.drop_first() =~= jsx_spans(t, ce));
                            },
                            None => {
                                lemma_jsx_spans_ordered(t, i + e);
                                lemma_jsx_ordered_from_later(
                                    jsx_spans(t, i + e),
                                    i,
                                    i + e,
                                    t.len() as int,
                                );
                            },
                        }
                    }
                },
            }
        }
    }
}

proof fn lemma_jsx_pieces_tile(len: int, spans: Seq<(int, int, int, int, Seq<char>)>, cursor: int)
    requires
        jsx_spans_ordered(spans, cursor, len),
    ensures
        jsx_tiles(jsx_pieces(len, spans, cursor), cursor, len),
    decreases spans.len(),
{
    if spans.len() == 0 {
        if cursor < len {
            let ps = jsx_pieces(len, spans, cursor);
            assert(ps.drop_first() =~= Seq::<JsxPieceView>::empty());
            assert(jsx_tiles(ps.drop_first(), len, len));
        }
    } else {
        let p = spans[0];
        lemma_jsx_pieces_tile(len, spans.drop_first(), p.3);
        let rest = jsx_pieces(len, spans.drop_first(), p.3);
        let mid = JsxPieceView::Element(p.0, p.3, p.4, p.1, p.2);
        assert((seq![mid] + rest).drop_first() =~= rest);
        assert(jsx_tiles(seq![mid] + rest, p.0, len));
        if p.0 > cursor {
            let lead = seq![JsxPieceView::Text(cursor, p.0)];
            assert((lead + seq![mid] + rest).drop_first() =~= seq![mid] + rest);
            assert(jsx_tiles(lead + seq![mid] + rest, cursor, len));
            assert(jsx_pieces(len, spans, cursor) == lead + seq![mid] + rest);
        } else {
            assert(Seq::<JsxPieceView>::empty() + seq![mid] + rest =~= seq![mid] + rest);
            assert(jsx_pieces(len, spans, cursor) == seq![mid] + rest);
        }
    }
}

/// Splitting a label on JSX elements loses nothing: the pieces cover the
/// whole text, one after the other, none of them empty.
pub proof fn law_jsx_pieces_tile(t: Seq<u8>)
    ensures
        jsx_tiles(jsx_pieces(t.len() as int, jsx_spans(t, 0), 0), 0, t.len() as int),
{
    lemma_jsx_spans_ordered(t, 0);
    lemma_jsx_pieces_tile(t.len() as int, jsx_spans(t, 0), 0);
}


/// A run of backticks (byte 96) starts at `a`: a backtick with no backtick
/// right before it.
pub open spec fn run_start(t: Seq<u8>, a: int) -> bool {
    0 <= a < t.len() && t[a] == 96u8 && (a == 0 || t[a - 1] != 96u8)
}

/// No run of backticks starting in `t[s..e]` is followed, within `t[s..e]`,
/// by a later run of the same length.
pub open spec fn no_pair_within(t: Seq<u8>, s: int, e: int) -> bool {
    forall|a: int, j: int|
        #![trigger run_start(t, a), run_start(t, j)]
        s <= a && run_start(t, a) && run_start(t, j) && run_end(t, a) <= j && run_end(t, j) <= e
            ==> run_end(t, j) - j != run_end(t, a) - a
}

/// `[s, e)` is inline code: a run of backticks `[s, cs)`, code `[cs, ce)`,
/// and a closing run `[ce, e)` of the same length, the first run of that
/// length after the opening one.
pub open spec fn code_pair(t: Seq<u8>, s: int, cs: int, ce: int, e: int) -> bool {
    &&& run_start(t, s)
    &&& run_end(t, s) == cs
    &&& cs <= ce
    &&& run_start(t, ce)
    &&& run_end(t, ce) == e
    &&& e - ce == cs - s
    &&& forall|a: int| cs <= a < ce && #[trigger] run_start(t, a) ==> run_end(t, a) - a != cs - s
}

/// `j` is not inside a run of backticks (past its first one).
pub open spec fn not_mid_run(t: Seq<u8>, j: int) -> bool {
    !(0 < j < t.len() && t[j] == 96u8 && t[j - 1] == 96u8)
}

proof fn lemma_run_end_stops(t: Seq<u8>, i: int)
    requires
        0 <= i,
    ensures
        run_end(t, i) < t.len() ==> t[run_end(t, i)] != 96u8,
        i < run_end(t, i) ==> t[run_end(t, i) - 1] == 96u8,
    decreases rem(t, i),
{
    lemma_run_end(t, i);
    if 0 <= i < t.len() && t[i] == BACKTICK {
        lemma_run_end_stops(t, i + 1);
    }
}

/// Where no run of length `n` is found from `j` on, no run from `j` on is
/// `n` long; a found run ends where its backticks end.
proof fn lemma_close_run_runs(t: Seq<u8>, j: int, n: int)
    requires
        0 <= j,
        not_mid_run(t, j),
    ensures
        close_run(t, j, n) is None ==> forall|a: int| j <= a && #[trigger] run_start(t, a) ==> run_end(t, a) - a != n,
        close_run(t, j, n) matches Some((cs, ce)) ==> ce == run_end(t, cs) && not_mid_run(t, ce)
            && run_start(t, cs) && ce - cs == n && forall|a: int|
            j <= a < cs && #[trigger] run_start(t, a) ==> run_end(t, a) - a != n,
    decreases rem(t, j),
{
    if 0 <= j < t.len() {
        lemma_run_end(t, j);
        lemma_run_end_stops(t, j);
        if t[j] == BACKTICK {
            let ce = run_end(t, j);
            if ce - j != n {
                lemma_close_run_runs(t, ce, n);
                assert forall|a: int| j <= a && #[trigger] run_start(t, a) && close_run(t, j, n) is None implies run_end(t, a) - a != n by {
                    if a < ce && a > j {
                        assert(t[a - 1] == 96u8);
                    }
                }
                if let Some((cs, ce2)) = close_run(t, j, n) {
                    assert forall|a: int| j <= a < cs && #[trigger] run_start(t, a) implies run_end(t, a) - a != n by {
                        if a < ce && a > j {
                            assert(t[a - 1] == 96u8);
                        }
                    }
                }
            } else {
                lemma_run_end_stops(t, j);
            }
        } else {
            lemma_close_run_runs(t, j + 1, n);
        }
    }
}

/// From a point not inside a run, the text before the first pair holds no
/// same-length runs, and the pairs after the first are those from its end.
proof fn lemma_backtick_gap(t: Seq<u8>, c: int)
    requires
        0 <= c,
        not_mid_run(t, c),
    ensures
        ({
            let sp = backtick_pairs(t, c);
            let g = if sp.len() > 0 {
                sp[0].0
            } else {
                t.len() as int
            };
            &&& no_pair_within(t, c, g)
            &&& sp.len() > 0 ==> sp.drop_first() == backtick_pairs(t, sp[0].3) && not_mid_run(t, sp[0].3)
            &&& sp.len() > 0 ==> code_pair(t, sp[0].0, sp[0].1, sp[0].2, sp[0].3)
        }),
    decreases rem(t, c),
{
    let sp = backtick_pairs(t, c);
    if c < t.len() {
        if t[c] != BACKTICK {
            lemma_backtick_gap(t, c + 1);
        } else {
            let oe = run_end(t, c);
            lemma_run_end(t, c);
            lemma_run_end_stops(t, c);
            lemma_close_run(t, oe, oe - c);
            lemma_close_run_runs(t, oe, oe - c);
            match close_run(t, oe, oe - c) {
                Some((cs, ce)) => {
                    assert(sp == seq![(c, oe, cs, ce)] + backtick_pairs(t, ce));
                    assert(sp.drop_first() =~= backtick_pairs(t, ce));
                    assert forall|a: int, j: int|
                        #![trigger run_start(t, a), run_start(t, j)]
                        c <= a && run_start(t, a) && run_start(t, j) && run_end(t, a) <= j && run_end(t, j) <= c
                            implies run_end(t, j) - j != run_end(t, a) - a by {
                        lemma_run_end(t, a);
                        lemma_run_end(t, j);
                    }
                },
                None => {
                    lemma_backtick_gap(t, oe);
                    let g = if sp.len() > 0 {
                        sp[0].0
                    } else {
                        t.len() as int
                    };
                    assert forall|a: int, j: int|
                        #![trigger run_start(t, a), run_start(t, j)]
                        c <= a && run_start(t, a) && run_start(t, j) && run_end(t, a) <= j && run_end(t, j) <= g
                            implies run_end(t, j) - j != run_end(t, a) - a by {
                        lemma_run_end(t, a);
                        if a == c {
                            assert(run_end(t, a) == oe);
                        } else if a < oe {
                            assert(t[a - 1] == 96u8);
                        }
                    }
                },
            }
        }
    }
}

proof fn lemma_backtick_text_pieces(t: Seq<u8>, spans: Seq<(int, int, int, int)>, c: int)
    requires
        t.len() <= usize::MAX,
        0 <= c <= t.len(),
        not_mid_run(t, c),
        spans == backtick_pairs(t, c),
    ensures
        forall|k: int|
            0 <= k < pieces(t.len() as int, spans, c, true).len() ==> (#[trigger] pieces(
                t.len() as int,
                spans,
                c,
                true,
            )[k] matches LabelPiece::Text { start, end } ==> no_pair_within(t, start as int, end as int)),
        forall|k: int|
            0 <= k < pieces(t.len() as int, spans, c, true).len() ==> (#[trigger] pieces(
                t.len() as int,
                spans,
                c,
                true,
            )[k] matches LabelPiece::InlineCode { start, end, code_start, code_end } ==> code_pair(
                t,
                start as int,
                code_start as int,
                code_end as int,
                end as int,
            )),
    decreases spans.len(),
{
    let len = t.len() as int;
    let ps = pieces(len, spans, c, true);
    lemma_backtick_gap(t, c);
    lemma_backtick_pairs_ordered(t, c);
    if spans.len() > 0 {
        let p = spans[0];
        lemma_backtick_text_pieces(t, spans.drop_first(), p.3);
        let rest = pieces(len, spans.drop_first(), p.3, true);
        let lead = if p.0 > c {
            seq![LabelPiece::Text { start: c as usize, end: p.0 as usize }]
        } else {
            Seq::empty()
        };
        let mid = LabelPiece::InlineCode {
            start: p.0 as usize,
            end: p.3 as usize,
            code_start: p.1 as usize,
            code_end: p.2 as usize,
        };
        assert(ps == lead + seq![mid] + rest);
        assert forall|k: int| 0 <= k < ps.len() implies (#[trigger] ps[k] matches LabelPiece::Text { start, end }
            ==> no_pair_within(t, start as int, end as int)) && (ps[k] matches LabelPiece::InlineCode {
            start,
            end,
            code_start,
            code_end,
        } ==> code_pair(t, start as int, code_start as int, code_end as int, end as int)) by {
            if k >= lead.len() + 1 {
                assert(ps[k] == rest[k - lead.len() - 1]);
            } else if k == lead.len() {
                assert(ps[k] == mid);
            } else {
                assert(ps[k] == lead[k]);
            }
        }
    }
}

/// Splitting on backticks pairs every run with the next run of the same
/// length: no text piece of the split holds a run of backticks followed,
/// in the same piece, by a later run of the same length, and each inline
/// code piece is a run, its code, and the first later run of that length.
pub proof fn law_backtick_text_holds_no_pair(t: Seq<u8>)
    requires
        t.len() <= usize::MAX,
    ensures
        forall|k: int|
            0 <= k < pieces(t.len() as int, backtick_pairs(t, 0), 0, true).len() ==> (#[trigger] pieces(
                t.len() as int,
                backtick_pairs(t, 0),
                0,
                true,
            )[k] matches LabelPiece::InlineCode { start, end, code_start, code_end } ==> code_pair(
                t,
                start as int,
                code_start as int,
                code_end as int,
                end as int,
            )),
        forall|k: int|
            0 <= k < pieces(t.len() as int, backtick_pairs(t, 0), 0, true).len() ==> (#[trigger] pieces(
                t.len() as int,
                backtick_pairs(t, 0),
                0,
                true,
            )[k] matches LabelPiece::Text { start, end } ==> no_pair_within(t, start as int, end as int)),
{
    lemma_backtick_text_pieces(t, backtick_pairs(t, 0), 0);
}

} // verus!
