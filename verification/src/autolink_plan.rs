//! The nodes that a text node holding literal autolinks is split into:
//! the text before each link, the link (its target and displayed text
//! taken from the source when an escape in the URL rewrote the text), the
//! trail of punctuation after a URL when it stays a node of its own, and
//! the text after the last link; each with a source span when the link
//! construct (not the find-and-replace fallback) produced it. Pieces are
//! byte ranges of the text; source spans are relative to the text node's
//! source start.
use vstd::prelude::*;
use vstd::string::*;
use vstd::utf8::*;
use crate::autolink_pass::{
    Replacement, autolink_replacements, candidates, map_view, repl_ok, replacement_views,
    replacements_from,
};
use crate::source_map::{
    MapResult, blank_end, in_source, lemma_blank_end, lemma_quote_markers_end,
    lemma_trailing_blanks_end, line_col_from, line_col_in, map_from, positions, source_pos,
    text_source_map, text_to_source_map, trailing_blanks_end, url_in_source,
};
use crate::text::str_from_utf8;

verus! {

/// A span of the source with the line and column of both ends.
#[derive(Debug, Clone, Copy, PartialEq, Eq)]
pub struct SourceSpan {
    pub start: usize,
    pub end: usize,
    pub start_line: u32,
    pub start_column: u32,
    pub end_line: u32,
    pub end_column: u32,
}

/// A node that an autolinked text node is split into.
#[derive(Debug, Clone, PartialEq, Eq)]
pub enum AutolinkNode {
    /// Text `[start, end)` of the original text.
    Text { start: usize, end: usize, position: Option<SourceSpan> },
    /// A link over `[start, end)` of the text to `url`; its displayed text is
    /// `url` when `from_source` (the raw source bytes), else the text range.
    Link { start: usize, end: usize, url: String, from_source: bool, position: Option<SourceSpan> },
}

/// A node of the split, with the link target as characters.
pub enum NodeView {
    Text(int, int, Option<SourceSpan>),
    Link(int, int, Seq<char>, bool, Option<SourceSpan>),
}

impl View for AutolinkNode {
    type V = NodeView;

    open spec fn view(&self) -> NodeView {
        match self {
            AutolinkNode::Text { start, end, position } => NodeView::Text(
                *start as int,
                *end as int,
                *position,
            ),
            AutolinkNode::Link { start, end, url, from_source, position } => NodeView::Link(
                *start as int,
                *end as int,
                url@,
                *from_source,
                *position,
            ),
        }
    }
}

/// The views of a list of nodes.
pub open spec fn node_views(v: Seq<AutolinkNode>) -> Seq<NodeView> {
    v.map_values(|n: AutolinkNode| n@)
}

/// The source position where text position `pos` begins being represented:
/// just after the source byte of the previous text byte (so escapes
/// consumed before a byte belong to the span that ends there).
pub open spec fn chunk_src(map: Option<Seq<int>>, pos: int) -> int {
    match map {
        Some(m) => if pos == 0 {
            0
        } else {
            m[pos - 1] + 1
        },
        None => pos,
    }
}

/// The span of the source from `a` to `b`, with lines and columns counted
/// from `(sl, sc)` at the source start.
pub open spec fn span_of(src: Seq<u8>, a: int, b: int, sl: u32, sc: u32) -> SourceSpan {
    let p = line_col_from(src, 0, a, sl as int, sc as int);
    let q = line_col_from(src, 0, b, sl as int, sc as int);
    SourceSpan {
        start: a as usize,
        end: b as usize,
        start_line: p.0 as u32,
        start_column: p.1 as u32,
        end_line: q.0 as u32,
        end_column: q.1 as u32,
    }
}

/// A replacement's URL bytes do not appear in the source span.
pub open spec fn mismatch(t: Seq<u8>, src: Seq<u8>, r: (int, int, int, Seq<char>, bool, bool, bool)) -> bool {
    !in_source(src, t.subrange(r.0, r.2))
}

/// The raw source text of a URL that the construct tokenized on source
/// bytes which an escape rewrote in the text.
pub open spec fn raw_source_url(
    t: Seq<u8>,
    src: Seq<u8>,
    map: Option<Seq<int>>,
    r: (int, int, int, Seq<char>, bool, bool, bool),
) -> Option<Seq<char>> {
    if !r.4 && !r.6 && !r.5 && mismatch(t, src, r) {
        match map {
            Some(m) => {
                let u = src.subrange(m[r.0], m[r.2]);
                if valid_utf8(u) {
                    Some(decode_utf8(u))
                } else {
                    None
                }
            },
            None => None,
        }
    } else {
        None
    }
}

/// An email whose source has a real escape right before its local part.
pub open spec fn email_escape_before(
    t: Seq<u8>,
    src: Seq<u8>,
    map: Option<Seq<int>>,
    r: (int, int, int, Seq<char>, bool, bool, bool),
) -> bool {
    r.4 && match map {
        Some(m) => {
            let ss = m[r.0];
            ss > 0 && src[ss - 1] == 92 && (r.0 == 0 || t[r.0 - 1] != 92)
        },
        None => false,
    }
}

/// The link gets a source span: the construct path produced it.
pub open spec fn with_position(
    t: Seq<u8>,
    src: Seq<u8>,
    map: Option<Seq<int>>,
    r: (int, int, int, Seq<char>, bool, bool, bool),
) -> bool {
    let email_fnr = r.4 && (r.5 || mismatch(t, src, r) || email_escape_before(t, src, map, r));
    !r.6 && !r.5 && !email_fnr && (raw_source_url(t, src, map, r) is Some || !mismatch(t, src, r))
}

/// The replacement went through find-and-replace without raw source
/// bytes, so the text after the last link has no span.
pub open spec fn rewritten(
    t: Seq<u8>,
    src: Seq<u8>,
    map: Option<Seq<int>>,
    r: (int, int, int, Seq<char>, bool, bool, bool),
) -> bool {
    if r.4 {
        r.5 || mismatch(t, src, r) || email_escape_before(t, src, map, r)
    } else {
        r.5 || (mismatch(t, src, r) && map is None)
    }
}

/// A source position that a span may use: within the source.
pub open spec fn pos_ok(src: Seq<u8>, p: int) -> bool {
    0 <= p <= src.len()
}

/// The source position where the link over `[r.0, r.2)` starts and ends:
/// the raw source bytes of the URL when they were recovered, else the
/// positions where its text begins and ends being represented.
pub open spec fn link_src(
    t: Seq<u8>,
    src: Seq<u8>,
    map: Option<Seq<int>>,
    r: (int, int, int, Seq<char>, bool, bool, bool),
) -> (int, int) {
    let s_src = match map {
        Some(m) => m[r.0],
        None => r.0,
    };
    let e_src = if raw_source_url(t, src, map, r) is Some {
        map->0[r.2]
    } else {
        chunk_src(map, r.2)
    };
    (s_src, e_src)
}

/// Whether the punctuation trail after the URL stays a text node of its own.
pub open spec fn split_trail(t: Seq<u8>, r: (int, int, int, Seq<char>, bool, bool, bool)) -> bool {
    r.1 > r.2 && (r.6 || r.1 >= t.len() || t[r.1] == 10 || t[r.1] == 13)
}

/// The spans of a replacement's nodes all lie within the source (always so
/// when it gets no span).
pub open spec fn step_ok(
    t: Seq<u8>,
    src: Seq<u8>,
    map: Option<Seq<int>>,
    r: (int, int, int, Seq<char>, bool, bool, bool),
    cursor: int,
) -> bool {
    with_position(t, src, map, r) ==> {
        &&& pos_ok(src, chunk_src(map, cursor))
        &&& pos_ok(src, chunk_src(map, r.0))
        &&& pos_ok(src, link_src(t, src, map, r).0)
        &&& pos_ok(src, link_src(t, src, map, r).1)
        &&& pos_ok(src, chunk_src(map, r.2))
        &&& pos_ok(src, chunk_src(map, r.1))
    }
}

/// The nodes of one replacement with the text consumed up to `cursor`: the
/// text before it, the link, and the trail when it stays apart.
pub open spec fn step_nodes(
    t: Seq<u8>,
    src: Seq<u8>,
    map: Option<Seq<int>>,
    r: (int, int, int, Seq<char>, bool, bool, bool),
    cursor: int,
    sl: u32,
    sc: u32,
) -> Seq<NodeView> {
    let (s, raw_e, e) = (r.0, r.1, r.2);
    let raw = raw_source_url(t, src, map, r);
    let wp = with_position(t, src, map, r);
    let ls = link_src(t, src, map, r);
    let chunk = if s > cursor {
        seq![
            NodeView::Text(
                cursor,
                s,
                if wp {
                    Some(span_of(src, chunk_src(map, cursor), chunk_src(map, s), sl, sc))
                } else {
                    None
                },
            ),
        ]
    } else {
        Seq::empty()
    };
    let link = NodeView::Link(
        s,
        e,
        if raw is Some {
            raw->0
        } else {
            r.3
        },
        raw is Some,
        if wp {
            Some(span_of(src, ls.0, ls.1, sl, sc))
        } else {
            None
        },
    );
    let trail = if split_trail(t, r) {
        seq![
            NodeView::Text(
                e,
                raw_e,
                if wp {
                    Some(span_of(src, chunk_src(map, e), chunk_src(map, raw_e), sl, sc))
                } else {
                    None
                },
            ),
        ]
    } else {
        Seq::empty()
    };
    chunk + seq![link] + trail
}

/// Where the text consumed so far ends after a replacement.
pub open spec fn step_cursor(t: Seq<u8>, r: (int, int, int, Seq<char>, bool, bool, bool)) -> int {
    if split_trail(t, r) {
        r.1
    } else {
        r.2
    }
}

/// The nodes for replacements `k..` with the text consumed up to `cursor`,
/// and the cursor after them; `None` where a span would lie past the
/// source (with no map back to it).
pub open spec fn plan_from(
    t: Seq<u8>,
    src: Seq<u8>,
    map: Option<Seq<int>>,
    rs: Seq<(int, int, int, Seq<char>, bool, bool, bool)>,
    k: int,
    cursor: int,
    sl: u32,
    sc: u32,
) -> Option<(Seq<NodeView>, int)>
    decreases rs.len() - k,
{
    if k < 0 || k >= rs.len() {
        Some((Seq::empty(), cursor))
    } else if !step_ok(t, src, map, rs[k], cursor) {
        None
    } else {
        match plan_from(t, src, map, rs, k + 1, step_cursor(t, rs[k]), sl, sc) {
            None => None,
            Some(rest) => Some((step_nodes(t, src, map, rs[k], cursor, sl, sc) + rest.0, rest.1)),
        }
    }
}

/// The nodes a text node with replacements `rs` is split into: those of
/// the replacements, then the text after the last one, with a span only
/// when no `[` was open before any link and no replacement was rewritten.
pub open spec fn autolink_plan(
    t: Seq<u8>,
    src: Seq<u8>,
    map: Option<Seq<int>>,
    rs: Seq<(int, int, int, Seq<char>, bool, bool, bool)>,
    sl: u32,
    sc: u32,
) -> Option<Seq<NodeView>> {
    match plan_from(t, src, map, rs, 0, 0, sl, sc) {
        None => None,
        Some((body, cursor)) => if cursor < t.len() {
            let any_open = exists|k: int| 0 <= k < rs.len() && (#[trigger] rs[k]).6;
            let any_rewritten = exists|k: int|
                0 <= k < rs.len() && rewritten(t, src, map, #[trigger] rs[k]);
            let wp = !any_open && !any_rewritten;
            if wp && !(pos_ok(src, chunk_src(map, cursor)) && pos_ok(
                src,
                chunk_src(map, t.len() as int),
            )) {
                None
            } else {
                Some(
                    body + seq![
                        NodeView::Text(
                            cursor,
                            t.len() as int,
                            if wp {
                                Some(
                                    span_of(
                                        src,
                                        chunk_src(map, cursor),
                                        chunk_src(map, t.len() as int),
                                        sl,
                                        sc,
                                    ),
                                )
                            } else {
                                None
                            },
                        ),
                    ],
                )
            }
        } else {
            Some(body)
        },
    }
}

/// A map from text bytes to source bytes as the source map gives it: one
/// entry per text byte and one past the end, rising, each text byte on a
/// byte of the source.
pub open spec fn map_ok(n: int, slen: int, map: Option<Seq<int>>) -> bool {
    match map {
        Some(m) => {
            &&& m.len() == n + 1
            &&& forall|k: int| 0 <= k <= n ==> 0 <= #[trigger] m[k] <= slen
            &&& forall|k: int| 0 <= k < n ==> #[trigger] m[k] < slen
            &&& forall|i: int, j: int| 0 <= i <= j <= n ==> #[trigger] m[i] <= #[trigger] m[j]
        },
        None => true,
    }
}

/// The line and column bounds that keep every position of the source within
/// `u32`.
pub open spec fn lines_fit(slen: int, sl: u32, sc: u32) -> bool {
    &&& sl + slen <= u32::MAX
    &&& (if sc >= 1 {
        sc as int
    } else {
        1
    }) + slen <= u32::MAX
}

fn chunk_src_at(map: Option<&[usize]>, pos: usize) -> (r: usize)
    requires
        map matches Some(m) ==> pos <= m@.len() && (pos > 0 ==> m@[pos - 1] < usize::MAX),
    ensures
        r == chunk_src(map_view(map), pos as int),
{
    match map {
        Some(m) => {
            if pos == 0 {
                0
            } else {
                m[pos - 1] + 1
            }
        },
        None => pos,
    }
}

fn span_at(source: &[u8], a: usize, b: usize, sl: u32, sc: u32) -> (r: SourceSpan)
    requires
        a <= source@.len(),
        b <= source@.len(),
        lines_fit(source@.len() as int, sl, sc),
    ensures
        r == span_of(source@, a as int, b as int, sl, sc),
{
    let p = line_col_in(source, a, sl, sc);
    let q = line_col_in(source, b, sl, sc);
    SourceSpan {
        start: a,
        end: b,
        start_line: p.0,
        start_column: p.1,
        end_line: q.0,
        end_column: q.1,
    }
}

proof fn lemma_node_views_push(v: Seq<AutolinkNode>, x: AutolinkNode)
    ensures
        node_views(v.push(x)) == node_views(v).push(x@),
{
    assert(node_views(v.push(x)) =~= node_views(v).push(x@));
}

/// Appends the nodes of one replacement to `out`, with the text consumed up
/// to `cursor`; returns the new cursor and whether the replacement went
/// through find-and-replace without raw source bytes.
fn plan_step(
    bytes: &[u8],
    source: &[u8],
    map: Option<&[usize]>,
    r: &Replacement,
    cursor: usize,
    sl: u32,
    sc: u32,
    out: &mut Vec<AutolinkNode>,
) -> (res: Option<(usize, bool)>)
    requires
        map_ok(bytes@.len() as int, source@.len() as int, map_view(map)),
        repl_ok(bytes@.len() as int, r@),
        cursor <= bytes@.len(),
        lines_fit(source@.len() as int, sl, sc),
    ensures
        match res {
            None => !step_ok(bytes@, source@, map_view(map), r@, cursor as int) && final(out)@ == old(out)@,
            Some(x) => step_ok(bytes@, source@, map_view(map), r@, cursor as int) && node_views(final(out)@)
                == node_views(old(out)@) + step_nodes(
                bytes@,
                source@,
                map_view(map),
                r@,
                cursor as int,
                sl,
                sc,
            ) && x.0 == step_cursor(bytes@, r@) && x.1 == rewritten(bytes@, source@, map_view(map), r@),
        },
{
    let ghost t = bytes@;
    let ghost src = source@;
    let ghost mv = map_view(map);
    let ghost rv = r@;
    let ghost before = node_views(out@);
    let n = bytes.len();
    let s = r.start;
    let raw_e = r.raw_end;
    let e = r.end;
    proof {
        if let Some(m) = map {
            assert(mv->0[s as int] == m@[s as int]);
            assert(mv->0[e as int] == m@[e as int]);
            assert(m@[s as int] <= m@[e as int]);
            assert(m@[s as int] < src.len());
            if s > 0 {
                assert(mv->0[s - 1] == m@[s - 1]);
            }
            if cursor > 0 {
                assert(mv->0[cursor - 1] == m@[cursor - 1]);
            }
            assert(mv->0[e - 1] == m@[e - 1]);
            assert(mv->0[e - 1] < src.len());
            if raw_e > 0 {
                assert(mv->0[raw_e - 1] == m@[raw_e - 1]);
            }
        }
    }
    let url_bytes = vstd::slice::slice_subrange(bytes, s, e);
    let in_src = url_in_source(source, url_bytes);
    let mism = !in_src;
    let escape_before: bool = r.is_email && match map {
        Some(m) => {
            let ss = m[s];
            ss > 0 && source[ss - 1] == 92u8 && (s == 0 || bytes[s - 1] != 92u8)
        },
        None => false,
    };
    let raw: Option<String> = if !r.is_email && !r.bracket_open && !r.fnr_only && mism {
        match map {
            Some(m) => {
                let a = m[s];
                let b = m[e];
                match str_from_utf8(vstd::slice::slice_subrange(source, a, b)) {
                    Some(x) => {
                        proof {
                            encode_utf8_decode_utf8(x@);
                        }
                        Some(String::from_str(x))
                    },
                    None => None,
                }
            },
            None => None,
        }
    } else {
        None
    };
    assert(raw matches Some(u) ==> raw_source_url(t, src, mv, rv) == Some(u@));
    assert(raw is None ==> raw_source_url(t, src, mv, rv) is None);
    let email_fnr = r.is_email && (r.fnr_only || mism || escape_before);
    let wp = !r.bracket_open && !r.fnr_only && !email_fnr && (raw.is_some() || in_src);
    assert(wp == with_position(t, src, mv, rv));
    if wp {
        let c0 = chunk_src_at(map, cursor);
        let c1 = chunk_src_at(map, s);
        let c2 = chunk_src_at(map, e);
        let c3 = chunk_src_at(map, raw_e);
        let l0 = match map {
            Some(m) => m[s],
            None => s,
        };
        let l1 = if raw.is_some() {
            match map {
                Some(m) => m[e],
                None => e,
            }
        } else {
            c2
        };
        assert(l0 == link_src(t, src, mv, rv).0);
        assert(l1 == link_src(t, src, mv, rv).1);
        let n_src = source.len();
        if !(c0 <= n_src && c1 <= n_src && l0 <= n_src && l1 <= n_src && c2 <= n_src && c3 <= n_src) {
            return None;
        }
    }
    assert(step_ok(t, src, mv, rv, cursor as int));
    if s > cursor {
        let position = if wp {
            let a = chunk_src_at(map, cursor);
            let b = chunk_src_at(map, s);
            Some(span_at(source, a, b, sl, sc))
        } else {
            None
        };
        let node = AutolinkNode::Text { start: cursor, end: s, position };
        proof {
            lemma_node_views_push(out@, node);
        }
        out.push(node);
    }
    let ghost mid = node_views(out@);
    let from_source = raw.is_some();
    let s_src = match map {
        Some(m) => m[s],
        None => s,
    };
    let e_src = if from_source {
        match map {
            Some(m) => m[e],
            None => e,
        }
    } else {
        chunk_src_at(map, e)
    };
    assert(s_src == link_src(t, src, mv, rv).0);
    assert(e_src == link_src(t, src, mv, rv).1);
    let link_position = if wp {
        Some(span_at(source, s_src, e_src, sl, sc))
    } else {
        None
    };
    let url = match raw {
        Some(u) => u,
        None => r.url.clone(),
    };
    let link = AutolinkNode::Link { start: s, end: e, url, from_source, position: link_position };
    proof {
        lemma_node_views_push(out@, link);
    }
    out.push(link);
    let ghost after_link = node_views(out@);
    let split = raw_e > e && (r.bracket_open || raw_e >= n || bytes[raw_e] == 10u8 || bytes[raw_e]
        == 13u8);
    assert(split == split_trail(t, rv));
    if split {
        let position = if wp {
            let a = chunk_src_at(map, e);
            let b = chunk_src_at(map, raw_e);
            Some(span_at(source, a, b, sl, sc))
        } else {
            None
        };
        let node = AutolinkNode::Text { start: e, end: raw_e, position };
        proof {
            lemma_node_views_push(out@, node);
        }
        out.push(node);
    }
    proof {
        let steps = step_nodes(t, src, mv, rv, cursor as int, sl, sc);
        assert(node_views(out@) =~= before + steps);
    }
    let rw = if r.is_email {
        r.fnr_only || mism || escape_before
    } else {
        r.fnr_only || (mism && map.is_none())
    };
    Some(
        (if split {
            raw_e
        } else {
            e
        }, rw),
    )
}

/// The nodes that a text node (`bytes`, spanning `source`, with `map` from
/// its bytes to the source) is split into around its autolink replacements
/// `repls`, with lines and columns counted from `(start_line, start_column)`
/// at the source start. `autolink_plan` is `None` only where a span would
/// lie past the source, where the source walk for its line would index out
/// of range.
pub fn autolink_node_plan(
    bytes: &[u8],
    source: &[u8],
    map: Option<&[usize]>,
    repls: &[Replacement],
    start_line: u32,
    start_column: u32,
) -> (r: Option<Vec<AutolinkNode>>)
    requires
        map_ok(bytes@.len() as int, source@.len() as int, map_view(map)),
        forall|k: int| 0 <= k < repls@.len() ==> repl_ok(bytes@.len() as int, #[trigger] repls@[k]@),
        lines_fit(source@.len() as int, start_line, start_column),
    ensures
        match r {
            None => autolink_plan(
                bytes@,
                source@,
                map_view(map),
                replacement_views(repls@),
                start_line,
                start_column,
            ) is None,
            Some(v) => autolink_plan(
                bytes@,
                source@,
                map_view(map),
                replacement_views(repls@),
                start_line,
                start_column,
            ) == Some(node_views(v@)),
        },
{
    let ghost t = bytes@;
    let ghost src = source@;
    let ghost mv = map_view(map);
    let ghost rsv = replacement_views(repls@);
    let ghost whole = plan_from(t, src, mv, rsv, 0, 0, start_line, start_column);
    let n = repls.len();
    let mut out: Vec<AutolinkNode> = Vec::new();
    let mut cursor: usize = 0;
    let mut k: usize = 0;
    let mut any_open = false;
    let mut any_rewritten = false;
    proof {
        if let Some(q) = whole {
            assert(node_views(out@) + q.0 =~= q.0);
        }
    }
    while k < n
        invariant
            k <= n,
            n == repls@.len(),
            t == bytes@,
            src == source@,
            mv == map_view(map),
            rsv == replacement_views(repls@),
            whole == plan_from(t, src, mv, rsv, 0, 0, start_line, start_column),
            cursor <= t.len(),
            map_ok(t.len() as int, src.len() as int, mv),
            forall|j: int| 0 <= j < repls@.len() ==> repl_ok(t.len() as int, #[trigger] repls@[j]@),
            lines_fit(src.len() as int, start_line, start_column),
            whole == match plan_from(t, src, mv, rsv, k as int, cursor as int, start_line, start_column) {
                None => None,
                Some(q) => Some((node_views(out@) + q.0, q.1)),
            },
            any_open == exists|j: int| 0 <= j < k && (#[trigger] rsv[j]).6,
            any_rewritten == exists|j: int| 0 <= j < k && rewritten(t, src, mv, #[trigger] rsv[j]),
        decreases n - k,
    {
        let r = &repls[k];
        assert(rsv[k as int] == r@);
        let ghost old_out = node_views(out@);
        let step = plan_step(bytes, source, map, r, cursor, start_line, start_column, &mut out);
        match step {
            None => {
                proof {
                    assert(plan_from(t, src, mv, rsv, k as int, cursor as int, start_line, start_column) is None);
                }
                return None;
            },
            Some(st) => {
                let ghost rest = plan_from(t, src, mv, rsv, k + 1, st.0 as int, start_line, start_column);
                proof {
                    if let Some(q) = rest {
                        let sn = step_nodes(t, src, mv, r@, cursor as int, start_line, start_column);
                        assert(node_views(out@) + q.0 =~= old_out + (sn + q.0));
                    }
                }
                any_open = any_open || r.bracket_open;
                any_rewritten = any_rewritten || st.1;
                cursor = st.0;
                k = k + 1;
            },
        }
    }
    proof {
        assert(plan_from(t, src, mv, rsv, k as int, cursor as int, start_line, start_column) == Some(
            (Seq::<NodeView>::empty(), cursor as int),
        ));
        assert(node_views(out@) + Seq::<NodeView>::empty() =~= node_views(out@));
        assert(whole.unwrap().0 =~= node_views(out@));
    }
    let len = bytes.len();
    if cursor < len {
        let wp = !any_open && !any_rewritten;
        proof {
            if let Some(m) = map {
                assert(mv->0[len - 1] == m@[len - 1]);
                if cursor > 0 {
                    assert(mv->0[cursor - 1] == m@[cursor - 1]);
                }
            }
        }
        let position = if wp {
            let a = chunk_src_at(map, cursor);
            let b = chunk_src_at(map, len);
            if !(a <= source.len() && b <= source.len()) {
                return None;
            }
            Some(span_at(source, a, b, start_line, start_column))
        } else {
            None
        };
        let node = AutolinkNode::Text { start: cursor, end: len, position };
        proof {
            lemma_node_views_push(out@, node);
        }
        out.push(node);
    }
    Some(out)
}

/// The map of a text to its source span, where the bytes do not diverge.
pub open spec fn mapped(r: Option<MapResult>) -> Option<Seq<int>> {
    match r {
        Some(MapResult::Mapped(m)) => Some(m),
        _ => None,
    }
}

proof fn lemma_source_pos_after(t: Seq<u8>, src: Seq<u8>, ti: int, si: int)
    requires
        0 <= ti < t.len(),
        0 <= si < src.len(),
    ensures
        source_pos(t, src, ti, si) matches Some(p) ==> si <= p,
{
    let s1 = if src[si] == 92 && si + 1 < src.len() && crate::ascii::ascii_punct(src[si + 1]) {
        si + 1
    } else {
        si
    };
    lemma_trailing_blanks_end(t[ti], src, s1);
    let s2 = trailing_blanks_end(t[ti], src, s1);
    lemma_blank_end(src, s2);
    let s3 = if ti > 0 && crate::source_map::line_break(t[ti - 1]) && crate::source_map::blank(src[s2])
        && t[ti] != src[s2] {
        blank_end(src, s2)
    } else {
        s2
    };
    lemma_quote_markers_end(src, s3);
}

proof fn lemma_map_from_ok(t: Seq<u8>, src: Seq<u8>, ti: int, si: int, m: Seq<int>)
    requires
        0 <= ti <= t.len(),
        0 <= si <= src.len(),
        map_from(t, src, ti, si) == Some(MapResult::Mapped(m)),
    ensures
        m.len() == t.len() - ti + 1,
        forall|k: int| 0 <= k < m.len() ==> si <= #[trigger] m[k] <= src.len(),
        forall|k: int| 0 <= k < m.len() - 1 ==> #[trigger] m[k] < src.len(),
        forall|i: int, j: int| 0 <= i <= j < m.len() ==> #[trigger] m[i] <= #[trigger] m[j],
    decreases t.len() - ti,
{
    if ti < t.len() {
        lemma_source_pos_after(t, src, ti, si);
        let p = source_pos(t, src, ti, si)->0;
        let rest = map_from(t, src, ti + 1, p + 1);
        let m2 = rest->0->Mapped_0;
        lemma_map_from_ok(t, src, ti + 1, p + 1, m2);
        assert(m =~= seq![p] + m2);
        assert forall|i: int, j: int| 0 <= i <= j < m.len() implies #[trigger] m[i] <= #[trigger] m[j] by {
            if i > 0 {
                assert(m[i] == m2[i - 1] && m[j] == m2[j - 1]);
            } else {
                assert(m[j] >= p);
            }
        }
    }
}

/// The source map of a text, where it exists, is a map that the node plan
/// takes: one entry per byte and one past the end, rising, each text byte
/// on a byte of the source.
pub proof fn lemma_text_map_ok(t: Seq<u8>, src: Seq<u8>)
    requires
        text_source_map(t, src) is Some,
    ensures
        map_ok(t.len() as int, src.len() as int, mapped(text_source_map(t, src))),
{
    if src.len() > 0 && src == t {
    } else if let Some(MapResult::Mapped(m)) = map_from(t, src, 0, 0) {
        lemma_map_from_ok(t, src, 0, 0, m);
    }
}

/// The replacements that the autolink pass makes in a text spanning
/// `src`, where a `[` already open before the text asks every URL's domain
/// for a dot.
pub open spec fn text_replacements(t: Seq<u8>, src: Seq<u8>, strict: bool) -> Seq<
    (int, int, int, Seq<char>, bool, bool, bool),
> {
    let mv = mapped(text_source_map(t, src));
    replacements_from(t, mv, src, strict, candidates(t, mv, src, strict, 0, Seq::empty()))
}

/// Splits a text (spanning `source`, starting at `(start_line,
/// start_column)`) around its literal autolinks: `None` when it holds none
/// and stays as it is, else the nodes that replace it. The split must fit
/// the source (see `autolink_split_fits`).
pub fn split_text_with_autolinks(
    text: &[u8],
    source: &[u8],
    strict_domain: bool,
    start_line: u32,
    start_column: u32,
) -> (r: Option<Vec<AutolinkNode>>)
    requires
        text@.len() < i32::MAX,
        text_source_map(text@, source@) is Some,
        lines_fit(source@.len() as int, start_line, start_column),
        text_replacements(text@, source@, strict_domain).len() > 0 ==> autolink_plan(
            text@,
            source@,
            mapped(text_source_map(text@, source@)),
            text_replacements(text@, source@, strict_domain),
            start_line,
            start_column,
        ) is Some,
    ensures
        match r {
            None => text_replacements(text@, source@, strict_domain).len() == 0,
            Some(v) => text_replacements(text@, source@, strict_domain).len() > 0 && node_views(v@)
                == autolink_plan(
                text@,
                source@,
                mapped(text_source_map(text@, source@)),
                text_replacements(text@, source@, strict_domain),
                start_line,
                start_column,
            )->0,
        },
{
    let ghost t = text@;
    let ghost src = source@;
    let ghost mv = mapped(text_source_map(t, src));
    proof {
        lemma_text_map_ok(t, src);
    }
    let owned = text_to_source_map(text, source);
    let map: Option<&[usize]> = match &owned {
        Some(v) => Some(v.as_slice()),
        None => None,
    };
    proof {
        if owned is Some {
            assert(map_view(map)->0 =~= positions(owned->0@));
        }
    }
    assert(map_view(map) == mv);
    proof {
        if let Some(m) = map {
            assert(m@.len() == mv->0.len());
            assert forall|k: int| 0 <= k < m@.len() implies #[trigger] m@[k] <= src.len() by {
                assert(mv->0[k] == m@[k] as int);
            }
        }
    }
    let repls = autolink_replacements(text, map, source, strict_domain);
    if repls.len() == 0 {
        return None;
    }
    autolink_node_plan(text, source, map, repls.as_slice(), start_line, start_column)
}

/// Whether the split of `text` around its autolinks can be planned: its
/// source spans all lie within `source`. It can always when there is no
/// autolink; `split_text_with_autolinks` asks for this.
pub fn autolink_split_fits(
    text: &[u8],
    source: &[u8],
    strict_domain: bool,
    start_line: u32,
    start_column: u32,
) -> (r: bool)
    requires
        text@.len() < i32::MAX,
        text_source_map(text@, source@) is Some,
        lines_fit(source@.len() as int, start_line, start_column),
    ensures
        r == (text_replacements(text@, source@, strict_domain).len() > 0 ==> autolink_plan(
            text@,
            source@,
            mapped(text_source_map(text@, source@)),
            text_replacements(text@, source@, strict_domain),
            start_line,
            start_column,
        ) is Some),
{
    let ghost t = text@;
    let ghost src = source@;
    let ghost mv = mapped(text_source_map(t, src));
    proof {
        lemma_text_map_ok(t, src);
    }
    let owned = text_to_source_map(text, source);
    let map: Option<&[usize]> = match &owned {
        Some(v) => Some(v.as_slice()),
        None => None,
    };
    proof {
        if owned is Some {
            assert(map_view(map)->0 =~= positions(owned->0@));
        }
    }
    assert(map_view(map) == mv);
    proof {
        if let Some(m) = map {
            assert(m@.len() == mv->0.len());
            assert forall|k: int| 0 <= k < m@.len() implies #[trigger] m@[k] <= src.len() by {
                assert(mv->0[k] == m@[k] as int);
            }
        }
    }
    let repls = autolink_replacements(text, map, source, strict_domain);
    if repls.len() == 0 {
        return true;
    }
    autolink_node_plan(text, source, map, repls.as_slice(), start_line, start_column).is_some()
}

/// The text range `[start, end)` of a node.
pub open spec fn node_range(v: NodeView) -> (int, int) {
    match v {
        NodeView::Text(a, b, _) => (a, b),
        NodeView::Link(a, b, _, _, _) => (a, b),
    }
}

/// The nodes cover `[a, b)` of the text in order, each over a non-empty
/// range that starts where the one before ends.
pub open spec fn tiles(v: Seq<NodeView>, a: int, b: int) -> bool
    decreases v.len(),
{
    if v.len() == 0 {
        a == b
    } else {
        let r = node_range(v[0]);
        r.0 == a && r.0 < r.1 && tiles(v.drop_first(), r.1, b)
    }
}

proof fn lemma_tiles_concat(x: Seq<NodeView>, y: Seq<NodeView>, a: int, b: int, c: int)
    requires
        tiles(x, a, b),
        tiles(y, b, c),
    ensures
        tiles(x + y, a, c),
    decreases x.len(),
{
    if x.len() > 0 {
        lemma_tiles_concat(x.drop_first(), y, node_range(x[0]).1, b, c);
        assert((x + y).drop_first() =~= x.drop_first() + y);
    } else {
        assert(x + y =~= y);
    }
}

proof fn lemma_tiles_one(v: NodeView, a: int, b: int)
    requires
        node_range(v) == (a, b),
        a < b,
    ensures
        tiles(seq![v], a, b),
{
    assert(seq![v].drop_first() =~= Seq::<NodeView>::empty());
    assert(tiles(Seq::<NodeView>::empty(), b, b));
}

proof fn lemma_step_tiles(
    t: Seq<u8>,
    src: Seq<u8>,
    map: Option<Seq<int>>,
    r: (int, int, int, Seq<char>, bool, bool, bool),
    cursor: int,
    sl: u32,
    sc: u32,
)
    requires
        repl_ok(t.len() as int, r),
        cursor <= r.0,
    ensures
        tiles(step_nodes(t, src, map, r, cursor, sl, sc), cursor, step_cursor(t, r)),
{
    let v = step_nodes(t, src, map, r, cursor, sl, sc);
    let chunk = v.subrange(0, if r.0 > cursor { 1 } else { 0 });
    let link = v[chunk.len() as int];
    let trail = v.subrange(chunk.len() as int + 1, v.len() as int);
    assert(v =~= chunk + seq![link] + trail);
    if r.0 > cursor {
        lemma_tiles_one(v[0], cursor, r.0);
        assert(chunk =~= seq![v[0]]);
    } else {
        assert(tiles(chunk, cursor, r.0));
    }
    lemma_tiles_one(link, r.0, r.2);
    lemma_tiles_concat(chunk, seq![link], cursor, r.0, r.2);
    if split_trail(t, r) {
        lemma_tiles_one(trail[0], r.2, r.1);
        assert(trail =~= seq![trail[0]]);
    } else {
        assert(trail.len() == 0);
    }
    lemma_tiles_concat(chunk + seq![link], trail, cursor, r.2, step_cursor(t, r));
}

/// Replacements in order: each starts at or after the end of the trail of
/// the one before.
pub open spec fn ordered(rs: Seq<(int, int, int, Seq<char>, bool, bool, bool)>) -> bool {
    forall|j: int| 0 <= j < rs.len() - 1 ==> #[trigger] rs[j].1 <= rs[j + 1].0
}

proof fn lemma_plan_from_tiles(
    t: Seq<u8>,
    src: Seq<u8>,
    map: Option<Seq<int>>,
    rs: Seq<(int, int, int, Seq<char>, bool, bool, bool)>,
    k: int,
    cursor: int,
    sl: u32,
    sc: u32,
)
    requires
        0 <= k <= rs.len(),
        0 <= cursor <= t.len(),
        k < rs.len() ==> cursor <= rs[k].0,
        ordered(rs),
        forall|j: int| 0 <= j < rs.len() ==> repl_ok(t.len() as int, #[trigger] rs[j]),
    ensures
        plan_from(t, src, map, rs, k, cursor, sl, sc) matches Some(p) ==> tiles(p.0, cursor, p.1)
            && p.1 <= t.len(),
    decreases rs.len() - k,
{
    if k < rs.len() && step_ok(t, src, map, rs[k], cursor) {
        let r = rs[k];
        lemma_step_tiles(t, src, map, r, cursor, sl, sc);
        if k + 1 < rs.len() {
            assert(rs[k].1 <= rs[k + 1].0);
        }
        lemma_plan_from_tiles(t, src, map, rs, k + 1, step_cursor(t, r), sl, sc);
        if let Some(rest) = plan_from(t, src, map, rs, k + 1, step_cursor(t, r), sl, sc) {
            lemma_tiles_concat(
                step_nodes(t, src, map, r, cursor, sl, sc),
                rest.0,
                cursor,
                step_cursor(t, r),
                rest.1,
            );
        }
    }
}

/// No text is lost or repeated by the split: for replacements in order,
/// the nodes cover the whole text, each range starting where the one
/// before ends.
pub proof fn law_plan_tiles_text(
    t: Seq<u8>,
    src: Seq<u8>,
    map: Option<Seq<int>>,
    rs: Seq<(int, int, int, Seq<char>, bool, bool, bool)>,
    sl: u32,
    sc: u32,
)
    requires
        ordered(rs),
        forall|j: int| 0 <= j < rs.len() ==> repl_ok(t.len() as int, #[trigger] rs[j]),
    ensures
        autolink_plan(t, src, map, rs, sl, sc) matches Some(v) ==> tiles(v, 0, t.len() as int),
{
    lemma_plan_from_tiles(t, src, map, rs, 0, 0, sl, sc);
    if let Some((body, cursor)) = plan_from(t, src, map, rs, 0, 0, sl, sc) {
        if cursor < t.len() {
            if let Some(v) = autolink_plan(t, src, map, rs, sl, sc) {
                let last = v[v.len() - 1];
                assert(v =~= body + seq![last]);
                lemma_tiles_one(last, cursor, t.len() as int);
                lemma_tiles_concat(body, seq![last], 0, cursor, t.len() as int);
            }
        }
    }
}

} // verus!
