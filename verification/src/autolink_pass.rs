//! The text-level decisions that the autolink pass makes over one text
//! node: whether a `[` is still open before a candidate, whether
//! find-and-replace would refuse a candidate's domain, where a URL that
//! find-and-replace handles stops before a code span, and how far its
//! trail of punctuation runs.
use vstd::prelude::*;
use vstd::string::*;
use vstd::utf8::*;
use crate::autolink::{
    correct_domain, has_at, http_bytes, https_bytes, is_correct_domain_for_fnr, starts_with_at,
    autolink_at, email_at, has_domain_dot, scan_autolink_literal, scan_email_autolink,
    domain_has_dot, scheme_at, loose_only, prev_is_loose_only, split_url_end, split_url_trim_end,
    www_bytes,
};
use crate::text::str_from_utf8;

verus! {

/// Text byte `j` is a bracket that came from a backslash escape in the
/// source: the source byte before its mapped position is `\`.
pub open spec fn escaped_in_source(map: Option<Seq<int>>, src: Seq<u8>, j: int) -> bool {
    match map {
        Some(m) => m[j] > 0 && src[m[j] - 1] == 92,
        None => false,
    }
}

/// How far `j` is below `s`.
pub open spec fn gap(j: int, s: int) -> nat {
    if j < s {
        (s - j) as nat
    } else {
        0
    }
}

/// The depth of open `[` after scanning `t[j..s]` from `depth`: an escape
/// skips the next byte, brackets escaped in the source do not count, and a
/// `]` only closes an open `[`.
pub open spec fn bracket_depth(
    t: Seq<u8>,
    map: Option<Seq<int>>,
    src: Seq<u8>,
    j: int,
    s: int,
    depth: int,
) -> int
    decreases gap(j, s),
{
    if j < 0 || j >= s {
        depth
    } else {
        let c = t[j];
        if c == 92 {
            bracket_depth(t, map, src, j + 2, s, depth)
        } else if (c == 91 || c == 93) && escaped_in_source(map, src, j) {
            bracket_depth(t, map, src, j + 1, s, depth)
        } else if c == 91 {
            bracket_depth(t, map, src, j + 1, s, depth + 1)
        } else if c == 93 && depth > 0 {
            bracket_depth(t, map, src, j + 1, s, depth - 1)
        } else {
            bracket_depth(t, map, src, j + 1, s, depth)
        }
    }
}

/// The positions of a map as integers.
pub open spec fn map_view(map: Option<&[usize]>) -> Option<Seq<int>> {
    match map {
        Some(m) => Some(m@.map_values(|x: usize| x as int)),
        None => None,
    }
}

/// Whether a `[` (or `![`) is still open before text position `s`, counting
/// one already open before the text when `outer_open`.
pub fn bracket_open_at(
    bytes: &[u8],
    map: Option<&[usize]>,
    source: &[u8],
    outer_open: bool,
    s: usize,
) -> (r: bool)
    requires
        s <= bytes@.len() < i32::MAX,
        map matches Some(m) ==> m@.len() > s && forall|k: int|
            0 <= k < m@.len() ==> #[trigger] m@[k] <= source@.len(),
    ensures
        r == (bracket_depth(
            bytes@,
            map_view(map),
            source@,
            0,
            s as int,
            if outer_open {
                1
            } else {
                0
            },
        ) > 0),
{
    let ghost t = bytes@;
    let ghost mv = map_view(map);
    let mut depth: i32 = if outer_open {
        1
    } else {
        0
    };
    let ghost d0: int = depth as int;
    let mut j: usize = 0;
    while j < s
        invariant
            j <= s + 1,
            s <= t.len() < i32::MAX,
            t == bytes@,
            mv == map_view(map),
            map matches Some(m) ==> m@.len() > s && forall|k: int|
                0 <= k < m@.len() ==> #[trigger] m@[k] <= source@.len(),
            0 <= depth <= j + 1,
            bracket_depth(t, mv, source@, j as int, s as int, depth as int) == bracket_depth(
                t,
                mv,
                source@,
                0,
                s as int,
                d0,
            ),
        decreases s + 1 - j,
    {
        let c = bytes[j];
        if c == 92 {
            j += 2;
            continue;
        }
        if c == 91 || c == 93 {
            if let Some(m) = map {
                let src_pos = m[j];
                proof {
                    assert(m@[j as int] <= source@.len());
                }
                if src_pos > 0 && source[src_pos - 1] == 92 {
                    j += 1;
                    continue;
                }
            }
        }
        if c == 91 {
            depth += 1;
        } else if c == 93 && depth > 0 {
            depth -= 1;
        }
        j += 1;
    }
    depth > 0
}

/// A byte that ends the domain of a URL: `/`, `?`, `#`, whitespace or `<`.
pub open spec fn domain_stop(b: u8) -> bool {
    b == 47 || b == 63 || b == 35 || b == 32 || b == 9 || b == 10 || b == 13 || b == 60
}

/// The index of the first domain-ending byte at or after `i`, or the end.
pub open spec fn domain_end(t: Seq<u8>, i: int) -> int
    decreases t.len() - i,
{
    if 0 <= i < t.len() && !domain_stop(t[i]) {
        domain_end(t, i + 1)
    } else {
        i
    }
}

/// The domain of the URL that starts at `s`: after its `http://` or
/// `https://`, up to the first domain-ending byte.
pub open spec fn url_domain(t: Seq<u8>, s: int) -> Seq<u8> {
    let ds = if has_at(t, s, http_bytes()) {
        s + 7
    } else if has_at(t, s, https_bytes()) {
        s + 8
    } else {
        s
    };
    t.subrange(ds, domain_end(t, ds))
}

/// Whether find-and-replace would refuse the URL that starts at `s` for
/// its domain (fewer than two dot-separated parts with letters or digits).
pub fn fnr_domain_rejected(bytes: &[u8], s: usize) -> (r: bool)
    requires
        s <= bytes@.len(),
    ensures
        r == !correct_domain(url_domain(bytes@, s as int)),
{
    let http: [u8; 7] = [104u8, 116u8, 116u8, 112u8, 58u8, 47u8, 47u8];
    let https: [u8; 8] = [104u8, 116u8, 116u8, 112u8, 115u8, 58u8, 47u8, 47u8];
    assert(http@ == http_bytes());
    assert(https@ == https_bytes());
    let n = bytes.len();
    let domain_start: usize = if starts_with_at(bytes, s, &http) {
        s + 7
    } else if starts_with_at(bytes, s, &https) {
        s + 8
    } else {
        s
    };
    let mut e = domain_start;
    while e < bytes.len() && !(bytes[e] == 47 || bytes[e] == 63 || bytes[e] == 35 || bytes[e] == 32
        || bytes[e] == 9 || bytes[e] == 10 || bytes[e] == 13 || bytes[e] == 60)
        invariant
            domain_start <= e <= bytes@.len(),
            domain_end(bytes@, e as int) == domain_end(bytes@, domain_start as int),
        decreases bytes@.len() - e,
    {
        e += 1;
    }
    let domain = vstd::slice::slice_subrange(bytes, domain_start, e);
    !is_correct_domain_for_fnr(domain)
}

/// The trail characters that stay out of a URL that find-and-replace
/// handles: ``!"&',.:;<>?]}``.
pub open spec fn url_trail_byte(b: u8) -> bool {
    b == 33 || b == 34 || b == 38 || b == 39 || b == 44 || b == 46 || b == 58 || b == 59 || b
        == 60 || b == 62 || b == 63 || b == 93 || b == 125
}

/// The end of the run of trail characters that starts at `e`.
pub open spec fn trail_end(t: Seq<u8>, e: int) -> int
    decreases t.len() - e,
{
    if 0 <= e < t.len() && url_trail_byte(t[e]) {
        trail_end(t, e + 1)
    } else {
        e
    }
}

/// How far the trail of punctuation after a URL that ends at `e` runs.
pub fn url_trail_end(bytes: &[u8], e: usize) -> (r: usize)
    requires
        e <= bytes@.len(),
    ensures
        r as int == trail_end(bytes@, e as int),
        e <= r <= bytes@.len(),
{
    let mut w = e;
    while w < bytes.len()
        invariant
            e <= w <= bytes@.len(),
            trail_end(bytes@, w as int) == trail_end(bytes@, e as int),
        decreases bytes@.len() - w,
    {
        let b = bytes[w];
        if b == 33 || b == 34 || b == 38 || b == 39 || b == 44 || b == 46 || b == 58 || b == 59
            || b == 60 || b == 62 || b == 63 || b == 93 || b == 125 {
            w += 1;
        } else {
            return w;
        }
    }
    w
}

/// Past the backticks at `i`, not going beyond `hi`.
pub open spec fn ticks_end(t: Seq<u8>, i: int, hi: int) -> int
    decreases hi - i,
{
    if 0 <= i < hi && t[i] == 96 {
        ticks_end(t, i + 1, hi)
    } else {
        i
    }
}

pub proof fn lemma_ticks_end(t: Seq<u8>, i: int, hi: int)
    requires
        0 <= i,
    ensures
        i <= ticks_end(t, i, hi),
        i <= hi ==> ticks_end(t, i, hi) <= hi,
        0 <= i < hi && t[i] == 96 ==> i < ticks_end(t, i, hi),
    decreases hi - i,
{
    if 0 <= i < hi && t[i] == 96 {
        lemma_ticks_end(t, i + 1, hi);
    }
}

/// A run of exactly `n` backticks starts at or after `k`, before `hi`.
pub open spec fn closing_ticks(t: Seq<u8>, k: int, n: int, hi: int) -> bool
    decreases hi - k,
{
    if k < 0 || k >= hi {
        false
    } else if t[k] == 96 {
        let m = ticks_end(t, k, hi);
        proof {
            lemma_ticks_end(t, k, hi);
        }
        m - k == n || closing_ticks(t, m, n, hi)
    } else {
        closing_ticks(t, k + 1, n, hi)
    }
}

/// Where a URL in `t[i..hi]` stops because a code span opens: the start of
/// the first backtick run that a run of the same length closes before
/// `hi`, or `hi`.
pub open spec fn code_span_stop(t: Seq<u8>, i: int, hi: int) -> int
    decreases hi - i,
{
    if i < 0 || i >= hi {
        hi
    } else if t[i] == 96 {
        let j = ticks_end(t, i, hi);
        proof {
            lemma_ticks_end(t, i, hi);
        }
        if closing_ticks(t, j, j - i, hi) {
            i
        } else {
            code_span_stop(t, j, hi)
        }
    } else {
        code_span_stop(t, i + 1, hi)
    }
}

/// Past the backticks at `i`, not beyond `hi`.
fn scan_ticks(t: &[u8], i: usize, hi: usize) -> (r: usize)
    requires
        i <= hi <= t@.len(),
    ensures
        r as int == ticks_end(t@, i as int, hi as int),
        i <= r <= hi,
        i < hi && t@[i as int] == 96 ==> i < r,
{
    let mut k = i;
    while k < hi && t[k] == 96
        invariant
            i <= k <= hi <= t@.len(),
            ticks_end(t@, k as int, hi as int) == ticks_end(t@, i as int, hi as int),
        decreases hi - k,
    {
        k += 1;
    }
    k
}

/// Whether a run of exactly `n` backticks starts in `t[k..hi]`.
fn has_closing_ticks(t: &[u8], k: usize, n: usize, hi: usize) -> (r: bool)
    requires
        k <= hi <= t@.len(),
    ensures
        r == closing_ticks(t@, k as int, n as int, hi as int),
{
    let mut x = k;
    while x < hi
        invariant
            k <= x <= hi <= t@.len(),
            closing_ticks(t@, x as int, n as int, hi as int) == closing_ticks(
                t@,
                k as int,
                n as int,
                hi as int,
            ),
        decreases hi - x,
    {
        if t[x] == 96 {
            let m = scan_ticks(t, x, hi);
            if m - x == n {
                return true;
            }
            x = m;
        } else {
            x += 1;
        }
    }
    false
}

/// Where a URL that find-and-replace handles, spanning `[min_end, raw_end)`
/// after its scheme, stops: at the first backtick run that a code span
/// closes before `raw_end`, else at `raw_end`.
pub fn url_search_end(bytes: &[u8], min_end: usize, raw_end: usize) -> (r: usize)
    requires
        min_end <= raw_end <= bytes@.len(),
    ensures
        r as int == code_span_stop(bytes@, min_end as int, raw_end as int),
        min_end <= r <= raw_end,
{
    let mut i = min_end;
    while i < raw_end
        invariant
            min_end <= i <= raw_end <= bytes@.len(),
            code_span_stop(bytes@, i as int, raw_end as int) == code_span_stop(
                bytes@,
                min_end as int,
                raw_end as int,
            ),
        decreases raw_end - i,
    {
        if bytes[i] == 96 {
            let j = scan_ticks(bytes, i, raw_end);
            if has_closing_ticks(bytes, j, j - i, raw_end) {
                return i;
            }
            i = j;
        } else {
            i += 1;
        }
    }
    raw_end
}

/// `memchr::memchr2`: the index of the first byte of `haystack` that is one
/// of the two needles, if there is one.
#[verifier::external_body]
pub(crate) fn memchr2_find(n1: u8, n2: u8, haystack: &[u8]) -> (r: Option<usize>)
    ensures
        match r {
            Some(i) => i < haystack@.len() && (haystack@[i as int] == n1 || haystack@[i as int] == n2)
                && forall|j: int| 0 <= j < i ==> haystack@[j] != n1 && haystack@[j] != n2,
            None => forall|j: int| 0 <= j < haystack@.len() ==> haystack@[j] != n1 && haystack@[j] != n2,
        },
{
    memchr::memchr2(n1, n2, haystack)
}

/// `memchr::memchr3`: the index of the first byte of `haystack` that is one
/// of the three needles, if there is one.
#[verifier::external_body]
pub(crate) fn memchr3_find(n1: u8, n2: u8, n3: u8, haystack: &[u8]) -> (r: Option<usize>)
    ensures
        match r {
            Some(i) => i < haystack@.len() && (haystack@[i as int] == n1 || haystack@[i as int] == n2
                || haystack@[i as int] == n3) && forall|j: int|
                0 <= j < i ==> haystack@[j] != n1 && haystack@[j] != n2 && haystack@[j] != n3,
            None => forall|j: int|
                0 <= j < haystack@.len() ==> haystack@[j] != n1 && haystack@[j] != n2 && haystack@[j]
                    != n3,
        },
{
    memchr::memchr3(n1, n2, n3, haystack)
}

/// A literal autolink found in a text: the span `[start, end)` of its URL
/// (or email), how far the URL-shaped bytes ran (`raw_end`), the link
/// target, whether it is an email, and whether only the find-and-replace
/// fallback accepted it.
#[derive(Debug, Clone, PartialEq, Eq)]
pub struct Candidate {
    pub start: usize,
    pub raw_end: usize,
    pub end: usize,
    pub url: String,
    pub is_email: bool,
    pub fnr_only: bool,
}

impl View for Candidate {
    type V = (int, int, int, Seq<char>, bool, bool);

    open spec fn view(&self) -> (int, int, int, Seq<char>, bool, bool) {
        (
            self.start as int,
            self.raw_end as int,
            self.end as int,
            self.url@,
            self.is_email,
            self.fnr_only,
        )
    }
}

/// The views of a list of candidates.
pub open spec fn candidate_views(v: Seq<Candidate>) -> Seq<(int, int, int, Seq<char>, bool, bool)> {
    v.map_values(|c: Candidate| c@)
}

/// A candidate's ranges lie in the text: a URL's raw end lies past its
/// scheme, an email's end past its start.
pub open spec fn cand_ok(t: Seq<u8>, c: (int, int, int, Seq<char>, bool, bool)) -> bool {
    &&& 0 <= c.0
    &&& c.2 <= c.1 <= t.len()
    &&& if c.4 {
        c.0 < c.2 && c.1 == c.2
    } else {
        &&& c.0 < c.2
        &&& scheme_at(t, c.0) matches Some(sch) && c.0 + sch.0 <= c.1
    }
}

/// The email whose `@` is at `at` is dropped because the first domain byte
/// came from a backslash escape in the source.
pub open spec fn email_dropped(t: Seq<u8>, map: Option<Seq<int>>, src: Seq<u8>, at: int) -> bool {
    match map {
        None => false,
        Some(m) => {
            let a = at + 1;
            if a >= t.len() {
                false
            } else {
                let sa = m[a];
                sa > 0 && src[sa - 1] == 92 && (a == 0 || t[a - 1] != 92)
            }
        },
    }
}

/// The literal autolinks of a text from `i` on, after those in `acc`: at
/// each `h` or `w` a URL (skipped under `strict` when its domain has no
/// dot), at each `@` an email (kept unless escaped in the source or
/// overlapping the previous link); scanning resumes after each.
pub open spec fn candidates(
    t: Seq<u8>,
    map: Option<Seq<int>>,
    src: Seq<u8>,
    strict: bool,
    i: int,
    acc: Seq<(int, int, int, Seq<char>, bool, bool)>,
) -> Seq<(int, int, int, Seq<char>, bool, bool)>
    decreases gap(i, t.len() as int),
{
    if i < 0 || i >= t.len() {
        acc
    } else {
        let b = t[i];
        if b == 104 || b == 119 {
            match autolink_at(t, i) {
                Some(x) => if strict && !has_domain_dot(encode_utf8(x.3)) {
                    candidates(t, map, src, strict, i + 1, acc)
                } else if x.1 > i {
                    candidates(t, map, src, strict, x.1, acc.push((x.0, x.1, x.2, x.3, false, x.4)))
                } else {
                    acc
                },
                None => candidates(t, map, src, strict, i + 1, acc),
            }
        } else if b == 64 {
            match email_at(t, i) {
                Some(y) => {
                    let keep = !email_dropped(t, map, src, i) && (acc.len() == 0 || y.0
                        >= acc.last().2);
                    let acc2 = if keep {
                        acc.push((y.0, y.1, y.1, y.2, true, y.3))
                    } else {
                        acc
                    };
                    if y.1 > i {
                        candidates(t, map, src, strict, y.1, acc2)
                    } else {
                        acc2
                    }
                },
                None => candidates(t, map, src, strict, i + 1, acc),
            }
        } else {
            candidates(t, map, src, strict, i + 1, acc)
        }
    }
}

proof fn lemma_candidates_skip(
    t: Seq<u8>,
    map: Option<Seq<int>>,
    src: Seq<u8>,
    strict: bool,
    i: int,
    k: int,
    acc: Seq<(int, int, int, Seq<char>, bool, bool)>,
)
    requires
        0 <= i <= k <= t.len(),
        forall|j: int| i <= j < k ==> t[j] != 104 && t[j] != 119 && t[j] != 64,
    ensures
        candidates(t, map, src, strict, i, acc) == candidates(t, map, src, strict, k, acc),
    decreases k - i,
{
    if i < k {
        lemma_candidates_skip(t, map, src, strict, i + 1, k, acc);
    }
}

/// Finds the literal autolinks (URLs and emails) of a text, given the map
/// from its bytes to the source and the source span, in order.
pub fn autolink_candidates(bytes: &[u8], map: Option<&[usize]>, source: &[u8], strict: bool) -> (r:
    Vec<Candidate>)
    requires
        map matches Some(m) ==> m@.len() == bytes@.len() + 1 && forall|k: int|
            0 <= k < m@.len() ==> #[trigger] m@[k] <= source@.len(),
    ensures
        candidate_views(r@) == candidates(bytes@, map_view(map), source@, strict, 0, Seq::empty()),
        forall|k: int| 0 <= k < r@.len() ==> cand_ok(bytes@, #[trigger] r@[k]@),
{
    let ghost t = bytes@;
    let ghost mv = map_view(map);
    let len = bytes.len();
    let mut out: Vec<Candidate> = Vec::new();
    let mut i: usize = 0;
    assert(candidate_views(out@) =~= Seq::<(int, int, int, Seq<char>, bool, bool)>::empty());
    while i < len
        invariant
            i <= len,
            len == t.len(),
            t == bytes@,
            mv == map_view(map),
            map matches Some(m) ==> m@.len() == t.len() + 1 && forall|k: int|
                0 <= k < m@.len() ==> #[trigger] m@[k] <= source@.len(),
            candidates(t, mv, source@, strict, i as int, candidate_views(out@)) == candidates(
                t,
                mv,
                source@,
                strict,
                0,
                Seq::empty(),
            ),
            forall|k: int| 0 <= k < out@.len() ==> cand_ok(t, #[trigger] out@[k]@),
        decreases len - i,
    {
        let ghost acc = candidate_views(out@);
        let rest = vstd::slice::slice_subrange(bytes, i, len);
        match memchr3_find(104, 119, 64, rest) {
            None => {
                proof {
                    assert forall|j: int| i <= j < len implies t[j] != 104 && t[j] != 119 && t[j]
                        != 64 by {
                        assert(rest@[j - i] == t[j]);
                    }
                    lemma_candidates_skip(t, mv, source@, strict, i as int, len as int, acc);
                }
                i = len;
            },
            Some(rel) => {
                proof {
                    assert forall|j: int| i <= j < i + rel implies t[j] != 104 && t[j] != 119
                        && t[j] != 64 by {
                        assert(rest@[j - i] == t[j]);
                    }
                    lemma_candidates_skip(t, mv, source@, strict, i as int, i + rel, acc);
                    assert(rest@[rel as int] == t[i + rel]);
                }
                i += rel;
                let b = bytes[i];
                if b == 104 || b == 119 {
                    match scan_autolink_literal(bytes, i) {
                        Some((s, raw_e, e, url, fnr_only)) => {
                            if strict && !domain_has_dot(url.as_str()) {
                                i += 1;
                            } else {
                                let c = Candidate {
                                    start: s,
                                    raw_end: raw_e,
                                    end: e,
                                    url,
                                    is_email: false,
                                    fnr_only,
                                };
                                let ghost cv = c@;
                                out.push(c);
                                assert(candidate_views(out@) =~= acc.push(cv));
                                i = raw_e;
                            }
                        },
                        None => {
                            i += 1;
                        },
                    }
                } else {
                    match scan_email_autolink(bytes, i) {
                        Some((s, e, url, retry_needed)) => {
                            let after_at = i + 1;
                            let drop_email = match map {
                                None => false,
                                Some(m) => {
                                    if after_at >= len {
                                        false
                                    } else {
                                        let src_after_at = m[after_at];
                                        proof {
                                            assert(m@[after_at as int] <= source@.len());
                                        }
                                        src_after_at > 0 && source[src_after_at - 1] == 92 && (
                                        after_at == 0 || bytes[after_at - 1] != 92)
                                    }
                                },
                            };
                            let prev_ok = out.len() == 0 || s >= out[out.len() - 1].end;
                            if !drop_email && prev_ok {
                                let c = Candidate {
                                    start: s,
                                    raw_end: e,
                                    end: e,
                                    url,
                                    is_email: true,
                                    fnr_only: retry_needed,
                                };
                                let ghost cv = c@;
                                out.push(c);
                                assert(candidate_views(out@) =~= acc.push(cv));
                            }
                            i = e;
                        },
                        None => {
                            i += 1;
                        },
                    }
                }
            },
        }
    }
    out
}

/// A replacement covers a non-empty URL `[r.0, r.2)` of the text, followed
/// by its trail up to `r.1`.
pub open spec fn repl_ok(n: int, r: (int, int, int, Seq<char>, bool, bool, bool)) -> bool {
    0 <= r.0 < r.2 <= r.1 <= n
}

/// A literal autolink as the pass emits it: a candidate whose URL end and
/// trail were adjusted where find-and-replace handles it, and whether a `[`
/// was open before it.
#[derive(Debug, Clone, PartialEq, Eq)]
pub struct Replacement {
    pub start: usize,
    pub raw_end: usize,
    pub end: usize,
    pub url: String,
    pub is_email: bool,
    pub fnr_only: bool,
    pub bracket_open: bool,
}

impl View for Replacement {
    type V = (int, int, int, Seq<char>, bool, bool, bool);

    open spec fn view(&self) -> (int, int, int, Seq<char>, bool, bool, bool) {
        (
            self.start as int,
            self.raw_end as int,
            self.end as int,
            self.url@,
            self.is_email,
            self.fnr_only,
            self.bracket_open,
        )
    }
}

/// The views of a list of replacements.
pub open spec fn replacement_views(v: Seq<Replacement>) -> Seq<
    (int, int, int, Seq<char>, bool, bool, bool),
> {
    v.map_values(|r: Replacement| r@)
}

/// The length of the scheme (`http://`, `https://` or `www.`) at `s`.
pub open spec fn scheme_len(t: Seq<u8>, s: int) -> int {
    match scheme_at(t, s) {
        Some(sch) => sch.0,
        None => 0,
    }
}

/// A candidate as emitted. When a `[` is open before a URL,
/// find-and-replace handles it: its end is recomputed the find-and-replace
/// way (stopping before a code span), and its raw end reaches over the
/// trail of punctuation after it.
pub open spec fn fixed(t: Seq<u8>, c: (int, int, int, Seq<char>, bool, bool), open: bool) -> (
    int,
    int,
    int,
    Seq<char>,
    bool,
    bool,
    bool,
) {
    if open && !c.4 {
        let me = c.0 + scheme_len(t, c.0);
        let ne = split_url_end(t, me, code_span_stop(t, me, c.1));
        let sub = t.subrange(c.0, ne);
        let changed = ne != c.2 && valid_utf8(sub);
        let e2 = if changed {
            ne
        } else {
            c.2
        };
        let url2 = if changed {
            if has_at(t, c.0, www_bytes()) {
                "http://"@ + decode_utf8(sub)
            } else {
                decode_utf8(sub)
            }
        } else {
            c.3
        };
        let re = trail_end(t, e2);
        (c.0, if re > c.1 {
            re
        } else {
            c.1
        }, e2, url2, c.4, c.5, open)
    } else {
        (c.0, c.1, c.2, c.3, c.4, c.5, open)
    }
}

/// The candidates as emitted: those after an open `[` whose preceding
/// character only passes the loose check are dropped, and so are URLs
/// after an open `[` whose domain find-and-replace refuses; the rest are
/// adjusted.
pub open spec fn replacements_from(
    t: Seq<u8>,
    map: Option<Seq<int>>,
    src: Seq<u8>,
    outer: bool,
    cands: Seq<(int, int, int, Seq<char>, bool, bool)>,
) -> Seq<(int, int, int, Seq<char>, bool, bool, bool)>
    decreases cands.len(),
{
    if cands.len() == 0 {
        Seq::empty()
    } else {
        let c = cands[0];
        let open = bracket_depth(t, map, src, 0, c.0, if outer {
            1
        } else {
            0
        }) > 0;
        let rest = replacements_from(t, map, src, outer, cands.drop_first());
        if open && loose_only(t, c.0) {
            rest
        } else if open && !c.4 && !correct_domain(url_domain(t, c.0)) {
            rest
        } else {
            seq![fixed(t, c, open)] + rest
        }
    }
}

/// The literal autolinks of a text as the autolink pass emits them, given
/// the map from its bytes to the source, the source span, and whether a
/// `[` is already open before the text (which also asks every URL's domain
/// for a dot).
pub fn autolink_replacements(
    bytes: &[u8],
    map: Option<&[usize]>,
    source: &[u8],
    outer_open: bool,
) -> (r: Vec<Replacement>)
    requires
        bytes@.len() < i32::MAX,
        map matches Some(m) ==> m@.len() == bytes@.len() + 1 && forall|k: int|
            0 <= k < m@.len() ==> #[trigger] m@[k] <= source@.len(),
    ensures
        replacement_views(r@) == replacements_from(
            bytes@,
            map_view(map),
            source@,
            outer_open,
            candidates(bytes@, map_view(map), source@, outer_open, 0, Seq::empty()),
        ),
        forall|k: int| 0 <= k < r@.len() ==> repl_ok(bytes@.len() as int, #[trigger] r@[k]@),
{
    let ghost t = bytes@;
    let ghost mv = map_view(map);
    let cands = autolink_candidates(bytes, map, source, outer_open);
    let ghost cs = candidate_views(cands@);
    let www: [u8; 4] = [119u8, 119u8, 119u8, 46u8];
    assert(www@ == www_bytes());
    let n = cands.len();
    let mut out: Vec<Replacement> = Vec::new();
    let mut k: usize = 0;
    assert(cs.subrange(0, n as int) =~= cs);
    assert(replacement_views(out@) =~= Seq::<(int, int, int, Seq<char>, bool, bool, bool)>::empty());
    while k < n
        invariant
            k <= n,
            n == cands@.len(),
            cs == candidate_views(cands@),
            t == bytes@,
            mv == map_view(map),
            www@ == www_bytes(),
            t.len() < i32::MAX,
            map matches Some(m) ==> m@.len() == t.len() + 1 && forall|x: int|
                0 <= x < m@.len() ==> #[trigger] m@[x] <= source@.len(),
            forall|x: int| 0 <= x < cands@.len() ==> cand_ok(t, #[trigger] cands@[x]@),
            forall|x: int| 0 <= x < out@.len() ==> repl_ok(t.len() as int, #[trigger] out@[x]@),
            replacements_from(t, mv, source@, outer_open, cs) == replacement_views(out@)
                + replacements_from(t, mv, source@, outer_open, cs.subrange(k as int, n as int)),
        decreases n - k,
    {
        let ghost before = replacement_views(out@);
        let ghost sub = cs.subrange(k as int, n as int);
        assert(sub[0] == cands@[k as int]@);
        assert(sub.drop_first() =~= cs.subrange(k + 1, n as int));
        assert(cand_ok(t, cands@[k as int]@));
        let c = &cands[k];
        let s = c.start;
        let open = bracket_open_at(bytes, map, source, outer_open, s);
        if open && prev_is_loose_only(bytes, s) {
            k += 1;
            continue;
        }
        if open && !c.is_email && fnr_domain_rejected(bytes, s) {
            k += 1;
            continue;
        }
        let mut raw_end = c.raw_end;
        let mut end = c.end;
        let mut url = c.url.clone();
        proof {
            assert(url@ == c.url@);
        }
        if open && !c.is_email {
            let http: [u8; 7] = [104u8, 116u8, 116u8, 112u8, 58u8, 47u8, 47u8];
            let https: [u8; 8] = [104u8, 116u8, 116u8, 112u8, 115u8, 58u8, 47u8, 47u8];
            assert(http@ == http_bytes());
            assert(https@ == https_bytes());
            let is_www = starts_with_at(bytes, s, &www);
            let proto_len: usize = if starts_with_at(bytes, s, &http) {
                7
            } else if starts_with_at(bytes, s, &https) {
                8
            } else if is_www {
                4
            } else {
                0
            };
            assert(proto_len == scheme_len(t, s as int));
            let min_end = s + proto_len;
            let search_end = url_search_end(bytes, min_end, c.raw_end);
            let new_end = split_url_trim_end(bytes, min_end, search_end);
            if new_end != end {
                let url_bytes = vstd::slice::slice_subrange(bytes, s, new_end);
                match str_from_utf8(url_bytes) {
                    Some(url_str) => {
                        proof {
                            vstd::utf8::encode_utf8_decode_utf8(url_str@);
                        }
                        url = if is_www {
                            String::from_str("http://").concat(url_str)
                        } else {
                            String::from_str(url_str)
                        };
                        end = new_end;
                    },
                    None => {},
                }
            }
            let walker = url_trail_end(bytes, end);
            if walker > raw_end {
                raw_end = walker;
            }
        }
        let r = Replacement {
            start: s,
            raw_end,
            end,
            url,
            is_email: c.is_email,
            fnr_only: c.fnr_only,
            bracket_open: open,
        };
        let ghost rv = r@;
        out.push(r);
        proof {
            assert(repl_ok(t.len() as int, rv));
            assert(rv == fixed(t, cands@[k as int]@, open));
            assert(replacement_views(out@) =~= before.push(rv));
            assert(before.push(rv) + replacements_from(t, mv, source@, outer_open, cs.subrange(
                k + 1,
                n as int,
            )) =~= before + (seq![rv] + replacements_from(
                t,
                mv,
                source@,
                outer_open,
                cs.subrange(k + 1, n as int),
            )));
        }
        k += 1;
    }
    assert(cs.subrange(n as int, n as int) =~= Seq::<(int, int, int, Seq<char>, bool, bool)>::empty());
    assert(replacement_views(out@) + Seq::<(int, int, int, Seq<char>, bool, bool, bool)>::empty()
        =~= replacement_views(out@));
    out
}

} // verus!
