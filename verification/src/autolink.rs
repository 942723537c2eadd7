//! Scanners that the GFM autolink-literal pass runs over the bytes of text
//! nodes: bare `http://`, `https://` and `www.` URLs, email addresses, and
//! the helper checks around them (the character before a match, domains,
//! trailing punctuation, bracket depth).
use vstd::prelude::*;
use vstd::utf8::*;
use vstd::string::*;
use crate::ascii::{
    ascii_alnum, ascii_alpha, ascii_digit, ascii_punct, ascii_ws, char_alphabetic,
    char_alphanumeric, white_space, is_alphabetic, is_alphanumeric, is_ascii_alphabetic,
    is_ascii_alphanumeric, is_ascii_digit, is_ascii_punctuation, is_ascii_whitespace,
    is_whitespace,
};
use crate::text::str_from_utf8;

verus! {

// ---------------------------------------------------------------------------
// Small sequence facts
// ---------------------------------------------------------------------------

/// How many times `c` occurs in `s`.
pub open spec fn count_byte(s: Seq<u8>, c: u8) -> nat
    decreases s.len(),
{
    if s.len() == 0 {
        0
    } else {
        count_byte(s.drop_last(), c) + if s.last() == c { 1nat } else { 0nat }
    }
}

/// `lit` occurs in `b` at `at`.
pub open spec fn has_at(b: Seq<u8>, at: int, lit: Seq<u8>) -> bool {
    0 <= at && at + lit.len() <= b.len() && b.subrange(at, at + lit.len()) == lit
}

/// The bytes of `http://`.
pub open spec fn http_bytes() -> Seq<u8> {
    seq![104u8, 116u8, 116u8, 112u8, 58u8, 47u8, 47u8]
}

/// The bytes of `https://`.
pub open spec fn https_bytes() -> Seq<u8> {
    seq![104u8, 116u8, 116u8, 112u8, 115u8, 58u8, 47u8, 47u8]
}

/// The bytes of `www.`.
pub open spec fn www_bytes() -> Seq<u8> {
    seq![119u8, 119u8, 119u8, 46u8]
}

/// The character that ends the (up to) four bytes before `ix` (a space when
/// they hold none), or `None` when those bytes are not valid UTF-8.
pub open spec fn prev_char(b: Seq<u8>, ix: int) -> Option<char> {
    let w = b.subrange(if ix >= 4 { ix - 4 } else { 0 }, ix);
    if valid_utf8(w) {
        let cs = decode_utf8(w);
        Some(if cs.len() > 0 { cs.last() } else { ' ' })
    } else {
        None
    }
}

// ---------------------------------------------------------------------------
// The character before a match
// ---------------------------------------------------------------------------

/// Only the loose check on the character before `ix` passes: it is not a
/// letter, yet it is neither whitespace nor punctuation (a digit, say).
/// False at the start of the text and when the bytes before a non-ASCII
/// character are not valid UTF-8.
pub open spec fn loose_only(b: Seq<u8>, ix: int) -> bool {
    if ix == 0 {
        false
    } else {
        let prev = b[ix - 1];
        if prev < 0x80 {
            !ascii_alpha(prev) && !(ascii_ws(prev) || ascii_punct(prev))
        } else {
            match prev_char(b, ix) {
                Some(c) => !char_alphabetic(c) && !(white_space(c) || !char_alphanumeric(c)),
                None => false,
            }
        }
    }
}

/// The last character of a string, if any.
fn last_char(s: &str) -> (r: Option<char>)
    ensures
        r == (if s@.len() > 0 { Some(s@.last()) } else { None::<char> }),
{
    let mut last: Option<char> = None;
    for c in it: s.chars()
        invariant
            it.seq() == s@,
            last == (if it.index() > 0 { Some(it.seq()[it.index() - 1]) } else { None::<char> }),
    {
        last = Some(c);
    }
    last
}

/// The character that ends the (up to) four bytes before `ix`.
fn prev_char_of(bytes: &[u8], ix: usize) -> (r: Option<char>)
    requires
        ix <= bytes@.len(),
    ensures
        r == prev_char(bytes@, ix as int),
{
    let from = if ix >= 4 { ix - 4 } else { 0 };
    let window = vstd::slice::slice_subrange(bytes, from, ix);
    match str_from_utf8(window) {
        Some(s) => {
            proof {
                encode_utf8_decode_utf8(s@);
            }
            match last_char(s) {
                Some(c) => Some(c),
                None => Some(' '),
            }
        },
        None => None,
    }
}

/// Whether only the loose check on the character before `ix` passes (see
/// `loose_only`).
pub fn prev_is_loose_only(bytes: &[u8], ix: usize) -> (r: bool)
    requires
        ix <= bytes@.len(),
    ensures
        r == loose_only(bytes@, ix as int),
{
    if ix == 0 {
        return false;
    }
    let prev = bytes[ix - 1];
    if prev < 0x80 {
        if is_ascii_alphabetic(prev) {
            return false;
        }
        let strict = is_ascii_whitespace(prev) || is_ascii_punctuation(prev);
        return !strict;
    }
    match prev_char_of(bytes, ix) {
        Some(c) => {
            if is_alphabetic(c) {
                return false;
            }
            let strict = is_whitespace(c) || !is_alphanumeric(c);
            !strict
        },
        None => false,
    }
}

// ---------------------------------------------------------------------------
// Domains
// ---------------------------------------------------------------------------

/// The position of the last `c` in `s`, if any.
pub open spec fn last_index_of(s: Seq<u8>, c: u8) -> Option<int>
    decreases s.len(),
{
    if s.len() == 0 {
        None
    } else if s.last() == c {
        Some(s.len() - 1)
    } else {
        last_index_of(s.drop_last(), c)
    }
}

/// A dot-separated domain part is acceptable: empty, or without `_` and
/// with an ASCII letter or digit.
pub open spec fn part_ok(p: Seq<u8>) -> bool {
    p.len() == 0 || (!p.contains(95u8) && exists|k: int| 0 <= k < p.len() && ascii_alnum(#[trigger] p[k]))
}

/// The domain splits at `.` into at least two parts, and its last two parts
/// are acceptable.
pub open spec fn correct_domain(d: Seq<u8>) -> bool {
    match last_index_of(d, 46u8) {
        None => false,
        Some(k) => {
            let before = d.subrange(0, k);
            let penult = match last_index_of(before, 46u8) {
                Some(k2) => before.subrange(k2 + 1, k),
                None => before,
            };
            part_ok(d.subrange(k + 1, d.len() as int)) && part_ok(penult)
        },
    }
}

/// How many times `c` occurs in `s`.
fn count_of(s: &[u8], c: u8) -> (r: usize)
    ensures
        r == count_byte(s@, c),
{
    let mut n: usize = 0;
    let mut i: usize = 0;
    while i < s.len()
        invariant
            i <= s@.len(),
            n == count_byte(s@.subrange(0, i as int), c),
            n <= i,
        decreases s@.len() - i,
    {
        assert(s@.subrange(0, i + 1).drop_last() =~= s@.subrange(0, i as int));
        if s[i] == c {
            n = n + 1;
        }
        i = i + 1;
    }
    assert(s@.subrange(0, i as int) =~= s@);
    n
}

/// The position of the last `c` in `s`, if any.
fn rposition_of(s: &[u8], c: u8) -> (r: Option<usize>)
    ensures
        match r {
            Some(k) => last_index_of(s@, c) == Some(k as int) && k < s@.len(),
            None => last_index_of(s@, c) is None,
        },
{
    let mut i: usize = s.len();
    assert(s@.subrange(0, i as int) =~= s@);
    while i > 0
        invariant
            i <= s@.len(),
            last_index_of(s@, c) == last_index_of(s@.subrange(0, i as int), c),
        decreases i,
    {
        assert(s@.subrange(0, i as int).drop_last() =~= s@.subrange(0, i - 1));
        if s[i - 1] == c {
            return Some(i - 1);
        }
        i = i - 1;
    }
    None
}

/// A domain part is acceptable (see `part_ok`).
fn check_part(p: &[u8]) -> (r: bool)
    ensures
        r == part_ok(p@),
{
    if p.len() == 0 {
        return true;
    }
    let mut i: usize = 0;
    let mut any_alnum = false;
    while i < p.len()
        invariant
            i <= p@.len(),
            forall|k: int| 0 <= k < i ==> p@[k] != 95u8,
            any_alnum == exists|k: int| 0 <= k < i && ascii_alnum(#[trigger] p@[k]),
        decreases p@.len() - i,
    {
        if p[i] == 95u8 {
            assert(p@.contains(95u8));
            return false;
        }
        if is_ascii_alphanumeric(p[i]) {
            any_alnum = true;
        }
        i = i + 1;
    }
    any_alnum
}

/// The domain check of the find-and-replace path (see `correct_domain`).
pub(crate) fn is_correct_domain_for_fnr(domain: &[u8]) -> (r: bool)
    ensures
        r == correct_domain(domain@),
{
    match rposition_of(domain, 46u8) {
        None => false,
        Some(k) => {
            let n = domain.len();
            let last = vstd::slice::slice_subrange(domain, k + 1, n);
            let before = vstd::slice::slice_subrange(domain, 0, k);
            let penult = match rposition_of(before, 46u8) {
                Some(k2) => vstd::slice::slice_subrange(before, k2 + 1, k),
                None => before,
            };
            check_part(last) && check_part(penult)
        },
    }
}

// ---------------------------------------------------------------------------
// Trimming a URL the find-and-replace way
// ---------------------------------------------------------------------------

/// The trailing characters that find-and-replace trims: ``!"&'),.:;<>?]}``.
pub open spec fn fnr_trail_byte(c: u8) -> bool {
    c == 33 || c == 34 || c == 38 || c == 39 || c == 41 || c == 44 || c == 46 || c == 58 || c == 59
        || c == 60 || c == 62 || c == 63 || c == 93 || c == 125
}

/// The start of the run of such characters that ends at `end`, not going
/// below `lo`.
pub open spec fn trail_start(b: Seq<u8>, lo: int, end: int) -> int
    decreases end - lo,
{
    if end <= lo || !fnr_trail_byte(b[end - 1]) {
        end
    } else {
        trail_start(b, lo, end - 1)
    }
}

/// The position of the first `)` in `b[from..to]`, if any.
pub open spec fn next_close(b: Seq<u8>, from: int, to: int) -> Option<int>
    decreases to - from,
{
    if from >= to {
        None
    } else if b[from] == 41u8 {
        Some(from)
    } else {
        next_close(b, from + 1, to)
    }
}

/// A `)` found by `next_close` lies in the searched range.
pub proof fn lemma_next_close(b: Seq<u8>, from: int, to: int)
    ensures
        next_close(b, from, to) matches Some(q) ==> from <= q < to && b[q] == 41u8,
    decreases to - from,
{
    if from < to && b[from] != 41u8 {
        lemma_next_close(b, from + 1, to);
    }
}

/// While `(` outnumber `)`, extend the URL end from `at` to just past the
/// next `)` before `to`, counting the brackets passed over.
pub open spec fn balance_end(b: Seq<u8>, to: int, at: int, opens: nat, closes: nat, url_end: int) -> int
    decreases to - at,
{
    if opens <= closes {
        url_end
    } else {
        match next_close(b, at, to) {
            None => url_end,
            Some(q) => {
                proof {
                    lemma_next_close(b, at, to);
                }
                let seg = b.subrange(at, q + 1);
                balance_end(b, to, q + 1, opens + count_byte(seg, 40u8), closes + count_byte(seg, 41u8), q + 1)
            },
        }
    }
}

/// The end of the URL `b[lo..raw_end]` once its trailing punctuation is
/// trimmed the find-and-replace way, keeping enough of the trail to close
/// the URL's unbalanced `(`.
pub open spec fn split_url_end(b: Seq<u8>, lo: int, raw_end: int) -> int {
    let ts = trail_start(b, lo, raw_end);
    if ts == raw_end {
        raw_end
    } else {
        let url = b.subrange(lo, ts);
        balance_end(b, raw_end, ts, count_byte(url, 40u8), count_byte(url, 41u8), ts)
    }
}

/// A count is at most the length.
pub proof fn lemma_count_le_len(s: Seq<u8>, c: u8)
    ensures
        count_byte(s, c) <= s.len(),
    decreases s.len(),
{
    if s.len() > 0 {
        lemma_count_le_len(s.drop_last(), c);
    }
}

fn is_fnr_trail_byte(c: u8) -> (r: bool)
    ensures
        r == fnr_trail_byte(c),
{
    c == 33 || c == 34 || c == 38 || c == 39 || c == 41 || c == 44 || c == 46 || c == 58 || c == 59
        || c == 60 || c == 62 || c == 63 || c == 93 || c == 125
}

/// Trim trailing characters in ``!"&'),.:;<>?]}`` from `raw_end` while
/// balancing `(` and `)`; returns the new end (at least `min_end`).
pub(crate) fn split_url_trim_end(bytes: &[u8], min_end: usize, raw_end: usize) -> (r: usize)
    requires
        min_end <= raw_end <= bytes@.len(),
    ensures
        r == split_url_end(bytes@, min_end as int, raw_end as int),
        min_end <= r <= raw_end,
{
    let ghost b = bytes@;
    // Find the longest trail at the end.
    let mut trail_start: usize = raw_end;
    while trail_start > min_end && is_fnr_trail_byte(bytes[trail_start - 1])
        invariant
            min_end <= trail_start <= raw_end <= b.len(),
            b == bytes@,
            self::trail_start(b, min_end as int, raw_end as int) == self::trail_start(
                b,
                min_end as int,
                trail_start as int,
            ),
        decreases trail_start,
    {
        trail_start = trail_start - 1;
    }
    if trail_start == raw_end {
        return raw_end;
    }
    // Extend back into the trail to balance any unbalanced `(` of the URL.
    let mut url_end: usize = trail_start;
    let url_segment = vstd::slice::slice_subrange(bytes, min_end, url_end);
    let mut opens: usize = count_of(url_segment, 40u8);
    let mut closes: usize = count_of(url_segment, 41u8);
    proof {
        lemma_count_le_len(url_segment@, 40u8);
        lemma_count_le_len(url_segment@, 41u8);
    }
    let mut at: usize = trail_start;
    let mut searching = true;
    while searching && opens > closes
        invariant
            b == bytes@,
            !searching ==> next_close(b, at as int, raw_end as int) is None,
            min_end <= trail_start <= at <= raw_end <= b.len(),
            url_end == at,
            opens <= at - min_end,
            closes <= at - min_end,
            split_url_end(b, min_end as int, raw_end as int) == balance_end(
                b,
                raw_end as int,
                at as int,
                opens as nat,
                closes as nat,
                url_end as int,
            ),
        decreases raw_end - at, if searching { 1int } else { 0int },
    {
        // Find the next `)` in the trail.
        let mut q: usize = at;
        while q < raw_end && bytes[q] != 41u8
            invariant
                b == bytes@,
                at <= q <= raw_end <= b.len(),
                next_close(b, at as int, raw_end as int) == next_close(b, q as int, raw_end as int),
            decreases raw_end - q,
        {
            q = q + 1;
        }
        if q == raw_end {
            searching = false;
        } else {
            let segment = vstd::slice::slice_subrange(bytes, at, q + 1);
            let more_opens = count_of(segment, 40u8);
            let more_closes = count_of(segment, 41u8);
            proof {
                lemma_count_le_len(segment@, 40u8);
                lemma_count_le_len(segment@, 41u8);
                lemma_next_close(b, at as int, raw_end as int);
            }
            opens = opens + more_opens;
            closes = closes + more_closes;
            url_end = q + 1;
            at = q + 1;
        }
    }
    url_end
}

// ---------------------------------------------------------------------------
// Bare URLs
// ---------------------------------------------------------------------------

/// The URL body stops at `p`: at the end of the text, a space or control
/// byte, DEL, `<`, or a `]` followed by the end, `(`, `[` or whitespace.
pub open spec fn url_stop(b: Seq<u8>, p: int) -> bool {
    p >= b.len() || {
        let c = b[p];
        ||| c <= 32
        ||| c == 0x7f
        ||| c == 60
        ||| (c == 93 && (p + 1 >= b.len() || b[p + 1] == 40 || b[p + 1] == 91 || b[p + 1] == 32
            || b[p + 1] == 9 || b[p + 1] == 10 || b[p + 1] == 13))
    }
}

/// The end of the URL body that starts at `from`: its first stop.
pub open spec fn raw_url_end(b: Seq<u8>, from: int) -> int
    decreases b.len() - from,
{
    if from >= b.len() || url_stop(b, from) {
        from
    } else {
        raw_url_end(b, from + 1)
    }
}

/// The trailing characters micromark's trail trims: ``!"'*,.:;<?]_~``.
pub open spec fn trail_byte(c: u8) -> bool {
    c == 33 || c == 34 || c == 39 || c == 42 || c == 44 || c == 46 || c == 58 || c == 59 || c == 60
        || c == 63 || c == 93 || c == 95 || c == 126
}

/// Trim, from `end` down to `lo`, trailing trail characters and each `)`
/// that `b[from..end]` has more of than `(`.
pub open spec fn trim_trail(b: Seq<u8>, from: int, lo: int, end: int) -> int
    decreases end - lo,
{
    if end <= lo {
        end
    } else {
        let last = b[end - 1];
        if trail_byte(last) {
            trim_trail(b, from, lo, end - 1)
        } else if last == 41u8 && count_byte(b.subrange(from, end), 41u8) > count_byte(
            b.subrange(from, end),
            40u8,
        ) {
            trim_trail(b, from, lo, end - 1)
        } else {
            end
        }
    }
}

/// Searching down from `j` while above `floor`, over ASCII letters, digits
/// and `#`, the position of an `&`.
pub open spec fn entity_start(b: Seq<u8>, floor: int, j: int) -> Option<int>
    decreases j - floor,
{
    if j <= floor {
        None
    } else if b[j] == 38u8 {
        Some(j)
    } else if !(ascii_alnum(b[j]) || b[j] == 35u8) {
        None
    } else {
        entity_start(b, floor, j - 1)
    }
}

/// A trailing `;` that closes an HTML entity `&...;` cuts the URL before the `&`.
pub open spec fn trim_entity(b: Seq<u8>, from: int, lo: int, end: int) -> int {
    if end > lo && b[end - 1] == 59u8 {
        match entity_start(b, from, end - 2) {
            Some(j) => j,
            None => end,
        }
    } else {
        end
    }
}

/// The first position from `i` in `s` of `/`, `?` or `#`, or its length.
pub open spec fn path_end(s: Seq<u8>, i: int) -> int
    decreases s.len() - i,
{
    if i >= s.len() || s[i] == 47u8 || s[i] == 63u8 || s[i] == 35u8 {
        i
    } else {
        path_end(s, i + 1)
    }
}

/// A byte that micromark's domain walks over: ASCII letter or digit, `-`,
/// `_`, `.` or non-ASCII.
pub open spec fn construct_domain_byte(c: u8) -> bool {
    ascii_alnum(c) || c == 45 || c == 95 || c == 46 || c >= 0x80
}

/// The first position from `i` in `s` of a byte micromark's domain does not
/// walk over, or its length.
pub open spec fn construct_domain_end(s: Seq<u8>, i: int) -> int
    decreases s.len() - i,
{
    if i >= s.len() || !construct_domain_byte(s[i]) {
        i
    } else {
        construct_domain_end(s, i + 1)
    }
}

/// A byte of find-and-replace's domain `[-.\w]`.
pub open spec fn fnr_domain_byte(c: u8) -> bool {
    c == 46 || c == 95 || c == 45 || ascii_alnum(c)
}

/// The first position from `i` in `s` of a byte outside `[-.\w]`, or its length.
pub open spec fn fnr_domain_end(s: Seq<u8>, i: int) -> int
    decreases s.len() - i,
{
    if i >= s.len() || !fnr_domain_byte(s[i]) {
        i
    } else {
        fnr_domain_end(s, i + 1)
    }
}

/// The domain holds an ASCII letter or digit, a `-`, or a non-ASCII byte.
pub open spec fn construct_seen(d: Seq<u8>) -> bool {
    exists|k: int| 0 <= k < d.len() && (ascii_alnum(#[trigger] d[k]) || d[k] == 45 || d[k] >= 0x80)
}

/// Whether the last and the penultimate dot-separated parts of `d` hold an `_`.
pub open spec fn underscores(d: Seq<u8>) -> (bool, bool)
    decreases d.len(),
{
    if d.len() == 0 {
        (false, false)
    } else {
        let st = underscores(d.drop_last());
        if d.last() == 95u8 {
            (true, st.1)
        } else if d.last() == 46u8 {
            (false, st.0)
        } else {
            st
        }
    }
}

/// The scheme at `ix`: `http://`, `https://` or `www.`, with its length and
/// whether it is `www.`.
pub open spec fn scheme_at(b: Seq<u8>, ix: int) -> Option<(int, bool)> {
    if has_at(b, ix, http_bytes()) {
        Some((7, false))
    } else if has_at(b, ix, https_bytes()) {
        Some((8, false))
    } else if has_at(b, ix, www_bytes()) {
        Some((4, true))
    } else {
        None
    }
}

/// The character before `ix` passes the strict check: the start of the
/// text, whitespace or punctuation (for a non-ASCII character: whitespace
/// or not alphanumeric, or bytes that are not valid UTF-8).
pub open spec fn prev_strict_ok(b: Seq<u8>, ix: int) -> bool {
    ix == 0 || {
        let prev = b[ix - 1];
        if prev < 0x80 {
            ascii_ws(prev) || ascii_punct(prev)
        } else {
            match prev_char(b, ix) {
                Some(c) => white_space(c) || !char_alphanumeric(c),
                None => true,
            }
        }
    }
}

/// The bare URL that starts at `ix`, as `(start, raw end, end, url, found
/// only by find-and-replace)`: the scheme, then the body up to its first
/// stop, trimmed of trailing punctuation and of a closing entity. Either
/// micromark's construct accepts it (a good first byte after `://`, a
/// domain with a letter, digit, `-` or non-ASCII byte and no `_` in its
/// last two parts), or find-and-replace does (the strict check on the
/// previous character, a correct domain, and its own trimming of the raw
/// body). The character before must not be an ASCII letter, a `www.` URL
/// needs a `.` in its domain, and the URL must be valid UTF-8; `www.` URLs
/// are given the `http://` scheme.
pub open spec fn autolink_at(b: Seq<u8>, ix: int) -> Option<(int, int, int, Seq<char>, bool)> {
    match scheme_at(b, ix) {
        None => None,
        Some(sch) => {
            let p = sch.0;
            let www = sch.1;
            let lo = ix + p;
            let prev_rejects = ix > 0 && b[ix - 1] < 0x80 && ascii_alpha(b[ix - 1]);
            let prev_loose_only = ix > 0 && !prev_strict_ok(b, ix);
            let first_ok = www || (lo < b.len() && !(b[lo] <= 32 || b[lo] == 0x7f) && !(b[lo] < 0x80
                && ascii_punct(b[lo])));
            let raw_end = raw_url_end(b, lo);
            let end = trim_entity(b, ix, lo, trim_trail(b, ix, lo, raw_end));
            let body = b.subrange(lo, end);
            let www_ok = !www || body.subrange(0, path_end(body, 0)).contains(46u8);
            let domain = body.subrange(0, construct_domain_end(body, 0));
            let construct_ok = first_ok && construct_seen(domain) && !underscores(domain).0
                && !underscores(domain).1;
            let fnr_body = b.subrange(lo, raw_end);
            let fnr_domain = fnr_body.subrange(0, fnr_domain_end(fnr_body, 0));
            let url_end = if construct_ok { end } else { split_url_end(b, lo, raw_end) };
            if prev_rejects || raw_end == lo || end <= lo || !www_ok {
                None
            } else if !construct_ok && (prev_loose_only || !correct_domain(fnr_domain) || url_end <= lo) {
                None
            } else if !valid_utf8(b.subrange(ix, url_end)) {
                None
            } else {
                let u = decode_utf8(b.subrange(ix, url_end));
                Some((ix, raw_end, url_end, if www { "http://"@ + u } else { u }, !construct_ok))
            }
        },
    }
}

/// Whether `lit` occurs in `bytes` at `at`.
pub(crate) fn starts_with_at(bytes: &[u8], at: usize, lit: &[u8]) -> (r: bool)
    requires
        at <= bytes@.len(),
    ensures
        r == has_at(bytes@, at as int, lit@),
{
    if lit.len() > bytes.len() - at {
        return false;
    }
    let mut i: usize = 0;
    while i < lit.len()
        invariant
            at + lit@.len() <= bytes@.len(),
            bytes@.len() <= usize::MAX,
            i <= lit@.len(),
            forall|k: int| 0 <= k < i ==> bytes@[at + k] == lit@[k],
        decreases lit@.len() - i,
    {
        if bytes[at + i] != lit[i] {
            assert(bytes@.subrange(at as int, at + lit@.len())[i as int] != lit@[i as int]);
            return false;
        }
        i = i + 1;
    }
    assert(bytes@.subrange(at as int, at + lit@.len()) =~= lit@);
    true
}

/// Whether `c` occurs in `s`.
fn contains_byte(s: &[u8], c: u8) -> (r: bool)
    ensures
        r == s@.contains(c),
{
    let mut i: usize = 0;
    while i < s.len()
        invariant
            i <= s@.len(),
            forall|k: int| 0 <= k < i ==> s@[k] != c,
        decreases s@.len() - i,
    {
        if s[i] == c {
            return true;
        }
        i = i + 1;
    }
    false
}

fn is_trail_byte(c: u8) -> (r: bool)
    ensures
        r == trail_byte(c),
{
    c == 33 || c == 34 || c == 39 || c == 42 || c == 44 || c == 46 || c == 58 || c == 59 || c == 60
        || c == 63 || c == 93 || c == 95 || c == 126
}

/// Whether the URL body stops at `p` (see `url_stop`), for `p` inside the text.
fn stops_at(bytes: &[u8], p: usize) -> (r: bool)
    requires
        p < bytes@.len(),
    ensures
        r == url_stop(bytes@, p as int),
{
    let c = bytes[p];
    if c <= 32 || c == 0x7f || c == 60 {
        return true;
    }
    if c == 93 {
        if p + 1 >= bytes.len() {
            return true;
        }
        let next = bytes[p + 1];
        return next == 40 || next == 91 || next == 32 || next == 9 || next == 10 || next == 13;
    }
    false
}

/// The first position from 0 in `s` of `/`, `?` or `#`, or its length.
fn path_end_of(s: &[u8]) -> (r: usize)
    ensures
        r == path_end(s@, 0),
        r <= s@.len(),
{
    let mut i: usize = 0;
    while i < s.len() && !(s[i] == 47u8 || s[i] == 63u8 || s[i] == 35u8)
        invariant
            i <= s@.len(),
            path_end(s@, 0) == path_end(s@, i as int),
        decreases s@.len() - i,
    {
        i = i + 1;
    }
    i
}

/// The end of micromark's domain at the start of `s`.
fn construct_domain_end_of(s: &[u8]) -> (r: usize)
    ensures
        r == construct_domain_end(s@, 0),
        r <= s@.len(),
{
    let mut i: usize = 0;
    while i < s.len() && (is_ascii_alphanumeric(s[i]) || s[i] == 45 || s[i] == 95 || s[i] == 46 || s[i] >= 0x80)
        invariant
            i <= s@.len(),
            construct_domain_end(s@, 0) == construct_domain_end(s@, i as int),
        decreases s@.len() - i,
    {
        i = i + 1;
    }
    i
}

/// The end of find-and-replace's domain at the start of `s`.
fn fnr_domain_end_of(s: &[u8]) -> (r: usize)
    ensures
        r == fnr_domain_end(s@, 0),
        r <= s@.len(),
{
    let mut i: usize = 0;
    while i < s.len() && (s[i] == 46 || s[i] == 95 || s[i] == 45 || is_ascii_alphanumeric(s[i]))
        invariant
            i <= s@.len(),
            fnr_domain_end(s@, 0) == fnr_domain_end(s@, i as int),
        decreases s@.len() - i,
    {
        i = i + 1;
    }
    i
}

/// Whether a domain holds an ASCII letter or digit, `-` or a non-ASCII byte.
fn domain_seen(d: &[u8]) -> (r: bool)
    ensures
        r == construct_seen(d@),
{
    let mut i: usize = 0;
    while i < d.len()
        invariant
            i <= d@.len(),
            forall|k: int| 0 <= k < i ==> !(ascii_alnum(#[trigger] d@[k]) || d@[k] == 45 || d@[k] >= 0x80),
        decreases d@.len() - i,
    {
        let c = d[i];
        if is_ascii_alphanumeric(c) || c == 45 || c >= 0x80 {
            return true;
        }
        i = i + 1;
    }
    false
}

/// Whether neither of the last two dot-separated parts of a domain holds `_`.
fn underscore_ok(d: &[u8]) -> (r: bool)
    ensures
        r == (!underscores(d@).0 && !underscores(d@).1),
{
    let mut last_has_us = false;
    let mut penult_has_us = false;
    let mut i: usize = 0;
    while i < d.len()
        invariant
            i <= d@.len(),
            (last_has_us, penult_has_us) == underscores(d@.subrange(0, i as int)),
        decreases d@.len() - i,
    {
        assert(d@.subrange(0, i + 1).drop_last() =~= d@.subrange(0, i as int));
        let c = d[i];
        if c == 95u8 {
            last_has_us = true;
        } else if c == 46u8 {
            penult_has_us = last_has_us;
            last_has_us = false;
        }
        i = i + 1;
    }
    assert(d@.subrange(0, i as int) =~= d@);
    !last_has_us && !penult_has_us
}

/// Recognise a bare `http://`, `https://` or `www.` URL starting at `ix`
/// (see `autolink_at`): returns `(ix, raw end, end, url, found only by
/// find-and-replace)`.
pub fn scan_autolink_literal(bytes: &[u8], ix: usize) -> (r: Option<(usize, usize, usize, String, bool)>)
    requires
        ix <= bytes@.len(),
    ensures
        match r {
            Some(t) => autolink_at(bytes@, ix as int) == Some(
                (t.0 as int, t.1 as int, t.2 as int, t.3@, t.4),
            ),
            None => autolink_at(bytes@, ix as int) is None,
        },
        r matches Some(t) ==> t.0 == ix && ix < t.2 <= t.1 <= bytes@.len(),
        r matches Some(t) ==> (scheme_at(bytes@, ix as int) matches Some(sch) && ix + sch.0 <= t.1),
{
    let ghost b = bytes@;
    // Scheme: http(s) and `www.`, not ftp.
    let http: [u8; 7] = [104u8, 116u8, 116u8, 112u8, 58u8, 47u8, 47u8];
    let https: [u8; 8] = [104u8, 116u8, 116u8, 112u8, 115u8, 58u8, 47u8, 47u8];
    let www: [u8; 4] = [119u8, 119u8, 119u8, 46u8];
    proof {
        assert(http@ =~= http_bytes());
        assert(https@ =~= https_bytes());
        assert(www@ =~= www_bytes());
    }
    let (proto_len, is_www): (usize, bool) = if starts_with_at(bytes, ix, &http) {
        (7, false)
    } else if starts_with_at(bytes, ix, &https) {
        (8, false)
    } else if starts_with_at(bytes, ix, &www) {
        (4, true)
    } else {
        return None;
    };
    // The character before: the loose check must pass; remember whether
    // only the loose one does.
    let prev_loose_only = if ix > 0 {
        let prev = bytes[ix - 1];
        let prev_loose_ok = if prev < 0x80 {
            !is_ascii_alphabetic(prev)
        } else {
            true
        };
        if !prev_loose_ok {
            return None;
        }
        let prev_strict_ok = if prev < 0x80 {
            is_ascii_whitespace(prev) || is_ascii_punctuation(prev)
        } else {
            match prev_char_of(bytes, ix) {
                Some(c) => is_whitespace(c) || !is_alphanumeric(c),
                None => true,
            }
        };
        !prev_strict_ok
    } else {
        false
    };
    let lo = ix + proto_len;
    // micromark's construct rejects a first byte after `://` that is
    // whitespace, control or punctuation.
    let construct_first_ok = if is_www {
        true
    } else if lo < bytes.len() {
        let first = bytes[lo];
        if first <= 32 || first == 0x7f {
            false
        } else if first < 0x80 && is_ascii_punctuation(first) {
            false
        } else {
            true
        }
    } else {
        false
    };
    // Collect the URL body up to its first stop.
    let mut end = lo;
    while end < bytes.len() && !stops_at(bytes, end)
        invariant
            b == bytes@,
            lo <= end <= b.len(),
            raw_url_end(b, lo as int) == raw_url_end(b, end as int),
        decreases b.len() - end,
    {
        end = end + 1;
    }
    // Must have at least one byte past the scheme.
    if end == lo {
        return None;
    }
    let raw_end = end;
    // Trim trailing punctuation, and `)` that is unbalanced.
    let mut trimming = true;
    while trimming && end > lo
        invariant
            b == bytes@,
            ix <= lo <= end <= raw_end <= b.len(),
            trim_trail(b, ix as int, lo as int, raw_end as int) == (if trimming {
                trim_trail(b, ix as int, lo as int, end as int)
            } else {
                end as int
            }),
        decreases end, if trimming { 1int } else { 0int },
    {
        let last = bytes[end - 1];
        if is_trail_byte(last) {
            end = end - 1;
        } else if last == 41u8 {
            let segment = vstd::slice::slice_subrange(bytes, ix, end);
            let opens = count_of(segment, 40u8);
            let closes = count_of(segment, 41u8);
            if closes > opens {
                end = end - 1;
            } else {
                trimming = false;
            }
        } else {
            trimming = false;
        }
    }
    // Trim a trailing `;` only when it closes an HTML entity `&...;`.
    if end > lo && bytes[end - 1] == 59u8 {
        let ghost e2 = end - 2;
        let mut j = end - 2;
        let mut cut: Option<usize> = None;
        let mut searching = true;
        while searching && j > ix
            invariant
                b == bytes@,
                ix < lo < end <= b.len(),
                j <= e2 < end,
                searching ==> entity_start(b, ix as int, e2 as int) == entity_start(b, ix as int, j as int),
                searching ==> cut is None,
                !searching ==> (cut is None ==> entity_start(b, ix as int, e2 as int) is None),
                !searching ==> (cut matches Some(k) ==> entity_start(b, ix as int, e2 as int) == Some(k as int)),
                cut matches Some(k) ==> k < end,
            decreases j, if searching { 1int } else { 0int },
        {
            let c = bytes[j];
            let ghost j0 = j as int;
            assert(entity_start(b, ix as int, j0) == (if b[j0] == 38u8 {
                Some(j0)
            } else if !(ascii_alnum(b[j0]) || b[j0] == 35u8) {
                None
            } else {
                entity_start(b, ix as int, j0 - 1)
            }));
            if c == 38u8 {
                cut = Some(j);
                searching = false;
                assert(entity_start(b, ix as int, e2 as int) == Some(j0));
            } else if !(is_ascii_alphanumeric(c) || c == 35u8) {
                searching = false;
                assert(entity_start(b, ix as int, e2 as int) == None::<int>);
            } else {
                j = j - 1;
                assert(entity_start(b, ix as int, e2 as int) == entity_start(b, ix as int, j as int));
            }
        }
        if let Some(k) = cut {
            end = k;
        }
    }
    if end <= lo {
        return None;
    }
    // A `www.` URL needs a `.` in its domain.
    let body = vstd::slice::slice_subrange(bytes, lo, end);
    if is_www {
        let domain_end = path_end_of(body);
        if !contains_byte(vstd::slice::slice_subrange(body, 0, domain_end), 46u8) {
            return None;
        }
    }
    // micromark's construct: a domain with a letter, digit, `-` or
    // non-ASCII byte, and no `_` in its last two parts.
    let construct_end = construct_domain_end_of(body);
    let domain = vstd::slice::slice_subrange(body, 0, construct_end);
    let construct_seen = domain_seen(domain);
    let construct_underscore_ok = underscore_ok(domain);
    let construct_ok = construct_first_ok && construct_seen && construct_underscore_ok;
    if !construct_ok {
        // Construct rejected: try find-and-replace.
        if prev_loose_only {
            return None;
        }
        let fnr_body = vstd::slice::slice_subrange(bytes, lo, raw_end);
        let fnr_end = fnr_domain_end_of(fnr_body);
        let fnr_domain = vstd::slice::slice_subrange(fnr_body, 0, fnr_end);
        if !is_correct_domain_for_fnr(fnr_domain) {
            return None;
        }
        end = split_url_trim_end(bytes, lo, raw_end);
        if end <= lo {
            return None;
        }
    }
    let url_str = match str_from_utf8(vstd::slice::slice_subrange(bytes, ix, end)) {
        Some(s) => s,
        None => {
            return None;
        },
    };
    proof {
        encode_utf8_decode_utf8(url_str@);
    }
    let full_url = if is_www {
        let mut f = String::from_str("http://");
        f.append(url_str);
        f
    } else {
        String::from_str(url_str)
    };
    Some((ix, raw_end, end, full_url, !construct_ok))
}

// ---------------------------------------------------------------------------
// Email addresses
// ---------------------------------------------------------------------------

/// A byte of an email's local part: ASCII letter or digit, `.`, `+`, `-` or `_`.
pub open spec fn email_local_byte(c: u8) -> bool {
    ascii_alnum(c) || c == 46 || c == 43 || c == 45 || c == 95
}

#[inline]
pub fn is_email_local_char(b: u8) -> (r: bool)
    ensures
        r == email_local_byte(b),
{
    is_ascii_alphanumeric(b) || b == 46 || b == 43 || b == 45 || b == 95
}

/// Walking back from `i` over local-part bytes, where the walk stops.
pub open spec fn local_start(b: Seq<u8>, i: int) -> int
    decreases i,
{
    if i > 0 && email_local_byte(b[i - 1]) {
        local_start(b, i - 1)
    } else {
        i
    }
}

/// From `s`, the first start before `at` whose previous byte is neither `/`
/// nor an ASCII letter or digit (or `at` when there is none).
pub open spec fn retry_start(b: Seq<u8>, s: int, at: int) -> int
    decreases at - s,
{
    if s >= at || s == 0 || (b[s - 1] != 47u8 && !ascii_alnum(b[s - 1])) {
        s
    } else {
        retry_start(b, s + 1, at)
    }
}

/// Walking forward from `i` over ASCII letters, digits, `.`, `-` and `_`,
/// where the walk stops.
pub open spec fn email_domain_end(b: Seq<u8>, i: int) -> int
    decreases b.len() - i,
{
    if i < b.len() && (ascii_alnum(b[i]) || b[i] == 46 || b[i] == 45 || b[i] == 95) {
        email_domain_end(b, i + 1)
    } else {
        i
    }
}

/// `end` moved back over trailing `.`, not below `lo`.
pub open spec fn trim_dots(b: Seq<u8>, lo: int, end: int) -> int
    decreases end - lo,
{
    if end > lo && b[end - 1] == 46u8 {
        trim_dots(b, lo, end - 1)
    } else {
        end
    }
}

/// The email address around the `@` at `at`, as `(start, end, "mailto:" +
/// address, retry needed)`: the local part is the longest run of local-part
/// bytes before the `@` (or, when a `/` precedes that run, the part of it
/// after the last `/`, letter or digit that comes before it, with a retry
/// needed); the domain is the run of letters, digits, `.`, `-` and `_`
/// after it without trailing dots. The domain must not end in `-`, `_` or a
/// digit, must hold a `.`, its last part must hold a letter, and its last two
/// parts must not hold `_`.
pub open spec fn email_at(b: Seq<u8>, at: int) -> Option<(int, int, Seq<char>, bool)> {
    if at < 0 || at >= b.len() || b[at] != 64u8 {
        None
    } else {
        let s0 = local_start(b, at);
        let max_ok = s0 == 0 || b[s0 - 1] != 47u8;
        let start = if max_ok { s0 } else { retry_start(b, s0, at) };
        let end0 = email_domain_end(b, at + 1);
        let end = trim_dots(b, at + 1, end0);
        let domain = b.subrange(at + 1, end);
        if s0 == at || start >= at || at + 1 >= b.len() || end0 == at + 1 || end == at + 1 {
            None
        } else if b[end - 1] == 45u8 || b[end - 1] == 95u8 || ascii_digit(b[end - 1]) {
            None
        } else {
            match last_index_of(domain, 46u8) {
                None => None,
                Some(ld) => {
                    let tld = domain.subrange(ld + 1, domain.len() as int);
                    let before = domain.subrange(0, ld);
                    let sld_us = match last_index_of(before, 46u8) {
                        Some(k) => before.subrange(k + 1, ld).contains(95u8),
                        None => before.contains(95u8),
                    };
                    if tld.len() == 0 || !(exists|k: int| 0 <= k < tld.len() && ascii_alpha(#[trigger] tld[k])) {
                        None
                    } else if tld.contains(95u8) || sld_us {
                        None
                    } else if !valid_utf8(b.subrange(start, end)) {
                        None
                    } else {
                        Some((start, end, "mailto:"@ + decode_utf8(b.subrange(start, end)), !max_ok))
                    }
                },
            }
        }
    }
}

/// Whether `s` holds an ASCII letter.
fn any_alpha(s: &[u8]) -> (r: bool)
    ensures
        r == exists|k: int| 0 <= k < s@.len() && ascii_alpha(#[trigger] s@[k]),
{
    let mut i: usize = 0;
    while i < s.len()
        invariant
            i <= s@.len(),
            forall|k: int| 0 <= k < i ==> !ascii_alpha(#[trigger] s@[k]),
        decreases s@.len() - i,
    {
        if is_ascii_alphabetic(s[i]) {
            return true;
        }
        i = i + 1;
    }
    false
}

/// GFM extended email autolink around the `@` at `at_ix` (see `email_at`):
/// returns `(start, end, "mailto:...", retry needed)`.
pub fn scan_email_autolink(bytes: &[u8], at_ix: usize) -> (r: Option<(usize, usize, String, bool)>)
    ensures
        match r {
            Some(t) => email_at(bytes@, at_ix as int) == Some((t.0 as int, t.1 as int, t.2@, t.3)),
            None => email_at(bytes@, at_ix as int) is None,
        },
        r matches Some(t) ==> t.0 < at_ix < t.1 <= bytes@.len(),
{
    let ghost b = bytes@;
    if at_ix >= bytes.len() || bytes[at_ix] != 64u8 {
        return None;
    }
    // Walk backward to the maximum local-part start.
    let mut start = at_ix;
    while start > 0 && is_email_local_char(bytes[start - 1])
        invariant
            b == bytes@,
            start <= at_ix < b.len(),
            local_start(b, at_ix as int) == local_start(b, start as int),
        decreases start,
    {
        start = start - 1;
    }
    if start == at_ix {
        return None;
    }
    let max_walkback_ok = start == 0 || bytes[start - 1] != 47u8;
    let mut retry_needed = !max_walkback_ok;
    if !max_walkback_ok {
        // Advance `start` until the previous byte is neither `/` nor an
        // ASCII letter or digit.
        while start < at_ix && !(start == 0 || (bytes[start - 1] != 47u8 && !is_ascii_alphanumeric(bytes[start - 1])))
            invariant
                b == bytes@,
                start <= at_ix < b.len(),
                retry_start(b, local_start(b, at_ix as int), at_ix as int) == retry_start(b, start as int, at_ix as int),
            decreases at_ix - start,
        {
            start = start + 1;
        }
        if start >= at_ix {
            return None;
        }
        retry_needed = true;
    }
    // Forward: the domain.
    if at_ix + 1 >= bytes.len() {
        return None;
    }
    let mut end = at_ix + 1;
    while end < bytes.len() && (is_ascii_alphanumeric(bytes[end]) || bytes[end] == 46u8 || bytes[end] == 45u8 || bytes[end] == 95u8)
        invariant
            b == bytes@,
            at_ix + 1 <= end <= b.len(),
            email_domain_end(b, at_ix + 1) == email_domain_end(b, end as int),
        decreases b.len() - end,
    {
        end = end + 1;
    }
    if end == at_ix + 1 {
        return None;
    }
    let ghost end0 = end;
    // Trailing `.` stay outside the address.
    while end > at_ix + 1 && bytes[end - 1] == 46u8
        invariant
            b == bytes@,
            at_ix + 1 <= end <= end0 <= b.len(),
            trim_dots(b, at_ix + 1, end0 as int) == trim_dots(b, at_ix + 1, end as int),
        decreases end,
    {
        end = end - 1;
    }
    if end == at_ix + 1 {
        return None;
    }
    // The domain must not end in `-`, `_` or a digit.
    let last = bytes[end - 1];
    if last == 45u8 || last == 95u8 || is_ascii_digit(last) {
        return None;
    }
    // It must hold a `.`; its last part must hold a letter, and its last two
    // parts no `_`.
    let domain = vstd::slice::slice_subrange(bytes, at_ix + 1, end);
    let last_dot = match rposition_of(domain, 46u8) {
        Some(k) => k,
        None => {
            return None;
        },
    };
    let dn = domain.len();
    let tld = vstd::slice::slice_subrange(domain, last_dot + 1, dn);
    if tld.len() == 0 || !any_alpha(tld) {
        return None;
    }
    if contains_byte(tld, 95u8) {
        return None;
    }
    let before = vstd::slice::slice_subrange(domain, 0, last_dot);
    match rposition_of(before, 46u8) {
        Some(second_last_dot) => {
            if contains_byte(vstd::slice::slice_subrange(before, second_last_dot + 1, last_dot), 95u8) {
                return None;
            }
        },
        None => {
            if contains_byte(before, 95u8) {
                return None;
            }
        },
    }
    let email_str = match str_from_utf8(vstd::slice::slice_subrange(bytes, start, end)) {
        Some(s) => s,
        None => {
            return None;
        },
    };
    proof {
        encode_utf8_decode_utf8(email_str@);
    }
    let mut mailto = String::from_str("mailto:");
    mailto.append(email_str);
    Some((start, end, mailto, retry_needed))
}

// ---------------------------------------------------------------------------
// Small checks on text
// ---------------------------------------------------------------------------

/// The first position from `i` where `://` occurs in `u`, if any.
pub open spec fn scheme_sep(u: Seq<u8>, i: int) -> Option<int>
    decreases u.len() - i,
{
    if i + 3 > u.len() {
        None
    } else if u[i] == 58u8 && u[i + 1] == 47u8 && u[i + 2] == 47u8 {
        Some(i)
    } else {
        scheme_sep(u, i + 1)
    }
}

/// The URL's domain (after `://` when present, up to the first `/`, `?` or
/// `#`) holds a `.`.
pub open spec fn has_domain_dot(u: Seq<u8>) -> bool {
    let a = match scheme_sep(u, 0) {
        Some(p) => u.subrange(p + 3, u.len() as int),
        None => u,
    };
    a.subrange(0, path_end(a, 0)).contains(46u8)
}

/// Whether the URL's domain holds a `.` (see `has_domain_dot`).
pub fn domain_has_dot(url: &str) -> (r: bool)
    ensures
        r == has_domain_dot(url.spec_bytes()),
{
    let u = url.as_bytes();
    let ghost ub = u@;
    let n = u.len();
    let mut i: usize = 0;
    let mut found: Option<usize> = None;
    while n >= 3 && i <= n - 3 && found.is_none()
        invariant
            ub == u@,
            n == ub.len(),
            found matches Some(p) ==> scheme_sep(ub, 0) == Some(p as int) && p + 3 <= n,
            found is None ==> scheme_sep(ub, 0) == scheme_sep(ub, i as int),
        decreases n - i, if found is None { 1int } else { 0int },
    {
        if u[i] == 58u8 && u[i + 1] == 47u8 && u[i + 2] == 47u8 {
            found = Some(i);
        } else {
            i = i + 1;
        }
    }
    let after_scheme = match found {
        Some(p) => vstd::slice::slice_subrange(u, p + 3, n),
        None => u,
    };
    let domain_end = path_end_of(after_scheme);
    contains_byte(vstd::slice::slice_subrange(after_scheme, 0, domain_end), 46u8)
}

/// The bracket depth after `b[i..]`, from depth `d`: `[` opens, `]` closes
/// an open bracket, and a backslash skips the byte after it.
pub open spec fn bracket_depth(b: Seq<u8>, i: int, d: int) -> int
    decreases b.len() - i,
{
    if i >= b.len() {
        d
    } else if b[i] == 92u8 {
        if i + 2 >= b.len() {
            d
        } else {
            bracket_depth(b, i + 2, d)
        }
    } else if b[i] == 91u8 {
        bracket_depth(b, i + 1, d + 1)
    } else if b[i] == 93u8 && d > 0 {
        bracket_depth(b, i + 1, d - 1)
    } else {
        bracket_depth(b, i + 1, d)
    }
}

/// Fold the bracket depth forward over one string of text: whether a `[`
/// is still open after it (one is open before it when `was_open`).
pub fn update_bracket_depth(was_open: bool, s: &str) -> (r: bool)
    requires
        s.spec_bytes().len() < i32::MAX,
    ensures
        r == (bracket_depth(s.spec_bytes(), 0, if was_open { 1 } else { 0 }) > 0),
{
    let mut depth: i32 = if was_open { 1 } else { 0 };
    let bytes = s.as_bytes();
    let ghost b = bytes@;
    let ghost d0: int = depth as int;
    let mut i: usize = 0;
    while i < bytes.len()
        invariant
            b == bytes@,
            b.len() < i32::MAX,
            0 <= depth <= d0 + i,
            d0 <= 1,
            bracket_depth(b, 0, d0) == bracket_depth(b, i as int, depth as int),
        decreases b.len() - i,
    {
        let c = bytes[i];
        if c == 92u8 {
            i = i + 2;
            if i > bytes.len() {
                i = bytes.len();
                proof {
                    assert(bracket_depth(b, i as int, depth as int) == depth);
                }
            }
        } else {
            if c == 91u8 {
                depth = depth + 1;
            } else if c == 93u8 && depth > 0 {
                depth = depth - 1;
            }
            i = i + 1;
        }
    }
    depth > 0
}


proof fn lemma_raw_url_end_bounds(b: Seq<u8>, from: int)
    ensures
        from <= raw_url_end(b, from),
        from <= b.len() ==> raw_url_end(b, from) <= b.len(),
    decreases b.len() - from,
{
    if !(from >= b.len() || url_stop(b, from)) {
        lemma_raw_url_end_bounds(b, from + 1);
    }
}

proof fn lemma_trim_trail_end(b: Seq<u8>, from: int, lo: int, end: int)
    requires
        lo <= end <= b.len(),
    ensures
        lo <= trim_trail(b, from, lo, end) <= end,
        trim_trail(b, from, lo, end) > lo ==> !trail_byte(b[trim_trail(b, from, lo, end) - 1]),
    decreases end - lo,
{
    if end > lo {
        let last = b[end - 1];
        if trail_byte(last) || (last == 41u8 && count_byte(b.subrange(from, end), 41u8) > count_byte(
            b.subrange(from, end),
            40u8,
        )) {
            lemma_trim_trail_end(b, from, lo, end - 1);
        }
    }
}

/// A URL found by the construct scan never ends in trailing punctuation:
/// its last byte is none of `!`, `"`, `'`, `*`, `,`, `.`, `:`, `;`, `<`,
/// `?`, `]`, `_`, `~`, which stay outside the link.
pub proof fn law_autolink_drops_trailing_punctuation(b: Seq<u8>, ix: int)
    requires
        0 <= ix <= b.len(),
        autolink_at(b, ix) matches Some(r) && !r.4,
    ensures
        ({
            let r = autolink_at(b, ix)->0;
            let c = b[r.2 - 1];
            &&& r.0 == ix < r.2 <= r.1 <= b.len()
            &&& c != 33u8 && c != 34u8 && c != 39u8 && c != 42u8 && c != 44u8 && c != 46u8
            &&& c != 58u8 && c != 59u8 && c != 60u8 && c != 63u8 && c != 93u8 && c != 95u8
            &&& c != 126u8
        }),
{
    let sch = scheme_at(b, ix)->0;
    let lo = ix + sch.0;
    let raw_end = raw_url_end(b, lo);
    lemma_raw_url_end_bounds(b, lo);
    if lo <= b.len() {
        lemma_trim_trail_end(b, ix, lo, raw_end);
    }
    let e = trim_trail(b, ix, lo, raw_end);
    assert(trim_entity(b, ix, lo, e) == e);
}


proof fn lemma_trail_start_end(b: Seq<u8>, lo: int, end: int)
    requires
        lo <= end <= b.len(),
    ensures
        lo <= trail_start(b, lo, end) <= end,
        trail_start(b, lo, end) > lo ==> !fnr_trail_byte(b[trail_start(b, lo, end) - 1]),
    decreases end - lo,
{
    if end > lo && fnr_trail_byte(b[end - 1]) {
        lemma_trail_start_end(b, lo, end - 1);
    }
}

proof fn lemma_balance_end_close(b: Seq<u8>, to: int, at: int, opens: nat, closes: nat, url_end: int)
    requires
        at <= to <= b.len(),
        url_end <= to,
    ensures
        balance_end(b, to, at, opens, closes, url_end) == url_end || (at < balance_end(
            b,
            to,
            at,
            opens,
            closes,
            url_end,
        ) <= to && b[balance_end(b, to, at, opens, closes, url_end) - 1] == 41u8),
    decreases to - at,
{
    if opens > closes {
        lemma_next_close(b, at, to);
        if let Some(q) = next_close(b, at, to) {
            let seg = b.subrange(at, q + 1);
            lemma_balance_end_close(b, to, q + 1, opens + count_byte(seg, 40u8), closes + count_byte(seg, 41u8), q + 1);
        }
    }
}

/// A URL found the find-and-replace way ends either in a `)` that closes
/// one of its `(` or in none of `!`, `"`, `&`, `'`, `)`, `,`, `.`, `:`,
/// `;`, `<`, `>`, `?`, `]`, `}`, which stay outside the link.
pub proof fn law_autolink_fallback_drops_trailing_punctuation(b: Seq<u8>, ix: int)
    requires
        0 <= ix <= b.len(),
        autolink_at(b, ix) matches Some(r) && r.4,
    ensures
        ({
            let r = autolink_at(b, ix)->0;
            let c = b[r.2 - 1];
            &&& r.0 == ix < r.2 <= r.1 <= b.len()
            &&& c == 41u8 || (c != 33u8 && c != 34u8 && c != 38u8 && c != 39u8 && c != 44u8
                && c != 46u8 && c != 58u8 && c != 59u8 && c != 60u8 && c != 62u8 && c != 63u8
                && c != 93u8 && c != 125u8)
        }),
{
    let sch = scheme_at(b, ix)->0;
    let lo = ix + sch.0;
    let raw_end = raw_url_end(b, lo);
    lemma_raw_url_end_bounds(b, lo);
    if lo <= b.len() {
        lemma_trail_start_end(b, lo, raw_end);
        let ts = trail_start(b, lo, raw_end);
        if ts != raw_end {
            let url = b.subrange(lo, ts);
            lemma_balance_end_close(b, raw_end, ts, count_byte(url, 40u8), count_byte(url, 41u8), ts);
        }
    }
}

} // verus!
