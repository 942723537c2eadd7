//! Mapping the bytes of an inline text back to the source bytes they came
//! from: backslash escapes, trailing blanks before a line ending, the
//! indentation of continuation lines and blockquote markers are in the
//! source but not in the text.
use vstd::prelude::*;
use crate::ascii::{ascii_punct, is_ascii_punctuation};

verus! {

/// A space or a tab.
pub open spec fn blank(b: u8) -> bool {
    b == 32 || b == 9
}

/// A line feed or a carriage return.
pub open spec fn line_break(b: u8) -> bool {
    b == 10 || b == 13
}

/// Past the blanks at `s`.
pub open spec fn blank_end(src: Seq<u8>, s: int) -> int
    decreases src.len() - s,
{
    if 0 <= s < src.len() && blank(src[s]) {
        blank_end(src, s + 1)
    } else {
        s
    }
}

pub proof fn lemma_blank_end(src: Seq<u8>, s: int)
    requires
        0 <= s,
    ensures
        s <= blank_end(src, s),
        s <= src.len() ==> blank_end(src, s) <= src.len(),
    decreases src.len() - s,
{
    if 0 <= s < src.len() && blank(src[s]) {
        lemma_blank_end(src, s + 1);
    }
}

/// Skipping source blanks (other than `c`, the next text byte) that only
/// precede a line ending.
pub open spec fn trailing_blanks_end(c: u8, src: Seq<u8>, s: int) -> int
    decreases src.len() - s,
{
    if 0 <= s < src.len() && blank(src[s]) && c != src[s] {
        let peek = blank_end(src, s + 1);
        if peek < src.len() && line_break(src[peek]) {
            trailing_blanks_end(c, src, s + 1)
        } else {
            s
        }
    } else {
        s
    }
}

pub proof fn lemma_trailing_blanks_end(c: u8, src: Seq<u8>, s: int)
    requires
        0 <= s < src.len(),
    ensures
        s <= trailing_blanks_end(c, src, s) < src.len(),
    decreases src.len() - s,
{
    if 0 <= s < src.len() && blank(src[s]) && c != src[s] {
        let peek = blank_end(src, s + 1);
        lemma_blank_end(src, s + 1);
        if peek < src.len() && line_break(src[peek]) {
            lemma_trailing_blanks_end(c, src, s + 1);
        }
    }
}

/// Past the blockquote markers (`>` and the blanks after each) at `s`.
pub open spec fn quote_markers_end(src: Seq<u8>, s: int) -> int
    decreases src.len() - s,
{
    if 0 <= s < src.len() && src[s] == 62 {
        proof {
            lemma_blank_end(src, s + 1);
        }
        quote_markers_end(src, blank_end(src, s + 1))
    } else {
        s
    }
}

pub proof fn lemma_quote_markers_end(src: Seq<u8>, s: int)
    requires
        0 <= s,
    ensures
        s <= quote_markers_end(src, s),
    decreases src.len() - s,
{
    if 0 <= s < src.len() && src[s] == 62 {
        lemma_blank_end(src, s + 1);
        lemma_quote_markers_end(src, blank_end(src, s + 1));
    }
}

/// The source position of text byte `ti`, looking from source position
/// `si`: past an escaping backslash, blanks that only precede a line
/// ending, and, after a line break in the text, the indentation and
/// blockquote markers of the next source line. `None` when the source runs
/// out right after such a line break, where the lookup would read past it.
pub open spec fn source_pos(t: Seq<u8>, src: Seq<u8>, ti: int, si: int) -> Option<int> {
    let s1 = if src[si] == 92 && si + 1 < src.len() && ascii_punct(src[si + 1]) {
        si + 1
    } else {
        si
    };
    let s2 = trailing_blanks_end(t[ti], src, s1);
    let after_break = ti > 0 && line_break(t[ti - 1]);
    let s3 = if after_break && blank(src[s2]) && t[ti] != src[s2] {
        blank_end(src, s2)
    } else {
        s2
    };
    if after_break && s3 >= src.len() {
        None
    } else if after_break && src[s3] == 62 && t[ti] != 62 {
        Some(quote_markers_end(src, s3))
    } else {
        Some(s3)
    }
}

/// The result of mapping text bytes to source bytes: the source position
/// of each text byte and, last, the position after the final one; or the
/// bytes diverge in some other way.
pub enum MapResult {
    Mapped(Seq<int>),
    Diverged,
}

/// Mapping text bytes from `ti` on, with the source from `si` on; `None`
/// where the lookup would read past the source.
pub open spec fn map_from(t: Seq<u8>, src: Seq<u8>, ti: int, si: int) -> Option<MapResult>
    decreases t.len() - ti,
{
    if ti < 0 || ti >= t.len() {
        Some(MapResult::Mapped(seq![si]))
    } else if si < 0 || si >= src.len() {
        Some(MapResult::Diverged)
    } else {
        match source_pos(t, src, ti, si) {
            None => None,
            Some(s) => if s >= src.len() || src[s] != t[ti] {
                Some(MapResult::Diverged)
            } else {
                match map_from(t, src, ti + 1, s + 1) {
                    None => None,
                    Some(MapResult::Mapped(m)) => Some(MapResult::Mapped(seq![s] + m)),
                    Some(MapResult::Diverged) => Some(MapResult::Diverged),
                }
            },
        }
    }
}

/// The map from text bytes to source bytes: the identity when the source
/// span is the text itself, else the byte-by-byte walk.
pub open spec fn text_source_map(t: Seq<u8>, src: Seq<u8>) -> Option<MapResult> {
    if src.len() > 0 && src == t {
        Some(MapResult::Mapped(Seq::new((t.len() + 1) as nat, |i: int| i)))
    } else {
        map_from(t, src, 0, 0)
    }
}

/// The views of a list of positions.
pub open spec fn positions(v: Seq<usize>) -> Seq<int> {
    v.map_values(|x: usize| x as int)
}

/// The map result with the positions `p` before it.
pub open spec fn after_prefix(p: Seq<int>, r: Option<MapResult>) -> Option<MapResult> {
    match r {
        None => None,
        Some(MapResult::Mapped(m)) => Some(MapResult::Mapped(p + m)),
        Some(MapResult::Diverged) => Some(MapResult::Diverged),
    }
}

fn is_blank(b: u8) -> (r: bool)
    ensures
        r == blank(b),
{
    b == 32 || b == 9
}

fn is_line_break(b: u8) -> (r: bool)
    ensures
        r == line_break(b),
{
    b == 10 || b == 13
}

/// Past the blanks at `s`.
fn skip_blanks(src: &[u8], s: usize) -> (r: usize)
    requires
        s <= src@.len(),
    ensures
        r as int == blank_end(src@, s as int),
        s <= r <= src@.len(),
{
    let mut k = s;
    while k < src.len() && is_blank(src[k])
        invariant
            s <= k <= src@.len(),
            blank_end(src@, k as int) == blank_end(src@, s as int),
        decreases src@.len() - k,
    {
        k += 1;
    }
    k
}

/// Past the source blanks (other than `c`) that only precede a line ending.
fn skip_trailing_blanks(c: u8, src: &[u8], s: usize) -> (r: usize)
    requires
        s < src@.len(),
    ensures
        r as int == trailing_blanks_end(c, src@, s as int),
        s <= r < src@.len(),
{
    let mut k = s;
    while k < src.len() && is_blank(src[k]) && c != src[k]
        invariant
            s <= k < src@.len(),
            trailing_blanks_end(c, src@, k as int) == trailing_blanks_end(c, src@, s as int),
        decreases src@.len() - k,
    {
        let peek = skip_blanks(src, k + 1);
        if peek < src.len() && is_line_break(src[peek]) {
            k += 1;
        } else {
            return k;
        }
    }
    k
}

/// Past the blockquote markers at `s`.
fn skip_quote_markers(src: &[u8], s: usize) -> (r: usize)
    requires
        s <= src@.len(),
    ensures
        r as int == quote_markers_end(src@, s as int),
        s <= r <= src@.len(),
{
    let mut k = s;
    while k < src.len() && src[k] == 62
        invariant
            s <= k <= src@.len(),
            quote_markers_end(src@, k as int) == quote_markers_end(src@, s as int),
        decreases src@.len() - k,
    {
        k = skip_blanks(src, k + 1);
    }
    k
}

/// Whether two byte slices are equal.
fn bytes_equal(a: &[u8], b: &[u8]) -> (r: bool)
    ensures
        r == (a@ == b@),
{
    if a.len() != b.len() {
        return false;
    }
    let mut i: usize = 0;
    while i < a.len()
        invariant
            i <= a@.len(),
            a@.len() == b@.len(),
            forall|j: int| 0 <= j < i ==> a@[j] == b@[j],
        decreases a@.len() - i,
    {
        if a[i] != b[i] {
            return false;
        }
        i += 1;
    }
    assert(a@ =~= b@);
    true
}

/// Maps each byte of an inline text to the position of the source byte it
/// came from (relative to the source span of the text), with one more
/// entry for the end; `None` when the text differs from the source in some
/// way other than escapes, trailing blanks, continuation indentation and
/// blockquote markers.
pub fn text_to_source_map(bytes: &[u8], source: &[u8]) -> (r: Option<Vec<usize>>)
    requires
        bytes@.len() < usize::MAX,
        text_source_map(bytes@, source@) is Some,
    ensures
        match text_source_map(bytes@, source@)->0 {
            MapResult::Mapped(m) => r matches Some(v) && positions(v@) == m,
            MapResult::Diverged => r is None,
        },
{
    let ghost t = bytes@;
    let ghost src = source@;
    let n = bytes.len();
    let slen = source.len();
    if slen > 0 && bytes_equal(source, bytes) {
        let mut map: Vec<usize> = Vec::new();
        let mut i: usize = 0;
        while i <= n
            invariant
                i <= n + 1,
                n == t.len() < usize::MAX,
                map@.len() == i,
                forall|j: int| 0 <= j < i ==> map@[j] == j,
            decreases n + 1 - i,
        {
            map.push(i);
            i += 1;
        }
        assert(positions(map@) =~= Seq::new((t.len() + 1) as nat, |i: int| i));
        return Some(map);
    }
    assert(text_source_map(t, src) == map_from(t, src, 0, 0));
    let mut map: Vec<usize> = Vec::new();
    let mut ti: usize = 0;
    let mut si: usize = 0;
    assert(positions(map@) =~= Seq::<int>::empty());
    assert(after_prefix(positions(map@), map_from(t, src, 0, 0)) == map_from(t, src, 0, 0)) by {
        match map_from(t, src, 0, 0) {
            Some(MapResult::Mapped(m)) => {
                assert(positions(map@) + m =~= m);
            },
            _ => {},
        }
    }
    while ti < n
        invariant
            ti <= n,
            n == t.len() < usize::MAX,
            slen == src.len(),
            t == bytes@,
            src == source@,
            map_from(t, src, 0, 0) is Some,
            text_source_map(t, src) == map_from(t, src, 0, 0),
            after_prefix(positions(map@), map_from(t, src, ti as int, si as int)) == map_from(
                t,
                src,
                0,
                0,
            ),
        decreases n - ti,
    {
        if si >= slen {
            return None;
        }
        let mut s = si;
        if source[s] == 92 && s + 1 < slen && is_ascii_punctuation(source[s + 1]) {
            s += 1;
        }
        s = skip_trailing_blanks(bytes[ti], source, s);
        let after_break = ti > 0 && is_line_break(bytes[ti - 1]);
        if after_break && is_blank(source[s]) && bytes[ti] != source[s] {
            s = skip_blanks(source, s);
        }
        if after_break && source[s] == 62 && bytes[ti] != 62 {
            s = skip_quote_markers(source, s);
        }
        if s >= slen || source[s] != bytes[ti] {
            return None;
        }
        let ghost before = positions(map@);
        map.push(s);
        proof {
            assert(positions(map@) =~= before.push(s as int));
            match map_from(t, src, ti + 1, s + 1) {
                Some(MapResult::Mapped(m)) => {
                    assert(before.push(s as int) + m =~= before + (seq![s as int] + m));
                },
                _ => {},
            }
        }
        si = s + 1;
        ti += 1;
    }
    map.push(si);
    proof {
        let ghost p = positions(map@);
        assert(p =~= positions(map@.drop_last()).push(si as int));
        assert(positions(map@.drop_last()) + seq![si as int] =~= p);
    }
    Some(map)
}

proof fn lemma_source_pos(t: Seq<u8>, src: Seq<u8>, ti: int, si: int)
    requires
        0 <= ti < t.len(),
        0 <= si < src.len(),
    ensures
        source_pos(t, src, ti, si) matches Some(s) ==> si <= s,
{
    let s1 = if src[si] == 92 && si + 1 < src.len() && ascii_punct(src[si + 1]) {
        si + 1
    } else {
        si
    };
    lemma_trailing_blanks_end(t[ti], src, s1);
    let s2 = trailing_blanks_end(t[ti], src, s1);
    lemma_blank_end(src, s2);
    let after_break = ti > 0 && line_break(t[ti - 1]);
    let s3 = if after_break && blank(src[s2]) && t[ti] != src[s2] {
        blank_end(src, s2)
    } else {
        s2
    };
    lemma_quote_markers_end(src, s3);
}

proof fn lemma_map_from_sound(t: Seq<u8>, src: Seq<u8>, ti: int, si: int)
    requires
        0 <= ti <= t.len(),
        0 <= si <= src.len(),
    ensures
        map_from(t, src, ti, si) matches Some(MapResult::Mapped(m)) ==> {
            &&& m.len() == t.len() - ti + 1
            &&& si <= m[0]
            &&& m[m.len() - 1] <= src.len()
            &&& forall|k: int| 0 <= k < t.len() - ti ==> src[m[k]] == t[ti + k] && m[k] < src.len()
            &&& forall|a: int, b: int| 0 <= a < b < m.len() ==> m[a] < m[b]
        },
    decreases t.len() - ti,
{
    if ti < t.len() && si < src.len() {
        lemma_source_pos(t, src, ti, si);
        match source_pos(t, src, ti, si) {
            None => {},
            Some(s) => {
                if !(s >= src.len() || src[s] != t[ti]) {
                    lemma_map_from_sound(t, src, ti + 1, s + 1);
                    match map_from(t, src, ti + 1, s + 1) {
                        Some(MapResult::Mapped(m2)) => {
                            let m = seq![s] + m2;
                            assert forall|k: int| 0 <= k < t.len() - ti implies src[m[k]] == t[ti
                                + k] && m[k] < src.len() by {
                                if k > 0 {
                                    assert(m[k] == m2[k - 1]);
                                }
                            }
                            assert forall|a: int, b: int| 0 <= a < b < m.len() implies m[a]
                                < m[b] by {
                                if a > 0 {
                                    assert(m[a] == m2[a - 1] && m[b] == m2[b - 1]);
                                } else {
                                    assert(m[b] == m2[b - 1]);
                                    assert(m2[0] <= m2[b - 1]) by {
                                        if b - 1 > 0 {
                                            assert(m2[0] < m2[b - 1]);
                                        }
                                    }
                                }
                            }
                            assert(m[m.len() - 1] == m2[m2.len() - 1]);
                        },
                        _ => {},
                    }
                }
            },
        }
    }
}

/// The map from text bytes to source bytes is sound: it has one entry per
/// text byte and one for the end, each text byte maps to an equal source
/// byte, and the positions strictly increase and stay within the source.
pub proof fn law_source_map_sound(t: Seq<u8>, src: Seq<u8>)
    requires
        text_source_map(t, src) matches Some(MapResult::Mapped(_)),
    ensures
        text_source_map(t, src) matches Some(MapResult::Mapped(m)) && {
            &&& m.len() == t.len() + 1
            &&& forall|i: int| 0 <= i < t.len() ==> 0 <= m[i] < src.len() && src[m[i]] == t[i]
            &&& forall|a: int, b: int| 0 <= a < b < m.len() ==> m[a] < m[b]
            &&& 0 <= m[0] && m[t.len() as int] <= src.len()
        },
{
    if src.len() > 0 && src == t {
    } else {
        lemma_map_from_sound(t, src, 0, 0);
    }
}

/// A UTF-8 continuation byte.
pub open spec fn continuation(b: u8) -> bool {
    0x80 <= b <= 0xbf
}

/// The line and column reached after walking `s[i..pos]` from `(line,
/// col)`: a line feed, a carriage return or `\r\n` starts a new line at
/// column one; every byte that starts a character moves one column on.
pub open spec fn line_col_from(s: Seq<u8>, i: int, pos: int, line: int, col: int) -> (int, int)
    decreases pos - i,
{
    if i < 0 || i >= pos {
        (line, col)
    } else {
        let b = s[i];
        if b == 10 {
            line_col_from(s, i + 1, pos, line + 1, 1)
        } else if b == 13 {
            line_col_from(s, if i + 1 < pos && s[i + 1] == 10 {
                i + 2
            } else {
                i + 1
            }, pos, line + 1, 1)
        } else if !continuation(b) {
            line_col_from(s, i + 1, pos, line, col + 1)
        } else {
            line_col_from(s, i + 1, pos, line, col)
        }
    }
}

/// The line and column of byte offset `pos` of `slice`, counting from
/// `(start_line, start_column)` at its start.
pub fn line_col_in(slice: &[u8], pos: usize, start_line: u32, start_column: u32) -> (r: (u32, u32))
    requires
        pos <= slice@.len(),
        start_line + pos <= u32::MAX,
        (if start_column >= 1 {
            start_column as int
        } else {
            1
        }) + pos <= u32::MAX,
    ensures
        (r.0 as int, r.1 as int) == line_col_from(
            slice@,
            0,
            pos as int,
            start_line as int,
            start_column as int,
        ),
{
    let mut line = start_line;
    let mut col = start_column;
    let mut i: usize = 0;
    while i < pos
        invariant
            i <= pos <= slice@.len(),
            start_line + pos <= u32::MAX,
            (if start_column >= 1 {
                start_column as int
            } else {
                1
            }) + pos <= u32::MAX,
            line <= start_line + i,
            col <= (if start_column >= 1 {
                start_column as int
            } else {
                1
            }) + i,
            line_col_from(slice@, i as int, pos as int, line as int, col as int) == line_col_from(
                slice@,
                0,
                pos as int,
                start_line as int,
                start_column as int,
            ),
        decreases pos - i,
    {
        let b = slice[i];
        if b == 10 {
            line += 1;
            col = 1;
            i += 1;
        } else if b == 13 {
            line += 1;
            col = 1;
            i += 1;
            if i < pos && slice[i] == 10 {
                i += 1;
            }
        } else if (b & 0xC0) != 0x80 {
            assert(((b & 0xC0) != 0x80) == !(0x80 <= b && b <= 0xbf)) by (bit_vector);
            col += 1;
            i += 1;
        } else {
            assert(((b & 0xC0) != 0x80) == !(0x80 <= b && b <= 0xbf)) by (bit_vector);
            i += 1;
        }
    }
    (line, col)
}

/// `u` occurs in the source span, which is not empty.
pub open spec fn in_source(src: Seq<u8>, u: Seq<u8>) -> bool {
    src.len() > 0 && exists|k: int|
        0 <= k && k + u.len() <= src.len() && #[trigger] src.subrange(k, k + u.len()) == u
}

/// Whether the bytes `u` appear verbatim in the (non-empty) source span.
pub fn url_in_source(source: &[u8], u: &[u8]) -> (r: bool)
    requires
        u@.len() > 0,
    ensures
        r == in_source(source@, u@),
{
    if source.len() == 0 || u.len() > source.len() {
        return false;
    }
    let slen = source.len();
    let mut k: usize = 0;
    while k <= slen - u.len()
        invariant
            slen == source@.len(),
            0 < u@.len() <= slen,
            k <= slen - u@.len() + 1,
            forall|j: int| 0 <= j < k ==> #[trigger] source@.subrange(j, j + u@.len()) != u@,
        decreases slen + 1 - k,
    {
        let mut m: usize = 0;
        let mut same = true;
        while same && m < u.len()
            invariant
                slen == source@.len(),
                u@.len() <= slen,
                k <= slen - u@.len(),
                m <= u@.len(),
                forall|x: int| 0 <= x < m ==> source@[k + x] == u@[x],
                !same ==> m < u@.len() && source@[k + m] != u@[m as int],
            decreases u@.len() - m + (if same {
                1int
            } else {
                0int
            }),
        {
            if source[k + m] == u[m] {
                m += 1;
            } else {
                same = false;
            }
        }
        if same {
            assert(source@.subrange(k as int, k + u@.len()) =~= u@);
            return true;
        }
        assert(source@.subrange(k as int, k + u@.len())[m as int] != u@[m as int]);
        k += 1;
    }
    proof {
        assert forall|j: int| 0 <= j && j + u@.len() <= slen implies #[trigger] source@.subrange(
            j,
            j + u@.len(),
        ) != u@ by {
            assert(j < k);
        }
    }
    false
}

} // verus!
