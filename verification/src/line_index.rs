//! Maps byte offsets in the source to 1-based (line, column) pairs and to
//! 0-based code-point offsets. Columns and offsets count Unicode code points
//! (every byte that is not a UTF-8 continuation byte starts one).
use vstd::prelude::*;
use vstd::string::*;

verus! {

/// `memchr::memchr`: the index of the first occurrence of `needle` in
/// `haystack`, if there is one.
#[verifier::external_body]
pub(crate) fn memchr_find(needle: u8, haystack: &[u8]) -> (r: Option<usize>)
    ensures
        match r {
            Some(i) => i < haystack@.len() && haystack@[i as int] == needle && forall|j: int|
                0 <= j < i ==> haystack@[j] != needle,
            None => forall|j: int| 0 <= j < haystack@.len() ==> haystack@[j] != needle,
        },
{
    memchr::memchr(needle, haystack)
}

/// The byte starts a code point (it is not a UTF-8 continuation byte).
pub open spec fn starts_cp(b: u8) -> bool {
    !(0x80 <= b && b <= 0xbf)
}

/// The number of code points in a byte sequence.
pub open spec fn cp_count(s: Seq<u8>) -> int
    decreases s.len(),
{
    if s.len() == 0 {
        0
    } else {
        cp_count(s.drop_last()) + if starts_cp(s.last()) { 1int } else { 0int }
    }
}

/// Counting the bytes that start a code point counts the characters that
/// valid UTF-8 decodes to.
pub proof fn law_cp_count_is_char_count(b: Seq<u8>)
    requires
        vstd::utf8::valid_utf8(b),
    ensures
        cp_count(b) == vstd::utf8::decode_utf8(b).len(),
    decreases b.len(),
{
    if b.len() > 0 {
        let l = vstd::utf8::length_of_first_scalar(b);
        let head = b.subrange(0, l);
        let tail = vstd::utf8::pop_first_scalar(b);
        assert(b =~= head + tail);
        lemma_cp_count_concat(head, tail);
        law_cp_count_is_char_count(tail);
        // The first scalar: a leading byte, then continuation bytes.
        assert(vstd::utf8::valid_first_scalar(b));
        assert(cp_count(head) == 1) by {
            assert(starts_cp(b[0]));
            let h1 = head.subrange(0, 1);
            assert(h1.drop_last() =~= Seq::<u8>::empty());
            assert(cp_count(Seq::<u8>::empty()) == 0);
            assert(h1.last() == b[0]);
            assert(cp_count(h1) == 1);
            if l >= 2 {
                let h2 = head.subrange(0, 2);
                assert(h2.drop_last() =~= h1);
                assert(h2.last() == b[1]);
                assert(!starts_cp(b[1]));
                assert(cp_count(h2) == 1);
                if l >= 3 {
                    let h3 = head.subrange(0, 3);
                    assert(h3.drop_last() =~= h2);
                    assert(h3.last() == b[2]);
                    assert(cp_count(h3) == 1);
                    if l >= 4 {
                        let h4 = head.subrange(0, 4);
                        assert(h4.drop_last() =~= h3);
                        assert(h4.last() == b[3]);
                        assert(cp_count(h4) == 1);
                        assert(h4 =~= head);
                    } else {
                        assert(h3 =~= head);
                    }
                } else {
                    assert(h2 =~= head);
                }
            } else {
                assert(h1 =~= head);
            }
        }
    }
}

/// Every byte is ASCII.
pub open spec fn all_ascii(s: Seq<u8>) -> bool {
    forall|i: int| 0 <= i < s.len() ==> s[i] < 128
}

/// The number of newlines among the first `off` bytes.
pub open spec fn newlines_before(b: Seq<u8>, off: int) -> int
    decreases off,
{
    if off <= 0 {
        0
    } else {
        newlines_before(b, off - 1) + if b[off - 1] == 10u8 { 1int } else { 0int }
    }
}

/// The byte offset at which the line holding offset `off` starts.
pub open spec fn line_start(b: Seq<u8>, off: int) -> int
    decreases off,
{
    if off <= 0 {
        0
    } else if b[off - 1] == 10u8 {
        off
    } else {
        line_start(b, off - 1)
    }
}

/// The line holding offset `off` starts at 0 or just after a newline, and
/// no newline lies between its start and `off`: it starts after the last
/// newline before `off`.
pub proof fn law_line_start_after_last_newline(b: Seq<u8>, off: int)
    requires
        0 <= off <= b.len(),
    ensures
        0 <= line_start(b, off) <= off,
        line_start(b, off) == 0 || b[line_start(b, off) - 1] == 10u8,
        forall|j: int| line_start(b, off) <= j < off ==> b[j] != 10u8,
    decreases off,
{
    if off > 0 && b[off - 1] != 10u8 {
        law_line_start_after_last_newline(b, off - 1);
    }
}

/// The line starts among the first `n` bytes: 0, then one past each newline.
pub open spec fn starts_upto(b: Seq<u8>, n: int) -> Seq<int>
    decreases n,
{
    if n <= 0 {
        seq![0]
    } else if b[n - 1] == 10u8 {
        starts_upto(b, n - 1).push(n)
    } else {
        starts_upto(b, n - 1)
    }
}

/// The 1-based line and column of byte offset `off`.
pub open spec fn line_col(b: Seq<u8>, off: int) -> (int, int) {
    (newlines_before(b, off) + 1, cp_count(b.subrange(line_start(b, off), off)) + 1)
}

/// The end of line `k` (exclusive), given the line starts.
pub open spec fn line_end(b: Seq<u8>, st: Seq<int>, k: int) -> int {
    if k + 1 < st.len() {
        st[k + 1]
    } else {
        b.len() as int
    }
}

proof fn lemma_cp_count_concat(a: Seq<u8>, c: Seq<u8>)
    ensures
        cp_count(a + c) == cp_count(a) + cp_count(c),
    decreases c.len(),
{
    if c.len() == 0 {
        assert(a + c =~= a);
    } else {
        lemma_cp_count_concat(a, c.drop_last());
        assert((a + c).drop_last() =~= a + c.drop_last());
    }
}

proof fn lemma_cp_count_ascii(s: Seq<u8>)
    requires
        all_ascii(s),
    ensures
        cp_count(s) == s.len(),
    decreases s.len(),
{
    if s.len() > 0 {
        lemma_cp_count_ascii(s.drop_last());
    }
}

proof fn lemma_cp_count_bound(s: Seq<u8>)
    ensures
        0 <= cp_count(s) <= s.len(),
    decreases s.len(),
{
    if s.len() > 0 {
        lemma_cp_count_bound(s.drop_last());
    }
}

/// Facts about the line starts among the first `n` bytes.
proof fn lemma_starts(b: Seq<u8>, n: int)
    requires
        0 <= n <= b.len(),
    ensures
        0 <= newlines_before(b, n) <= n,
        starts_upto(b, n).len() == newlines_before(b, n) + 1,
        starts_upto(b, n)[0] == 0,
        forall|i: int, j: int| 0 <= i < j < starts_upto(b, n).len() ==> starts_upto(b, n)[i] < starts_upto(b, n)[j],
        forall|i: int| 0 <= i < starts_upto(b, n).len() ==> 0 <= #[trigger] starts_upto(b, n)[i] <= n,
        starts_upto(b, n).last() == line_start(b, n),
        forall|i: int| 0 < i < starts_upto(b, n).len() ==> b[#[trigger] starts_upto(b, n)[i] - 1] == 10u8,
    decreases n,
{
    if n > 0 {
        lemma_starts(b, n - 1);
    }
}

/// Extending the prefix keeps the earlier line starts.
proof fn lemma_starts_prefix(b: Seq<u8>, m: int, n: int)
    requires
        0 <= m <= n <= b.len(),
    ensures
        starts_upto(b, n).len() >= starts_upto(b, m).len(),
        forall|i: int| 0 <= i < starts_upto(b, m).len() ==> #[trigger] starts_upto(b, n)[i] == starts_upto(b, m)[i],
        newlines_before(b, m) < newlines_before(b, n) ==> starts_upto(b, n)[newlines_before(b, m) + 1] > m,
    decreases n,
{
    if n > m {
        lemma_starts_prefix(b, m, n - 1);
        lemma_starts(b, n - 1);
        lemma_starts(b, m);
        if newlines_before(b, m) < newlines_before(b, n) && newlines_before(b, m) == newlines_before(b, n - 1) {
            lemma_starts(b, n);
        }
    }
}

/// No newline in `[m, n)` means no new line starts.
proof fn lemma_starts_no_newline(b: Seq<u8>, m: int, n: int)
    requires
        0 <= m <= n <= b.len(),
        forall|j: int| m <= j < n ==> b[j] != 10u8,
    ensures
        starts_upto(b, n) == starts_upto(b, m),
    decreases n,
{
    if n > m {
        lemma_starts_no_newline(b, m, n - 1);
    }
}

/// The line holding `off` is the one whose start is at most `off` while the
/// next start (if any) is after it.
proof fn lemma_line_of(b: Seq<u8>, off: int, idx: int)
    requires
        0 <= off <= b.len(),
        0 <= idx < starts_upto(b, b.len() as int).len(),
        starts_upto(b, b.len() as int)[idx] <= off,
        idx + 1 < starts_upto(b, b.len() as int).len() ==> starts_upto(b, b.len() as int)[idx + 1] > off,
    ensures
        idx == newlines_before(b, off),
        starts_upto(b, b.len() as int)[idx] == line_start(b, off),
{
    let n = b.len() as int;
    let st = starts_upto(b, n);
    let k = newlines_before(b, off);
    lemma_starts(b, off);
    lemma_starts(b, n);
    lemma_starts_prefix(b, off, n);
    assert(st[k] == starts_upto(b, off)[k]);
    assert(st[k] == line_start(b, off));
    if idx < k {
        assert(st[idx + 1] <= st[k]);
    } else if idx > k {
        assert(st[k + 1] > off);
        assert(st[idx] >= st[k + 1]);
    }
}

/// Counts the code points in a byte slice.
fn code_point_count_bytes(bytes: &[u8]) -> (r: u32)
    requires
        bytes@.len() <= u32::MAX,
    ensures
        r == cp_count(bytes@),
{
    let mut count: u32 = 0;
    let mut i: usize = 0;
    while i < bytes.len()
        invariant
            i <= bytes@.len(),
            bytes@.len() <= u32::MAX,
            count == cp_count(bytes@.subrange(0, i as int)),
        decreases bytes@.len() - i,
    {
        let b = bytes[i];
        proof {
            assert(bytes@.subrange(0, i + 1).drop_last() =~= bytes@.subrange(0, i as int));
            lemma_cp_count_bound(bytes@.subrange(0, i as int));
            assert(((b & 0xC0u8) != 0x80u8) == starts_cp(b)) by (bit_vector);
        }
        if (b & 0xC0u8) != 0x80u8 {
            count = count + 1;
        }
        i = i + 1;
    }
    assert(bytes@.subrange(0, i as int) =~= bytes@);
    count
}

/// Whether every byte is ASCII.
fn is_ascii_bytes(bytes: &[u8]) -> (r: bool)
    ensures
        r == all_ascii(bytes@),
{
    let mut i: usize = 0;
    while i < bytes.len()
        invariant
            i <= bytes@.len(),
            all_ascii(bytes@.subrange(0, i as int)),
        decreases bytes@.len() - i,
    {
        if bytes[i] >= 128 {
            return false;
        }
        i = i + 1;
        assert forall|j: int| 0 <= j < i implies bytes@.subrange(0, i as int)[j] < 128 by {
            if j < i - 1 {
                assert(bytes@.subrange(0, i as int)[j] == bytes@.subrange(0, i - 1)[j]);
            }
        }
    }
    assert(bytes@.subrange(0, i as int) =~= bytes@);
    true
}

/// Maps byte offsets in a source to lines, columns and code-point offsets;
/// built once from the source text.
pub struct LineIndex<'a> {
    source: &'a [u8],
    /// `line_offsets[i]` is the byte offset where line `i+1` starts.
    line_offsets: Vec<u32>,
    /// `line_cp_offsets[i]` is the code-point offset where line `i+1`
    /// starts (empty when the whole source is ASCII).
    line_cp_offsets: Vec<u32>,
    /// Per-line ASCII flag (empty when the whole source is ASCII).
    line_is_ascii: Vec<bool>,
    /// The entire source is ASCII.
    all_ascii: bool,
}

impl<'a> LineIndex<'a> {
    /// The source bytes indexed.
    pub closed spec fn bytes(&self) -> Seq<u8> {
        self.source@
    }

    #[verifier::type_invariant]
    spec fn inv(&self) -> bool {
        let b = self.source@;
        let st = starts_upto(b, b.len() as int);
        &&& b.len() < u32::MAX
        &&& self.line_offsets@.len() == st.len()
        &&& forall|k: int| 0 <= k < st.len() ==> #[trigger] self.line_offsets@[k] == st[k]
        &&& self.all_ascii == all_ascii(b)
        &&& !self.all_ascii ==> {
            &&& self.line_cp_offsets@.len() == st.len()
            &&& self.line_is_ascii@.len() == st.len()
            &&& forall|k: int|
                0 <= k < st.len() ==> #[trigger] self.line_cp_offsets@[k] == cp_count(
                    b.subrange(0, st[k]),
                )
            &&& forall|k: int|
                0 <= k < st.len() ==> #[trigger] self.line_is_ascii@[k] == all_ascii(
                    b.subrange(st[k], line_end(b, st, k)),
                )
        }
    }

    /// Build the index of a source.
    pub fn from_source(source: &'a str) -> (r: Self)
        requires
            source.spec_bytes().len() < u32::MAX,
        ensures
            r.bytes() == source.spec_bytes(),
    {
        let bytes = source.as_bytes();
        let ghost b = bytes@;
        let ghost n = b.len() as int;
        let all_ascii = is_ascii_bytes(bytes);
        let mut offsets: Vec<u32> = Vec::new();
        offsets.push(0u32);
        let mut cp_offsets: Vec<u32> = Vec::new();
        let mut line_is_ascii: Vec<bool> = Vec::new();
        if !all_ascii {
            cp_offsets.push(0u32);
        }
        let mut pos: usize = 0;
        let mut cp_count_so_far: u32 = 0;
        proof {
            assert(offsets@ =~= starts_upto(b, 0).map_values(|v: int| v as u32));
        }
        loop
            invariant_except_break
                pos <= n,
                b == bytes@,
                n == b.len(),
                n < u32::MAX,
                all_ascii == crate::line_index::all_ascii(b),
                pos == 0 || b[pos - 1] == 10u8,
                offsets@.len() == starts_upto(b, pos as int).len(),
                forall|k: int| 0 <= k < offsets@.len() ==> #[trigger] offsets@[k] == starts_upto(b, pos as int)[k],
                starts_upto(b, pos as int).last() == pos,
                !all_ascii ==> {
                    &&& cp_offsets@.len() == offsets@.len()
                    &&& line_is_ascii@.len() + 1 == offsets@.len()
                    &&& cp_count_so_far == cp_count(b.subrange(0, pos as int))
                    &&& forall|k: int|
                        0 <= k < cp_offsets@.len() ==> #[trigger] cp_offsets@[k] == cp_count(
                            b.subrange(0, starts_upto(b, pos as int)[k]),
                        )
                    &&& forall|k: int|
                        0 <= k < line_is_ascii@.len() ==> #[trigger] line_is_ascii@[k] == crate::line_index::all_ascii(
                            b.subrange(starts_upto(b, pos as int)[k], starts_upto(b, pos as int)[k + 1]),
                        )
                },
            ensures
                pos <= n,
                offsets@.len() == starts_upto(b, n).len(),
                forall|k: int| 0 <= k < offsets@.len() ==> #[trigger] offsets@[k] == starts_upto(b, n)[k],
                starts_upto(b, n).last() == pos,
                !all_ascii ==> {
                    &&& cp_offsets@.len() == offsets@.len()
                    &&& line_is_ascii@.len() + 1 == offsets@.len()
                    &&& forall|k: int|
                        0 <= k < cp_offsets@.len() ==> #[trigger] cp_offsets@[k] == cp_count(
                            b.subrange(0, starts_upto(b, n)[k]),
                        )
                    &&& forall|k: int|
                        0 <= k < line_is_ascii@.len() ==> #[trigger] line_is_ascii@[k] == crate::line_index::all_ascii(
                            b.subrange(starts_upto(b, n)[k], starts_upto(b, n)[k + 1]),
                        )
                },
            decreases n - pos,
        {
            let rest = vstd::slice::slice_subrange(bytes, pos, bytes.len());
            match memchr_find(10u8, rest) {
                None => {
                    proof {
                        assert forall|j: int| pos <= j < n implies b[j] != 10u8 by {
                            assert(rest@[j - pos] == b[j]);
                        }
                        lemma_starts_no_newline(b, pos as int, n);
                    }
                    break;
                }
                Some(i) => {
                    let nl = pos + i;
                    let ghost old_pos = pos as int;
                    proof {
                        assert forall|j: int| pos <= j < nl implies b[j] != 10u8 by {
                            assert(rest@[j - pos] == b[j]);
                        }
                        assert(rest@[i as int] == b[nl as int]);
                        lemma_starts_no_newline(b, pos as int, nl as int);
                        assert(starts_upto(b, nl + 1) == starts_upto(b, nl as int).push(nl + 1));
                    }
                    if !all_ascii {
                        let line = vstd::slice::slice_subrange(bytes, pos, nl + 1);
                        let is_ascii = is_ascii_bytes(line);
                        line_is_ascii.push(is_ascii);
                        proof {
                            assert(b.subrange(0, nl + 1) =~= b.subrange(0, pos as int) + line@);
                            lemma_cp_count_concat(b.subrange(0, pos as int), line@);
                            lemma_cp_count_bound(b.subrange(0, nl + 1));
                        }
                        let c = code_point_count_bytes(line);
                        cp_count_so_far = cp_count_so_far + c;
                        cp_offsets.push(cp_count_so_far);
                    }
                    offsets.push((nl + 1) as u32);
                    pos = nl + 1;
                    proof {
                        let st = starts_upto(b, pos as int);
                        let st0 = starts_upto(b, old_pos);
                        assert(st0 == starts_upto(b, nl as int));
                        assert(st == st0.push(pos as int));
                        assert forall|k: int| 0 <= k < offsets@.len() implies #[trigger] offsets@[k] == st[k] by {
                            if k < offsets@.len() - 1 {
                                assert(st[k] == st0[k]);
                            }
                        }
                        if !all_ascii {
                            assert forall|k: int| 0 <= k < cp_offsets@.len() implies #[trigger] cp_offsets@[k] == cp_count(
                                b.subrange(0, st[k])) by {
                                if k < cp_offsets@.len() - 1 {
                                    assert(st[k] == st0[k]);
                                }
                            }
                            assert forall|k: int| 0 <= k < line_is_ascii@.len() implies #[trigger] line_is_ascii@[k]
                                == crate::line_index::all_ascii(b.subrange(st[k], st[k + 1])) by {
                                if k < line_is_ascii@.len() - 1 {
                                    assert(st[k] == st0[k]);
                                    assert(st[k + 1] == st0[k + 1]);
                                } else {
                                    assert(st[k] == old_pos);
                                    assert(st0.last() == old_pos);
                                    assert(st[k + 1] == pos);
                                }
                            }
                        }
                    }
                }
            }
        }
        if !all_ascii {
            let last = vstd::slice::slice_subrange(bytes, pos, bytes.len());
            let is_ascii = is_ascii_bytes(last);
            line_is_ascii.push(is_ascii);
        }
        let r = LineIndex {
            source: bytes,
            line_offsets: offsets,
            line_cp_offsets: cp_offsets,
            line_is_ascii,
            all_ascii,
        };
        proof {
            let st = starts_upto(b, n);
            lemma_starts(b, n);
            if !all_ascii {
                assert forall|k: int| 0 <= k < st.len() implies #[trigger] r.line_is_ascii@[k] == crate::line_index::all_ascii(
                    b.subrange(st[k], line_end(b, st, k))) by {
                    if k + 1 < st.len() {
                    } else {
                        assert(st[k] == pos);
                    }
                }
            }
        }
        r
    }

    /// Create a cursor for lookups; it remembers the last line it found.
    pub fn cursor(&self) -> (r: LineIndexCursor<'_, 'a>)
        ensures
            r.bytes() == self.bytes(),
    {
        proof {
            use_type_invariant(self);
            lemma_starts(self.source@, self.source@.len() as int);
        }
        LineIndexCursor { index: self, last_line_idx: 0 }
    }
}

/// A cursor over a `LineIndex` that remembers its last line, so that
/// lookups at roughly ascending offsets scan forward from there.
pub struct LineIndexCursor<'idx, 'src> {
    index: &'idx LineIndex<'src>,
    last_line_idx: usize,
}

impl<'idx, 'src> LineIndexCursor<'idx, 'src> {
    /// The source bytes indexed.
    pub closed spec fn bytes(&self) -> Seq<u8> {
        self.index.bytes()
    }

    #[verifier::type_invariant]
    spec fn inv(&self) -> bool {
        self.last_line_idx < self.index.line_offsets@.len()
    }

    /// The 1-based line and column of a byte offset in the source.
    pub fn offset_to_line_col(&mut self, offset: u32) -> (r: (u32, u32))
        requires
            offset <= old(self).bytes().len(),
        ensures
            final(self).bytes() == old(self).bytes(),
            r.0 == line_col(old(self).bytes(), offset as int).0,
            r.1 == line_col(old(self).bytes(), offset as int).1,
    {
        proof {
            use_type_invariant(&*self);
            use_type_invariant(self.index);
        }
        let idx = self.find_line_idx(offset);
        let index = self.index;
        let ghost b = index.source@;
        let ghost st = starts_upto(b, b.len() as int);
        let line_start = index.line_offsets[idx];
        proof {
            lemma_line_of(b, offset as int, idx as int);
            lemma_starts(b, b.len() as int);
            lemma_starts(b, offset as int);
            lemma_cp_count_bound(b.subrange(line_start as int, offset as int));
        }
        let col = if index.all_ascii || index.line_is_ascii[idx] {
            proof {
                let line = b.subrange(st[idx as int], line_end(b, st, idx as int));
                assert forall|j: int| 0 <= j < offset - line_start implies b.subrange(line_start as int, offset as int)[j] < 128 by {
                    if index.all_ascii {
                    } else {
                        assert(line[j] == b[line_start + j]);
                    }
                }
                lemma_cp_count_ascii(b.subrange(line_start as int, offset as int));
            }
            offset - line_start + 1
        } else {
            let slice = vstd::slice::slice_subrange(index.source, line_start as usize, offset as usize);
            code_point_count_bytes(slice) + 1
        };
        (idx as u32 + 1, col)
    }

    /// Convert a byte offset into the source to a code-point offset.
    pub fn byte_to_cp_offset(&mut self, byte_offset: u32) -> (r: u32)
        requires
            byte_offset <= old(self).bytes().len(),
        ensures
            final(self).bytes() == old(self).bytes(),
            r == cp_count(old(self).bytes().subrange(0, byte_offset as int)),
    {
        proof {
            use_type_invariant(&*self);
            use_type_invariant(self.index);
        }
        let index = self.index;
        let ghost b = index.source@;
        if index.all_ascii {
            proof {
                lemma_cp_count_ascii(b.subrange(0, byte_offset as int));
            }
            return byte_offset;
        }
        let idx = self.find_line_idx(byte_offset);
        let ghost st = starts_upto(b, b.len() as int);
        let line_start = index.line_offsets[idx];
        let line_cp = index.line_cp_offsets[idx];
        proof {
            lemma_line_of(b, byte_offset as int, idx as int);
            lemma_starts(b, b.len() as int);
            assert(b.subrange(0, byte_offset as int) =~= b.subrange(0, line_start as int) + b.subrange(line_start as int, byte_offset as int));
            lemma_cp_count_concat(b.subrange(0, line_start as int), b.subrange(line_start as int, byte_offset as int));
            lemma_cp_count_bound(b.subrange(0, byte_offset as int));
            lemma_cp_count_bound(b.subrange(line_start as int, byte_offset as int));
        }
        if index.line_is_ascii[idx] {
            proof {
                let line = b.subrange(st[idx as int], line_end(b, st, idx as int));
                assert forall|j: int| 0 <= j < byte_offset - line_start implies b.subrange(line_start as int, byte_offset as int)[j] < 128 by {
                    assert(line[j] == b[line_start + j]);
                }
                lemma_cp_count_ascii(b.subrange(line_start as int, byte_offset as int));
            }
            line_cp + (byte_offset - line_start)
        } else {
            let slice = vstd::slice::slice_subrange(index.source, line_start as usize, byte_offset as usize);
            line_cp + code_point_count_bytes(slice)
        }
    }

    /// The index of the line holding `offset`: scans forward or backward
    /// from the last line found.
    fn find_line_idx(&mut self, offset: u32) -> (r: usize)
        requires
            offset <= old(self).bytes().len(),
        ensures
            final(self).bytes() == old(self).bytes(),
            final(self).index == old(self).index,
            ({
                let b = old(self).bytes();
                let st = starts_upto(b, b.len() as int);
                &&& r < st.len()
                &&& st[r as int] <= offset
                &&& (r + 1 < st.len() ==> st[r + 1] > offset)
            }),
    {
        proof {
            use_type_invariant(&*self);
            use_type_invariant(self.index);
        }
        let ghost b = self.index.source@;
        let ghost st = starts_upto(b, b.len() as int);
        proof {
            lemma_starts(b, b.len() as int);
        }
        let offsets = &self.index.line_offsets;
        let len = offsets.len();
        let mut idx = self.last_line_idx;
        let line_start = offsets[idx];
        if offset >= line_start {
            while idx + 1 < len && offsets[idx + 1] <= offset
                invariant
                    idx < len,
                    len == st.len(),
                    offsets@.len() == len,
                    forall|k: int| 0 <= k < st.len() ==> #[trigger] offsets@[k] == st[k],
                    st[idx as int] <= offset,
                decreases len - idx,
            {
                idx = idx + 1;
            }
        } else {
            while idx > 0 && offsets[idx] > offset
                invariant
                    idx < len,
                    len == st.len(),
                    offsets@.len() == len,
                    forall|k: int| 0 <= k < st.len() ==> #[trigger] offsets@[k] == st[k],
                    forall|i: int, j: int| 0 <= i < j < st.len() ==> st[i] < st[j],
                    st[0] == 0,
                    idx + 1 < len ==> st[idx + 1] > offset,
                decreases idx,
            {
                idx = idx - 1;
            }
        }
        self.last_line_idx = idx;
        idx
    }
}

} // verus!
