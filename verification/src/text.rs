//! Facts about UTF-8 text and small helpers for slicing and growing strings.
use vstd::prelude::*;
use vstd::utf8::*;
use vstd::string::*;

verus! {

broadcast use vstd::utf8::encode_utf8_valid_utf8, vstd::utf8::encode_utf8_decode_utf8;

/// `i` starts a character (or is the end) in the byte sequence `b`.
pub open spec fn on_boundary(b: Seq<u8>, i: int) -> bool {
    i == 0 || i == b.len() || (0 < i < b.len() && !is_continuation_byte(b[i]))
}

/// The byte range `[start, start + len)` lies in `b` and starts and ends on
/// character boundaries.
pub open spec fn range_ok(b: Seq<u8>, start: int, len: int) -> bool {
    &&& 0 <= start
    &&& 0 <= len
    &&& start + len <= b.len()
    &&& on_boundary(b, start)
    &&& on_boundary(b, start + len)
}

/// The text that a byte range of valid UTF-8 decodes to.
pub open spec fn decode_range(b: Seq<u8>, start: int, len: int) -> Seq<char> {
    decode_utf8(b.subrange(start, start + len))
}

/// Encoding distributes over concatenation.
pub proof fn lemma_encode_concat(a: Seq<char>, b: Seq<char>)
    ensures
        encode_utf8(a + b) == encode_utf8(a) + encode_utf8(b),
    decreases a.len(),
{
    if a.len() == 0 {
        assert(a + b =~= b);
        assert(encode_utf8(a) =~= Seq::<u8>::empty());
        assert(encode_utf8(a) + encode_utf8(b) =~= encode_utf8(b));
    } else {
        lemma_encode_concat(a.drop_first(), b);
        assert((a + b).drop_first() =~= a.drop_first() + b);
        assert((a + b)[0] == a[0]);
        assert(encode_utf8(a + b) =~= encode_scalar(a[0] as u32) + encode_utf8(a.drop_first() + b));
        assert(encode_utf8(a) + encode_utf8(b) =~= encode_scalar(a[0] as u32) + (encode_utf8(
            a.drop_first(),
        ) + encode_utf8(b)));
    }
}

/// My boundary predicate agrees with vstd's on valid UTF-8.
pub proof fn lemma_on_boundary(b: Seq<u8>, i: int)
    requires
        valid_utf8(b),
        0 <= i <= b.len(),
        on_boundary(b, i),
    ensures
        is_char_boundary(b, i),
{
    is_char_boundary_start_end_of_seq(b);
    if 0 < i < b.len() {
        is_char_boundary_iff_not_is_continuation_byte(b, i);
    }
}

/// Decoding a range whose ends are boundaries gives the characters between them.
pub proof fn lemma_decode_range_of_encoding(s: Seq<char>, a: Seq<char>, b: Seq<char>, c: Seq<char>)
    requires
        s == a + b + c,
    ensures
        decode_range(encode_utf8(s), encode_utf8(a).len() as int, encode_utf8(b).len() as int)
            == b,
{
    lemma_encode_concat(a + b, c);
    lemma_encode_concat(a, b);
    let ea = encode_utf8(a);
    let eb = encode_utf8(b);
    let ec = encode_utf8(c);
    assert(encode_utf8(s) =~= ea + eb + ec);
    assert(encode_utf8(s).subrange(ea.len() as int, (ea.len() + eb.len()) as int) =~= eb);
}

/// Whether the byte range `[start, start + len)` lies in `b` on character boundaries.
pub fn check_range(b: &[u8], start: u32, len: u32) -> (r: bool)
    ensures
        r == range_ok(b@, start as int, len as int),
{
    let n = b.len() as u64;
    let end = start as u64 + len as u64;
    if end > n {
        return false;
    }
    let s = start as usize;
    let e = end as usize;
    let start_ok = s == 0 || s == b.len() || !(0x80u8 <= b[s] && b[s] <= 0xbfu8);
    let end_ok = e == 0 || e == b.len() || !(0x80u8 <= b[e] && b[e] <= 0xbfu8);
    start_ok && end_ok
}

/// `&s[start..start + len]`, for a range on character boundaries.
pub fn substr(s: &str, start: usize, len: usize) -> (r: &str)
    requires
        range_ok(s.spec_bytes(), start as int, len as int),
    ensures
        r.spec_bytes() == s.spec_bytes().subrange(start as int, start + len),
        r@ == decode_range(s.spec_bytes(), start as int, len as int),
{
    let ghost b = s.spec_bytes();
    proof {
        lemma_on_boundary(b, start as int);
    }
    let (_, tail) = s.split_at(start);
    let ghost t = tail.spec_bytes();
    proof {
        assert(t =~= b.subrange(start as int, b.len() as int));
        if len as int + start < b.len() && len > 0 {
            assert(t[len as int] == b[start + len]);
        }
        assert(on_boundary(t, len as int));
        lemma_on_boundary(t, len as int);
    }
    let (r, _) = tail.split_at(len);
    proof {
        assert(r.spec_bytes() =~= b.subrange(start as int, start + len));
    }
    r
}

/// Two string slices hold the same text.
pub fn str_eq(a: &str, b: &str) -> (r: bool)
    ensures
        r == (a@ == b@),
{
    let x = a.as_bytes();
    let y = b.as_bytes();
    proof {
        encode_utf8_decode_utf8(a@);
        encode_utf8_decode_utf8(b@);
    }
    if x.len() != y.len() {
        return false;
    }
    let mut i: usize = 0;
    while i < x.len()
        invariant
            i <= x@.len(),
            x@.len() == y@.len(),
            x@ == a.spec_bytes(),
            y@ == b.spec_bytes(),
            forall|j: int| 0 <= j < i ==> x@[j] == y@[j],
        decreases x@.len() - i,
    {
        if x[i] != y[i] {
            return false;
        }
        i = i + 1;
    }
    assert(x@ =~= y@);
    true
}

/// `core::str::from_utf8`: the bytes as a string slice exactly when they
/// are valid UTF-8.
#[verifier::external_body]
pub(crate) fn str_from_utf8(b: &[u8]) -> (r: Option<&str>)
    ensures
        r is Some <==> valid_utf8(b@),
        r matches Some(s) ==> s.spec_bytes() == b@,
{
    core::str::from_utf8(b).ok()
}

/// Appends a character to a string (`String::push`).
#[verifier::external_body]
pub(crate) fn push_char(s: &mut String, c: char)
    ensures
        final(s)@ == old(s)@.push(c),
{
    s.push(c);
}

/// In valid UTF-8, the byte after an ASCII character starts a character.
pub proof fn lemma_boundary_after_ascii(b: Seq<u8>, k: int)
    requires
        valid_utf8(b),
        is_char_boundary(b, k),
        0 <= k < b.len(),
        b[k] < 128,
    ensures
        is_char_boundary(b, k + 1),
    decreases b.len(),
{
    reveal_with_fuel(is_char_boundary, 2);
    if k > 0 {
        let l = length_of_first_scalar(b);
        let rest = pop_first_scalar(b);
        assert(valid_utf8(rest));
        assert(is_char_boundary(rest, k - l));
        if k - l == 0 {
            assert(rest[0] == b[k]);
        } else {
            assert(rest[k - l] == b[k]);
        }
        lemma_boundary_after_ascii(rest, k - l);
    }
}

/// The characters of valid UTF-8 that starts with an ASCII byte start with
/// that character, and those of bytes that end with one end with it.
pub proof fn lemma_ascii_ends(b: Seq<u8>)
    requires
        valid_utf8(b),
        b.len() > 0,
    ensures
        b[0] < 128 ==> decode_utf8(b).len() > 0 && decode_utf8(b)[0] as u32 == b[0] as u32,
        b[b.len() - 1] < 128 ==> decode_utf8(b).len() > 0 && decode_utf8(b).last() as u32 == b[b.len()
            - 1] as u32,
{
    if b[0] < 128 {
        let x = b[0];
        assert((x & 0x7F) == x) by (bit_vector)
            requires
                x < 128,
        ;
        assert(decode_utf8(b)[0] == (x as u32) as char);
    }
    if b[b.len() - 1] < 128 {
        let n = b.len() as int;
        let x = b[n - 1];
        assert((x & 0x7F) == x) by (bit_vector)
            requires
                x < 128,
        ;
        is_char_boundary_iff_not_is_continuation_byte(b, n - 1);
        decode_utf8_split(b, n - 1);
        valid_utf8_split(b, n - 1);
        let last = b.subrange(n - 1, n);
        assert(pop_first_scalar(last) =~= Seq::<u8>::empty());
        assert(decode_utf8(pop_first_scalar(last)) =~= Seq::<char>::empty());
        assert(decode_utf8(last) =~= seq![(x as u32) as char]);
    }
}

/// Valid UTF-8 has no more characters than bytes.
pub proof fn lemma_decode_len(b: Seq<u8>)
    requires
        valid_utf8(b),
    ensures
        decode_utf8(b).len() <= b.len(),
    decreases b.len(),
{
    if b.len() > 0 {
        let rest = pop_first_scalar(b);
        assert(rest.len() < b.len());
        lemma_decode_len(rest);
    }
}

} // verus!
