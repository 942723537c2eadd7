//! Byte encodings of type-specific data: string references, HAST element
//! records and text records, plus the HAST node and property kind codes.
//!
//! Element type data layout (little-endian):
//!   `[tag_name: StringRef(8B)][prop_count: u32(4B)][_pad: u32(4B)]` = 16-byte header,
//!   then `prop_count` entries of 20 bytes each:
//!   `[name: StringRef(8B)][value_type: u8][_pad: 3B][value: StringRef(8B)]`.
//!
//! Text, comment and raw type data: just a StringRef (8 bytes).
use vstd::prelude::*;
use crate::node::StringRef;

verus! {

pub const HAST_ROOT: u8 = 0;
pub const HAST_ELEMENT: u8 = 1;
pub const HAST_TEXT: u8 = 2;
pub const HAST_COMMENT: u8 = 3;
pub const HAST_DOCTYPE: u8 = 4;
pub const HAST_RAW: u8 = 5;

pub const PROP_STRING: u8 = 0;
pub const PROP_BOOL_TRUE: u8 = 1;
pub const PROP_BOOL_FALSE: u8 = 2;
pub const PROP_SPACE_SEP: u8 = 3;
pub const PROP_COMMA_SEP: u8 = 4;

/// The four little-endian bytes of `v`.
pub open spec fn le32(v: u32) -> Seq<u8> {
    seq![
        (v & 0xff) as u8,
        ((v >> 8u32) & 0xff) as u8,
        ((v >> 16u32) & 0xff) as u8,
        ((v >> 24u32) & 0xff) as u8,
    ]
}

/// The u32 that four little-endian bytes stand for.
pub open spec fn from_le32(b0: u8, b1: u8, b2: u8, b3: u8) -> u32 {
    (b0 as u32) | ((b1 as u32) << 8u32) | ((b2 as u32) << 16u32) | ((b3 as u32) << 24u32)
}

/// The u32 stored little-endian at `at` in `b`.
pub open spec fn read_le32(b: Seq<u8>, at: int) -> u32 {
    from_le32(b[at], b[at + 1], b[at + 2], b[at + 3])
}

/// The 8-byte encoding of a string reference: offset then length.
pub open spec fn ref_bytes(sr: StringRef) -> Seq<u8> {
    le32(sr.offset) + le32(sr.len)
}

/// The string reference stored at `at` in `b`.
pub open spec fn read_ref(b: Seq<u8>, at: int) -> StringRef {
    StringRef { offset: read_le32(b, at), len: read_le32(b, at + 4) }
}

/// The 20-byte encoding of one element property.
pub open spec fn prop_bytes(p: (StringRef, u8, StringRef)) -> Seq<u8> {
    ref_bytes(p.0) + seq![p.1, 0u8, 0u8, 0u8] + ref_bytes(p.2)
}

/// The encodings of a list of properties, one after the other.
pub open spec fn props_bytes(ps: Seq<(StringRef, u8, StringRef)>) -> Seq<u8>
    decreases ps.len(),
{
    if ps.len() == 0 {
        Seq::empty()
    } else {
        props_bytes(ps.drop_last()) + prop_bytes(ps.last())
    }
}

/// The element type data for a tag and its properties.
pub open spec fn element_bytes(tag: StringRef, ps: Seq<(StringRef, u8, StringRef)>) -> Seq<u8> {
    ref_bytes(tag) + le32(ps.len() as u32) + le32(0) + props_bytes(ps)
}

/// The property entry stored as entry `index` of element data `b`.
pub open spec fn read_prop(b: Seq<u8>, index: int) -> (StringRef, u8, StringRef) {
    let base = 16 + index * 20;
    (read_ref(b, base), b[base + 8], read_ref(b, base + 12))
}

/// Reading back four encoded bytes gives the value.
pub proof fn lemma_le32_roundtrip(v: u32)
    ensures
        from_le32(le32(v)[0], le32(v)[1], le32(v)[2], le32(v)[3]) == v,
{
    let b0 = (v & 0xff) as u8;
    let b1 = ((v >> 8u32) & 0xff) as u8;
    let b2 = ((v >> 16u32) & 0xff) as u8;
    let b3 = ((v >> 24u32) & 0xff) as u8;
    assert(from_le32(b0, b1, b2, b3) == v) by (bit_vector)
        requires
            b0 == (v & 0xff) as u8,
            b1 == ((v >> 8u32) & 0xff) as u8,
            b2 == ((v >> 16u32) & 0xff) as u8,
            b3 == ((v >> 24u32) & 0xff) as u8,
    ;
}

/// Decoding the encoding of a string reference gives it back.
pub proof fn lemma_ref_roundtrip(sr: StringRef, pre: Seq<u8>, post: Seq<u8>)
    ensures
        read_ref(pre + ref_bytes(sr) + post, pre.len() as int) == sr,
{
    lemma_le32_roundtrip(sr.offset);
    lemma_le32_roundtrip(sr.len);
    let b = pre + ref_bytes(sr) + post;
    let n = pre.len() as int;
    assert(b[n] == le32(sr.offset)[0]);
    assert(b[n + 1] == le32(sr.offset)[1]);
    assert(b[n + 2] == le32(sr.offset)[2]);
    assert(b[n + 3] == le32(sr.offset)[3]);
    assert(b[n + 4] == le32(sr.len)[0]);
    assert(b[n + 5] == le32(sr.len)[1]);
    assert(b[n + 6] == le32(sr.len)[2]);
    assert(b[n + 7] == le32(sr.len)[3]);
}

proof fn lemma_props_len(ps: Seq<(StringRef, u8, StringRef)>)
    ensures
        props_bytes(ps).len() == 20 * ps.len(),
    decreases ps.len(),
{
    if ps.len() > 0 {
        lemma_props_len(ps.drop_last());
    }
}

/// Entry `i` of the property encodings is the encoding of property `i`.
proof fn lemma_props_entry(ps: Seq<(StringRef, u8, StringRef)>, i: int)
    requires
        0 <= i < ps.len(),
    ensures
        props_bytes(ps).subrange(20 * i, 20 * i + 20) == prop_bytes(ps[i]),
    decreases ps.len(),
{
    lemma_props_len(ps.drop_last());
    if i < ps.len() - 1 {
        lemma_props_entry(ps.drop_last(), i);
        assert(props_bytes(ps).subrange(20 * i, 20 * i + 20) =~= props_bytes(ps.drop_last()).subrange(20 * i, 20 * i + 20));
    } else {
        assert(props_bytes(ps).subrange(20 * i, 20 * i + 20) =~= prop_bytes(ps.last()));
    }
}

/// Element data decodes back to its tag, its property count (when the count
/// fits in 32 bits) and each of its properties.
pub proof fn lemma_element_roundtrip(tag: StringRef, ps: Seq<(StringRef, u8, StringRef)>)
    ensures
        element_bytes(tag, ps).len() == 16 + 20 * ps.len(),
        read_ref(element_bytes(tag, ps), 0) == tag,
        ps.len() <= u32::MAX ==> read_le32(element_bytes(tag, ps), 8) == ps.len(),
        forall|i: int| 0 <= i < ps.len() ==> #[trigger] read_prop(element_bytes(tag, ps), i) == ps[i],
{
    let b = element_bytes(tag, ps);
    lemma_props_len(ps);
    lemma_ref_roundtrip(tag, Seq::empty(), le32(ps.len() as u32) + le32(0) + props_bytes(ps));
    assert(b =~= Seq::<u8>::empty() + ref_bytes(tag) + (le32(ps.len() as u32) + le32(0) + props_bytes(ps)));
    lemma_le32_roundtrip(ps.len() as u32);
    assert(b[8] == le32(ps.len() as u32)[0]);
    assert(b[9] == le32(ps.len() as u32)[1]);
    assert(b[10] == le32(ps.len() as u32)[2]);
    assert(b[11] == le32(ps.len() as u32)[3]);
    assert forall|i: int| 0 <= i < ps.len() implies #[trigger] read_prop(b, i) == ps[i] by {
        lemma_element_entry(tag, ps, i);
    }
}

/// Entry `i` of element data decodes back to property `i`.
#[verifier::rlimit(40)]
proof fn lemma_element_entry(tag: StringRef, ps: Seq<(StringRef, u8, StringRef)>, i: int)
    requires
        0 <= i < ps.len(),
    ensures
        read_prop(element_bytes(tag, ps), i) == ps[i],
{
    let b = element_bytes(tag, ps);
    lemma_props_len(ps);
    lemma_props_entry(ps, i);
    let base = 16 + i * 20;
    let p = ps[i];
    let pre = b.subrange(0, base);
    let post = b.subrange(base + 20, b.len() as int);
    assert(b.subrange(base, base + 20) =~= props_bytes(ps).subrange(20 * i, 20 * i + 20));
    assert(b =~= pre + prop_bytes(p) + post);
    lemma_ref_roundtrip(p.0, pre, seq![p.1, 0u8, 0u8, 0u8] + ref_bytes(p.2) + post);
    assert(b =~= pre + ref_bytes(p.0) + (seq![p.1, 0u8, 0u8, 0u8] + ref_bytes(p.2) + post));
    lemma_ref_roundtrip(p.2, pre + ref_bytes(p.0) + seq![p.1, 0u8, 0u8, 0u8], post);
    assert(b =~= pre + ref_bytes(p.0) + seq![p.1, 0u8, 0u8, 0u8] + ref_bytes(p.2) + post);
    assert(b[base + 8] == p.1);
}

/// Appends the four little-endian bytes of `v`.
fn push_le32(out: &mut Vec<u8>, v: u32)
    ensures
        final(out)@ == old(out)@ + le32(v),
{
    out.push((v & 0xff) as u8);
    out.push(((v >> 8u32) & 0xff) as u8);
    out.push(((v >> 16u32) & 0xff) as u8);
    out.push(((v >> 24u32) & 0xff) as u8);
    assert(out@ =~= old(out)@ + le32(v));
}

/// Reads the u32 stored little-endian at `at`.
pub(crate) fn get_le32(data: &[u8], at: usize) -> (r: u32)
    requires
        at + 4 <= data@.len(),
    ensures
        r == read_le32(data@, at as int),
{
    let b0 = data[at];
    let b1 = data[at + 1];
    let b2 = data[at + 2];
    let b3 = data[at + 3];
    (b0 as u32) | ((b1 as u32) << 8u32) | ((b2 as u32) << 16u32) | ((b3 as u32) << 24u32)
}

// ---------------------------------------------------------------------------
// StringRef encode/decode
// ---------------------------------------------------------------------------

pub fn encode_string_ref(sr: StringRef) -> (r: [u8; 8])
    ensures
        r@ == ref_bytes(sr),
{
    let mut v: Vec<u8> = Vec::new();
    push_le32(&mut v, sr.offset);
    push_le32(&mut v, sr.len);
    let r = [v[0], v[1], v[2], v[3], v[4], v[5], v[6], v[7]];
    assert(r@ =~= ref_bytes(sr));
    r
}

pub fn decode_string_ref(data: &[u8]) -> (r: StringRef)
    requires
        data@.len() >= 8,
    ensures
        r == read_ref(data@, 0),
{
    let offset = get_le32(data, 0);
    let len = get_le32(data, 4);
    StringRef::new(offset, len)
}

// ---------------------------------------------------------------------------
// Element encode/decode
// ---------------------------------------------------------------------------

/// Encode element type data.
/// props: slice of (name: StringRef, value_type: u8, value: StringRef)
pub fn encode_element_data(tag_name: StringRef, props: &[(StringRef, u8, StringRef)]) -> (r: Vec<u8>)
    ensures
        r@ == element_bytes(tag_name, props@),
{
    let mut out: Vec<u8> = Vec::new();
    push_le32(&mut out, tag_name.offset);
    push_le32(&mut out, tag_name.len);
    push_le32(&mut out, props.len() as u32);
    push_le32(&mut out, 0u32);
    let ghost header = out@;
    assert(header =~= ref_bytes(tag_name) + le32(props@.len() as u32) + le32(0));
    let mut k: usize = 0;
    while k < props.len()
        invariant
            k <= props@.len(),
            out@ == header + props_bytes(props@.subrange(0, k as int)),
        decreases props@.len() - k,
    {
        let (name, value_type, value) = props[k];
        let ghost before = out@;
        push_le32(&mut out, name.offset);
        push_le32(&mut out, name.len);
        out.push(value_type);
        out.push(0u8);
        out.push(0u8);
        out.push(0u8);
        push_le32(&mut out, value.offset);
        push_le32(&mut out, value.len);
        k = k + 1;
        proof {
            let sub = props@.subrange(0, k as int);
            assert(sub.drop_last() =~= props@.subrange(0, k - 1));
            assert(sub.last() == props@[k - 1]);
            assert(out@ =~= before + prop_bytes(props@[k - 1]));
            assert(out@ =~= header + props_bytes(sub));
        }
    }
    assert(props@.subrange(0, k as int) =~= props@);
    out
}

/// Decode the tag name StringRef from element type data.
pub fn decode_element_tag(data: &[u8]) -> (r: StringRef)
    requires
        data@.len() >= 8,
    ensures
        r == read_ref(data@, 0),
{
    decode_string_ref(data)
}

/// Decode the property count from element type data.
pub fn decode_element_prop_count(data: &[u8]) -> (r: u32)
    requires
        data@.len() >= 12,
    ensures
        r == read_le32(data@, 8),
{
    get_le32(data, 8)
}

/// Decode property entry `index` of element type data:
/// (name: StringRef, value_type: u8, value: StringRef).
pub fn decode_element_prop(data: &[u8], index: u32) -> (r: (StringRef, u8, StringRef))
    requires
        16 + 20 * index + 20 <= data@.len(),
    ensures
        r == read_prop(data@, index as int),
{
    let n = data.len();
    assert(16 + 20 * index + 20 <= n);
    let base = 16 + index as usize * 20;
    let name = StringRef::new(get_le32(data, base), get_le32(data, base + 4));
    let value_type = data[base + 8];
    let value = StringRef::new(get_le32(data, base + 12), get_le32(data, base + 16));
    (name, value_type, value)
}

// ---------------------------------------------------------------------------
// Text/Comment/Raw encode/decode: just a StringRef
// ---------------------------------------------------------------------------

pub fn encode_text_data(sr: StringRef) -> (r: Vec<u8>)
    ensures
        r@ == ref_bytes(sr),
{
    encode_string_ref_data(sr)
}

pub fn decode_text_data(data: &[u8]) -> (r: StringRef)
    requires
        data@.len() >= 8,
    ensures
        r == read_ref(data@, 0),
{
    decode_string_ref(data)
}

/// The type data of a node that holds one string reference.
pub fn encode_string_ref_data(sr: StringRef) -> (r: Vec<u8>)
    ensures
        r@ == ref_bytes(sr),
{
    let mut v: Vec<u8> = Vec::new();
    push_le32(&mut v, sr.offset);
    push_le32(&mut v, sr.len);
    v
}

/// Read the string reference that a node's type data holds.
pub fn decode_string_ref_data(bytes: &[u8]) -> (r: StringRef)
    requires
        bytes@.len() >= 8,
    ensures
        r == read_ref(bytes@, 0),
{
    decode_string_ref(bytes)
}

} // verus!
