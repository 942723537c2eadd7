use tryckeri::codec::{
    decode_element_prop, decode_element_prop_count, decode_element_tag, decode_string_ref,
    decode_string_ref_data, decode_text_data, encode_element_data, encode_string_ref,
    encode_string_ref_data, encode_text_data, PROP_BOOL_TRUE, PROP_STRING,
};
use tryckeri::node::StringRef;

#[test]
fn string_ref_round_trip() {
    let sr = StringRef::new(42, 10);
    let encoded = encode_string_ref(sr);
    let decoded = decode_string_ref(&encoded);
    assert_eq!(decoded.offset, 42);
    assert_eq!(decoded.len, 10);
}

#[test]
fn element_no_props() {
    let tag = StringRef::new(0, 3);
    let data = encode_element_data(tag, &[]);
    assert_eq!(data.len(), 16);
    assert_eq!(decode_element_tag(&data).offset, 0);
    assert_eq!(decode_element_tag(&data).len, 3);
    assert_eq!(decode_element_prop_count(&data), 0);
}

#[test]
fn element_with_props() {
    let tag = StringRef::new(0, 1);
    let name = StringRef::new(5, 4);
    let value = StringRef::new(10, 6);
    let props = vec![(name, PROP_STRING, value)];
    let data = encode_element_data(tag, &props);
    assert_eq!(data.len(), 36); // 16 + 20
    assert_eq!(decode_element_prop_count(&data), 1);
    let (n, kind, v) = decode_element_prop(&data, 0);
    assert_eq!(n.offset, 5);
    assert_eq!(n.len, 4);
    assert_eq!(kind, PROP_STRING);
    assert_eq!(v.offset, 10);
    assert_eq!(v.len, 6);
}

#[test]
fn text_data_round_trip() {
    let sr = StringRef::new(100, 20);
    let data = encode_text_data(sr);
    let decoded = decode_text_data(&data);
    assert_eq!(decoded.offset, 100);
    assert_eq!(decoded.len, 20);
}

#[test]
fn string_ref_bytes_are_little_endian() {
    let encoded = encode_string_ref(StringRef::new(0x0403_0201, 0x0807_0605));
    assert_eq!(encoded, [1, 2, 3, 4, 5, 6, 7, 8]);
}

#[test]
fn element_layout_is_tag_count_pad_then_entries() {
    let tag = StringRef::new(1, 2);
    let props = vec![
        (StringRef::new(3, 4), PROP_STRING, StringRef::new(5, 6)),
        (StringRef::new(7, 8), PROP_BOOL_TRUE, StringRef::empty()),
    ];
    let data = encode_element_data(tag, &props);
    assert_eq!(data.len(), 56);
    assert_eq!(&data[0..16], &[1, 0, 0, 0, 2, 0, 0, 0, 2, 0, 0, 0, 0, 0, 0, 0]);
    assert_eq!(decode_element_prop(&data, 1), (StringRef::new(7, 8), PROP_BOOL_TRUE, StringRef::new(0, 0)));
    assert_eq!(data[16 + 20 + 8], PROP_BOOL_TRUE);
}

#[test]
fn string_ref_data_round_trip() {
    let sr = StringRef::new(6, 5);
    let data = encode_string_ref_data(sr);
    assert_eq!(data, vec![6, 0, 0, 0, 5, 0, 0, 0]);
    assert_eq!(decode_string_ref_data(&data), sr);
}
