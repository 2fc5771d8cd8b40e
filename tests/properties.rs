use cbor_codec::bytes::{additional_type, make_header, major_type, u8_slice_to_u16, u8_slice_to_u32};
use cbor_codec::de::{from_bytes, Deserializer};
use cbor_codec::error::Error;
use cbor_codec::io::{VecReader, VecWriter};
use cbor_codec::ser::{to_bytes, Serialize, VecSerializer};
use cbor_codec::value::{insert_entry, Value};

fn nested() -> Value {
    let mut inner = Vec::new();
    insert_entry(&mut inner, "b".into(), Value::Bytes(vec![0, 255]));
    insert_entry(&mut inner, "a".into(), Value::Null);
    Value::Array(vec![
        Value::Int(0),
        Value::Int(23),
        Value::Int(24),
        Value::Int(255),
        Value::String("héllo".into()),
        Value::Mapping(inner),
        Value::Array(vec![]),
    ])
}

#[test]
fn round_trip_nested_value() {
    let bytes = to_bytes(nested()).unwrap();
    assert_eq!(Ok(nested()), from_bytes(bytes));
}

#[test]
fn round_trip_long_text_and_bytes() {
    let text: String = "x".repeat(255);
    let value = Value::Array(vec![Value::String(text), Value::Bytes(vec![7; 200])]);
    let bytes = to_bytes(Value::Array(vec![Value::String("x".repeat(255)), Value::Bytes(vec![7; 200])])).unwrap();
    assert_eq!(bytes[0], 0x82);
    assert_eq!(&bytes[1..3], &[0x78, 255]);
    assert_eq!(Ok(value), from_bytes(bytes));
}

#[test]
fn map_insertion_order_does_not_matter() {
    let mut first = Vec::new();
    insert_entry(&mut first, "zeta".into(), Value::Int(1));
    insert_entry(&mut first, "alpha".into(), Value::Int(2));
    insert_entry(&mut first, "mid".into(), Value::Int(3));
    let mut second = Vec::new();
    insert_entry(&mut second, "mid".into(), Value::Int(3));
    insert_entry(&mut second, "zeta".into(), Value::Int(1));
    insert_entry(&mut second, "alpha".into(), Value::Int(2));
    let a = to_bytes(Value::Mapping(first)).unwrap();
    let b = to_bytes(Value::Mapping(second)).unwrap();
    assert_eq!(a, b);
    assert_eq!(&a[0..7], &[0xa3, 0x65, b'a', b'l', b'p', b'h', b'a']);
}

#[test]
fn map_keys_sorted_by_bytes_and_duplicates_replaced() {
    let mut entries = Vec::new();
    insert_entry(&mut entries, "b".into(), Value::Int(1));
    insert_entry(&mut entries, "ab".into(), Value::Int(2));
    insert_entry(&mut entries, "a".into(), Value::Int(3));
    insert_entry(&mut entries, "b".into(), Value::Int(4));
    let keys: Vec<&str> = entries.iter().map(|(k, _)| k.as_str()).collect();
    assert_eq!(keys, vec!["a", "ab", "b"]);
    assert_eq!(entries[2].1, Value::Int(4));
}

#[test]
fn decode_unsorted_map_yields_sorted_entries() {
    // {"b": 1, "a": 2} with keys out of order on the wire
    let decoded = from_bytes(vec![0xa2, 0x61, b'b', 0x01, 0x61, b'a', 0x02]).unwrap();
    assert_eq!(to_bytes(decoded), Ok(vec![0xa2, 0x61, b'a', 0x02, 0x61, b'b', 0x01]));
}

#[test]
fn decode_duplicate_keys_keeps_last() {
    let decoded = from_bytes(vec![0xa2, 0x61, b'k', 0x01, 0x61, b'k', 0x02]).unwrap();
    assert_eq!(decoded, Value::Mapping(vec![("k".into(), Value::Int(2))]));
}

#[test]
fn encode_unsigned_header_lengths() {
    let s = VecSerializer::from_vec_writer(VecWriter::new());
    assert_eq!(s.encode_unsigned(0, 0), Ok(vec![0x00]));
    assert_eq!(s.encode_unsigned(23, 3), Ok(vec![0x77]));
    assert_eq!(s.encode_unsigned(24, 4), Ok(vec![0x98, 24]));
    assert_eq!(s.encode_unsigned(255, 5), Ok(vec![0xb8, 255]));
    assert_eq!(s.encode_unsigned(256, 0), Err(Error::Unrepresentable));
}

#[test]
fn decoder_width_selection() {
    assert_eq!(from_bytes(vec![24, 0xff, 9]), Ok(Value::Int(255)));
    assert_eq!(from_bytes(vec![25, 0x12, 0x34, 9]), Ok(Value::Int(0x1234)));
    assert_eq!(from_bytes(vec![26, 0x12, 0x34, 0x56, 0x78, 9]), Ok(Value::Int(0x12345678)));
    assert_eq!(from_bytes(vec![26, 0xff, 0xff, 0xff, 0xff]), Ok(Value::Int(u32::MAX)));
    // widths apply to lengths too
    assert_eq!(from_bytes(vec![0x59, 0, 2, 7, 8]), Ok(Value::Bytes(vec![7, 8])));
    assert_eq!(from_bytes(vec![0x9a, 0, 0, 0, 1, 5]), Ok(Value::Array(vec![Value::Int(5)])));
}

#[test]
fn decoder_leaves_reader_after_item() {
    let mut d = Deserializer::from_vec_reader(VecReader::new(vec![25, 1, 0, 0x01, 246]));
    assert_eq!(d.parse_value(), Ok(Value::Int(256)));
    assert_eq!(d.parse_value(), Ok(Value::Int(1)));
    assert_eq!(d.parse_value(), Ok(Value::Null));
    assert_eq!(d.parse_value(), Err(Error::Truncated));
}

#[test]
fn decode_errors() {
    assert_eq!(from_bytes(vec![0x20]), Err(Error::MalformedHeader));
    assert_eq!(from_bytes(vec![0xc0]), Err(Error::MalformedHeader));
    assert_eq!(from_bytes(vec![0x1b, 0, 0, 0, 0, 0, 0, 0, 1]), Err(Error::MalformedHeader));
    assert_eq!(from_bytes(vec![0xf5]), Err(Error::UnsupportedSimpleValue));
    assert_eq!(from_bytes(vec![0xa1, 0x01, 0x02]), Err(Error::InvalidMapKey));
    assert_eq!(from_bytes(vec![0x62, 0xc3, 0x28]), Err(Error::TextDecodeError));
    assert_eq!(from_bytes(vec![]), Err(Error::Truncated));
    assert_eq!(from_bytes(vec![25, 1]), Err(Error::Truncated));
    assert_eq!(from_bytes(vec![0x43, 1, 2]), Err(Error::Truncated));
    assert_eq!(from_bytes(vec![0x82, 1]), Err(Error::Truncated));
}

#[test]
fn decode_simple_null_with_one_byte_argument() {
    assert_eq!(from_bytes(vec![0xf8, 22]), Ok(Value::Null));
}

#[test]
fn encode_unrepresentable() {
    assert_eq!(to_bytes(Value::Int(256)), Err(Error::Unrepresentable));
    assert_eq!(to_bytes(Value::Bytes(vec![0; 256])), Err(Error::Unrepresentable));
    assert_eq!(to_bytes(Value::String("y".repeat(256))), Err(Error::Unrepresentable));
    assert_eq!(to_bytes(Value::Array(vec![Value::Int(1000)])), Err(Error::Unrepresentable));
}

#[test]
fn serialize_through_trait_appends() {
    let mut s = VecSerializer::from_vec_writer(VecWriter::new());
    assert_eq!(Value::Int(1).serialize(&mut s), Ok(()));
    assert_eq!(Value::String("é".into()).serialize(&mut s), Ok(()));
    assert_eq!(s.writer.output, vec![0x01, 0x62, 0xc3, 0xa9]);
}

#[test]
fn header_byte_helpers() {
    assert_eq!(major_type(0xa2), 5);
    assert_eq!(additional_type(0xa2), 2);
    assert_eq!(make_header(7, 22), 246);
    assert_eq!(u8_slice_to_u16(&[0x12, 0x34]), 0x1234);
    assert_eq!(u8_slice_to_u32(&[0x12, 0x34, 0x56, 0x78]), 0x12345678);
}
