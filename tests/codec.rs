use cbor_codec::de::from_bytes;
use cbor_codec::ser::to_bytes;
use cbor_codec::value::{insert_entry, Value};

fn two_key_map() -> Value {
    let mut test_map = Vec::new();
    insert_entry(&mut test_map, "key1".into(), Value::String("value1".into()));
    insert_entry(&mut test_map, "key2".into(), Value::String("value2".into()));
    Value::Mapping(test_map)
}

const TWO_KEY_MAP_BYTES: [u8; 25] = [
    0xa2, 0x64, 0x6b, 0x65, 0x79, 0x31, 0x66, 0x76, 0x61, 0x6c, 0x75, 0x65, 0x31, 0x64, 0x6b,
    0x65, 0x79, 0x32, 0x66, 0x76, 0x61, 0x6c, 0x75, 0x65, 0x32,
];

#[test]
fn deserialize_map() {
    let expected: Value = two_key_map();
    assert_eq!(Ok(expected), from_bytes(TWO_KEY_MAP_BYTES.to_vec()));
}

#[test]
fn deserialize_string() {
    let expected: Value = Value::String("test".into());
    assert_eq!(Ok(expected), from_bytes(vec![0x64, 0x74, 0x65, 0x73, 0x74]));
}

#[test]
fn deserialize_array() {
    let expected: Value = Value::Array(vec![Value::Int(1), Value::Int(2), Value::Int(3)]);
    assert_eq!(Ok(expected), from_bytes(vec![0x83, 0x01, 0x02, 0x03]));
}

#[test]
fn deserialize_bytes() {
    let expected: Value = Value::Bytes(vec![1, 2, 3]);
    assert_eq!(Ok(expected), from_bytes(vec![0x43, 0x01, 0x02, 0x03]));
}

#[test]
fn deserialize_u8() {
    let expected: Value = Value::Int(1);
    assert_eq!(Ok(expected), from_bytes(vec![0x01]));
}

#[test]
fn deserialize_u8_2() {
    let expected: Value = Value::Int(42);
    assert_eq!(Ok(expected), from_bytes(vec![24, 42]));
}

#[test]
fn deserialize_u16() {
    let expected: Value = Value::Int(0x100);
    assert_eq!(Ok(expected), from_bytes(vec![25, 1, 0]));
}

#[test]
fn deserialize_u32() {
    let expected: Value = Value::Int(0x1000000);
    assert_eq!(Ok(expected), from_bytes(vec![26, 1, 0, 0, 0]));
}

#[test]
fn deserialize_null() {
    let expected: Value = Value::Null;
    assert_eq!(Ok(expected), from_bytes(vec![246]));
}

#[test]
fn serialize_map() {
    let value: Value = two_key_map();
    assert_eq!(Ok(TWO_KEY_MAP_BYTES.to_vec()), to_bytes(value));
}

#[test]
fn serialize_array() {
    let value = Value::Array(vec![Value::Int(1), Value::Int(2), Value::Int(3)]);
    assert_eq!(Ok(vec![131, 1, 2, 3]), to_bytes(value));
}

#[test]
fn serialize_string() {
    let value = Value::String("test".into());
    assert_eq!(Ok(vec![0x64, 0x74, 0x65, 0x73, 0x74]), to_bytes(value));
}

#[test]
fn serialize_u8() {
    let value = Value::Int(2);
    assert_eq!(Ok(vec![2]), to_bytes(value));
}

#[test]
fn serialize_u8_2() {
    let value = Value::Int(42);
    assert_eq!(Ok(vec![24, 42]), to_bytes(value));
}

#[test]
fn serialize_null() {
    let value = Value::Null;
    assert_eq!(Ok(vec![246]), to_bytes(value));
}
