use cpac::conditioning::{classify, deserialize_partition, merge, partition, serialize_partition, ByteClass};

#[test]
fn classify_json() {
    let data = br#"{"key": 123, "val": 4.5}"#;
    let classes = classify(data);
    assert_eq!(classes[0], ByteClass::Delimiter);
    assert_eq!(classes[2], ByteClass::Text);
    assert_eq!(classes[8], ByteClass::Numeric);
}

#[test]
fn roundtrip_partition_merge() {
    let data = br#"{"name": "Alice", "age": 30, "score": 95.5}"#;
    let result = partition(data);
    let merged = merge(&result).unwrap();
    assert_eq!(merged, data);
}

#[test]
fn roundtrip_serialize_deserialize() {
    let data = br#"[1, 2, 3, "hello", {"x": 99}]"#;
    let result = partition(data);
    let serialized = serialize_partition(&result);
    let deserialized = deserialize_partition(&serialized).unwrap();
    let merged = merge(&deserialized).unwrap();
    assert_eq!(merged, data);
}

#[test]
fn empty_data() {
    let result = partition(b"");
    assert!(result.position_map.is_empty());
    for s in &result.streams {
        assert!(s.is_empty());
    }
    let merged = merge(&result).unwrap();
    assert!(merged.is_empty());
}

#[test]
fn binary_data_high_entropy() {
    let data: Vec<u8> = (128..200).collect();
    let classes = classify(&data);
    assert!(classes.iter().all(|c| *c == ByteClass::HighEntropy));
}

#[test]
fn numeric_stream_separation() {
    let data = b"value=12345,count=67890";
    let result = partition(data);
    let numeric = &result.streams[ByteClass::Numeric as usize];
    assert!(numeric.iter().all(|b| b.is_ascii_digit()));
    assert_eq!(numeric.len(), 10);
}

#[test]
fn roundtrip_with_escapes() {
    let data = br#"{"msg": "hello \"world\""}"#;
    let result = partition(data);
    let merged = merge(&result).unwrap();
    assert_eq!(merged, data);
}

#[test]
fn byte_class_from_u8_codes() {
    assert_eq!(ByteClass::from_u8(0), Some(ByteClass::Delimiter));
    assert_eq!(ByteClass::from_u8(1), Some(ByteClass::Numeric));
    assert_eq!(ByteClass::from_u8(2), Some(ByteClass::Text));
    assert_eq!(ByteClass::from_u8(3), Some(ByteClass::HighEntropy));
    assert_eq!(ByteClass::from_u8(4), None);
    assert_eq!(ByteClass::Text.id(), 2);
}

#[test]
fn hex_and_exponent_contexts() {
    // "0x1f": 'x' after '0' and 'f' after a hex digit are numeric; "1e5": 'e' after a digit.
    let classes = classify(b"0x1f 1e5 ab");
    assert_eq!(classes[1], ByteClass::Numeric);
    assert_eq!(classes[3], ByteClass::Numeric);
    assert_eq!(classes[4], ByteClass::Delimiter);
    assert_eq!(classes[6], ByteClass::Numeric);
    assert_eq!(classes[9], ByteClass::Text);
}

#[test]
fn position_map_runs() {
    // 'b' after the hex digit 'a' continues a hex number.
    let result = partition(b"ab12");
    assert_eq!(result.position_map, vec![(2u8, 1u32), (1u8, 3u32)]);
    let bytes = serialize_partition(&result);
    // 4 (runs) + 2*5 + 16 + 4 bytes of stream data
    assert_eq!(bytes.len(), 4 + 10 + 16 + 4);
}

#[test]
fn merge_rejects_bad_class_and_overflow() {
    let mut result = partition(b"abc");
    result.position_map = vec![(7u8, 1u32)];
    assert!(merge(&result).is_err());
    result.position_map = vec![(2u8, 4u32)];
    assert!(merge(&result).is_err());
}

#[test]
fn deserialize_rejects_truncation() {
    assert!(deserialize_partition(&[1, 0]).is_err());
    let bytes = serialize_partition(&partition(b"x=1"));
    assert!(deserialize_partition(&bytes[..bytes.len() - 1]).is_err());
    assert!(deserialize_partition(&bytes).is_ok());
}

#[test]
fn bang_at_hash_are_delimiters() {
    let classes = classify(b"!@#a");
    assert_eq!(classes, vec![ByteClass::Delimiter, ByteClass::Delimiter, ByteClass::Delimiter, ByteClass::Text]);
}
