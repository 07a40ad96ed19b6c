use quick_protobuf::encode::build_packed_int32;
use quick_protobuf::BytesReader;

#[test]
fn test_read_packed_int32_matches_scalar_small_values() {
    // All 1-byte varints (0-127)
    let values: Vec<i32> = (0..20).collect();
    let data = build_packed_int32(&values);
    let mut reader = BytesReader::from_bytes(&data);
    let result = reader.read_packed_int32(&data).unwrap();
    assert_eq!(result, values);
    assert!(reader.is_eof());
}

#[test]
fn test_read_packed_int32_matches_scalar_mixed_sizes() {
    // Mix of 1-byte, 2-byte, 3-byte, 4-byte, and 5-byte varints
    let values = vec![
        0, 1, 127,          // 1-byte
        128, 255, 16383,     // 2-byte
        16384, 2097151,      // 3-byte
        2097152, 268435455,  // 4-byte
        268435456, i32::MAX, // 5-byte
    ];
    let data = build_packed_int32(&values);
    let mut reader = BytesReader::from_bytes(&data);
    let result = reader.read_packed_int32(&data).unwrap();
    assert_eq!(result, values);
}

#[test]
fn test_read_packed_int32_matches_scalar_vs_read_packed() {
    // Compare read_packed_int32 against read_packed with read_int32
    let values: Vec<i32> = (0..50).map(|i| i * 1000).collect();
    let data = build_packed_int32(&values);

    let mut reader1 = BytesReader::from_bytes(&data);
    let result1 = reader1.read_packed_int32(&data).unwrap();

    let mut reader2 = BytesReader::from_bytes(&data);
    let result2 = reader2
        .read_packed(&data, BytesReader::read_int32)
        .unwrap();

    assert_eq!(result1, result2);
}

#[test]
fn test_read_packed_int32_negative_values() {
    // Negative i32 values use 10-byte varint encoding
    let values = vec![-1, -128, -32768, i32::MIN, 0, 1, -1];
    let data = build_packed_int32(&values);
    let mut reader = BytesReader::from_bytes(&data);
    let result = reader.read_packed_int32(&data).unwrap();
    assert_eq!(result, values);
}

#[test]
fn test_read_packed_int32_empty() {
    let data = build_packed_int32(&[]);
    let mut reader = BytesReader::from_bytes(&data);
    let result = reader.read_packed_int32(&data).unwrap();
    assert!(result.is_empty());
}

#[test]
fn test_read_packed_int32_single_element() {
    let values = vec![42];
    let data = build_packed_int32(&values);
    let mut reader = BytesReader::from_bytes(&data);
    let result = reader.read_packed_int32(&data).unwrap();
    assert_eq!(result, values);
}

#[test]
fn test_read_packed_int32_exactly_16_payload_bytes() {
    // Build a payload that is exactly 16 bytes
    // 16 single-byte varints (values 0-15)
    let values: Vec<i32> = (0..16).collect();
    let data = build_packed_int32(&values);
    // Verify payload is 16 bytes (length prefix is 1 byte for value 16)
    assert_eq!(data[0], 16); // length prefix
    assert_eq!(data.len(), 17); // 1 prefix + 16 payload
    let mut reader = BytesReader::from_bytes(&data);
    let result = reader.read_packed_int32(&data).unwrap();
    assert_eq!(result, values);
}

#[test]
fn test_read_packed_int32_17_payload_bytes() {
    // Build a payload that is 17 bytes: 17 single-byte varints
    let values: Vec<i32> = (0..17).collect();
    let data = build_packed_int32(&values);
    assert_eq!(data[0], 17);
    assert_eq!(data.len(), 18);
    let mut reader = BytesReader::from_bytes(&data);
    let result = reader.read_packed_int32(&data).unwrap();
    assert_eq!(result, values);
}

#[test]
fn test_read_packed_int32_many_elements() {
    // Stress test with many elements of varying sizes
    let values: Vec<i32> = (0..200)
        .map(|i| match i % 5 {
            0 => i,             // small (1-byte)
            1 => i * 200,       // medium (2-byte)
            2 => i * 40000,     // large (3-byte)
            3 => i * 5000000,   // very large (4-byte)
            _ => i * 100,       // mixed
        })
        .collect();
    let data = build_packed_int32(&values);
    let mut reader = BytesReader::from_bytes(&data);
    let result = reader.read_packed_int32(&data).unwrap();
    assert_eq!(result, values);
}

#[test]
fn test_read_packed_int32_all_max_positive() {
    // All i32::MAX values (5-byte varints)
    let values = vec![i32::MAX; 10];
    let data = build_packed_int32(&values);
    let mut reader = BytesReader::from_bytes(&data);
    let result = reader.read_packed_int32(&data).unwrap();
    assert_eq!(result, values);
}
