use quick_protobuf::branchless::{decode_varint32_branchless, decode_varint64_branchless};
use quick_protobuf::BytesReader;

#[test]
fn test_branchless_varint32_1byte() {
    // Value 0
    let raw = u64::from_le_bytes([0x00, 0x00, 0x00, 0x00, 0x00, 0x00, 0x00, 0x00]);
    let (value, len) = decode_varint32_branchless(raw).unwrap();
    assert_eq!(value, 0);
    assert_eq!(len, 1);

    // Value 1 (with garbage in trailing bytes)
    let raw = u64::from_le_bytes([0x01, 0xAB, 0xCD, 0xEF, 0x12, 0x34, 0x56, 0x78]);
    let (value, len) = decode_varint32_branchless(raw).unwrap();
    assert_eq!(value, 1);
    assert_eq!(len, 1);

    // Value 127 (largest 1-byte varint)
    let raw = u64::from_le_bytes([0x7F, 0xFF, 0xFF, 0xFF, 0xFF, 0xFF, 0xFF, 0xFF]);
    let (value, len) = decode_varint32_branchless(raw).unwrap();
    assert_eq!(value, 127);
    assert_eq!(len, 1);
}

#[test]
fn test_branchless_varint32_2byte() {
    // Value 128: [0x80, 0x01]
    let raw = u64::from_le_bytes([0x80, 0x01, 0x00, 0x00, 0x00, 0x00, 0x00, 0x00]);
    let (value, len) = decode_varint32_branchless(raw).unwrap();
    assert_eq!(value, 128);
    assert_eq!(len, 2);

    // Value 300: [0xAC, 0x02]
    let raw = u64::from_le_bytes([0xAC, 0x02, 0xFF, 0xFF, 0xFF, 0xFF, 0xFF, 0xFF]);
    let (value, len) = decode_varint32_branchless(raw).unwrap();
    assert_eq!(value, 300);
    assert_eq!(len, 2);

    // Value 16383 (max 2-byte): [0xFF, 0x7F]
    let raw = u64::from_le_bytes([0xFF, 0x7F, 0x00, 0x00, 0x00, 0x00, 0x00, 0x00]);
    let (value, len) = decode_varint32_branchless(raw).unwrap();
    assert_eq!(value, 16383);
    assert_eq!(len, 2);
}

#[test]
fn test_branchless_varint32_3byte() {
    // Value 16384: [0x80, 0x80, 0x01]
    let raw = u64::from_le_bytes([0x80, 0x80, 0x01, 0x00, 0x00, 0x00, 0x00, 0x00]);
    let (value, len) = decode_varint32_branchless(raw).unwrap();
    assert_eq!(value, 16384);
    assert_eq!(len, 3);

    // Value 2097151 (max 3-byte): [0xFF, 0xFF, 0x7F]
    let raw = u64::from_le_bytes([0xFF, 0xFF, 0x7F, 0xAA, 0xBB, 0xCC, 0xDD, 0xEE]);
    let (value, len) = decode_varint32_branchless(raw).unwrap();
    assert_eq!(value, 2097151);
    assert_eq!(len, 3);
}

#[test]
fn test_branchless_varint32_4byte() {
    // Value 2097152: [0x80, 0x80, 0x80, 0x01]
    let raw = u64::from_le_bytes([0x80, 0x80, 0x80, 0x01, 0x00, 0x00, 0x00, 0x00]);
    let (value, len) = decode_varint32_branchless(raw).unwrap();
    assert_eq!(value, 2097152);
    assert_eq!(len, 4);

    // Value 268435455 (max 4-byte): [0xFF, 0xFF, 0xFF, 0x7F]
    let raw = u64::from_le_bytes([0xFF, 0xFF, 0xFF, 0x7F, 0xAA, 0xBB, 0xCC, 0xDD]);
    let (value, len) = decode_varint32_branchless(raw).unwrap();
    assert_eq!(value, 268435455);
    assert_eq!(len, 4);
}

#[test]
fn test_branchless_varint32_5byte() {
    // u32::MAX: [0xFF, 0xFF, 0xFF, 0xFF, 0x0F]
    let raw = u64::from_le_bytes([0xFF, 0xFF, 0xFF, 0xFF, 0x0F, 0x00, 0x00, 0x00]);
    let (value, len) = decode_varint32_branchless(raw).unwrap();
    assert_eq!(value, u32::MAX);
    assert_eq!(len, 5);

    // Value 268435456 (min 5-byte): [0x80, 0x80, 0x80, 0x80, 0x01]
    let raw = u64::from_le_bytes([0x80, 0x80, 0x80, 0x80, 0x01, 0xAA, 0xBB, 0xCC]);
    let (value, len) = decode_varint32_branchless(raw).unwrap();
    assert_eq!(value, 268435456);
    assert_eq!(len, 5);
}

#[test]
fn test_branchless_varint32_negative_i32_returns_none() {
    // -1 as i32 encoded as 10-byte varint: all first 5 bytes have continuation bits
    let raw = u64::from_le_bytes([0xFF, 0xFF, 0xFF, 0xFF, 0xFF, 0xFF, 0xFF, 0xFF]);
    assert!(decode_varint32_branchless(raw).is_none());

    // All bytes 0x80 (continuation only, no value bits)
    let raw = u64::from_le_bytes([0x80, 0x80, 0x80, 0x80, 0x80, 0x80, 0x80, 0x80]);
    assert!(decode_varint32_branchless(raw).is_none());
}

#[test]
fn test_branchless_varint32_matches_scalar_for_all_sizes() {
    // Encode a u32 as a varint and verify branchless decode matches
    fn encode_varint32(mut value: u32) -> Vec<u8> {
        let mut result = Vec::new();
        loop {
            if value < 0x80 {
                result.push(value as u8);
                break;
            }
            result.push((value as u8) | 0x80);
            value >>= 7;
        }
        result
    }

    let test_values: &[u32] = &[
        0, 1, 2, 63, 64, 127,               // 1-byte
        128, 255, 256, 300, 16383,           // 2-byte
        16384, 32768, 2097151,               // 3-byte
        2097152, 134217728, 268435455,       // 4-byte
        268435456, u32::MAX / 2, u32::MAX,   // 5-byte
    ];

    for &val in test_values {
        let encoded = encode_varint32(val);
        let mut buf = [0u8; 8];
        buf[..encoded.len()].copy_from_slice(&encoded);
        let raw = u64::from_le_bytes(buf);

        let (decoded, len) = decode_varint32_branchless(raw)
            .unwrap_or_else(|| panic!("branchless decode returned None for value {}", val));
        assert_eq!(decoded, val, "value mismatch for {}", val);
        assert_eq!(len, encoded.len(), "length mismatch for {}", val);

        // Also verify against BytesReader scalar decode
        let mut reader = BytesReader::from_bytes(&buf);
        let scalar_val = reader.read_varint32(&buf).unwrap();
        assert_eq!(decoded, scalar_val, "branchless vs scalar mismatch for {}", val);
    }
}

#[test]
fn test_branchless_varint64_1byte() {
    // Value 0
    let raw = u64::from_le_bytes([0x00, 0x00, 0x00, 0x00, 0x00, 0x00, 0x00, 0x00]);
    let (value, len) = decode_varint64_branchless(raw).unwrap();
    assert_eq!(value, 0);
    assert_eq!(len, 1);

    // Value 1 (with garbage in trailing bytes)
    let raw = u64::from_le_bytes([0x01, 0xAB, 0xCD, 0xEF, 0x12, 0x34, 0x56, 0x78]);
    let (value, len) = decode_varint64_branchless(raw).unwrap();
    assert_eq!(value, 1);
    assert_eq!(len, 1);

    // Value 127 (largest 1-byte varint)
    let raw = u64::from_le_bytes([0x7F, 0xFF, 0xFF, 0xFF, 0xFF, 0xFF, 0xFF, 0xFF]);
    let (value, len) = decode_varint64_branchless(raw).unwrap();
    assert_eq!(value, 127);
    assert_eq!(len, 1);
}

#[test]
fn test_branchless_varint64_2byte() {
    // Value 128: [0x80, 0x01]
    let raw = u64::from_le_bytes([0x80, 0x01, 0x00, 0x00, 0x00, 0x00, 0x00, 0x00]);
    let (value, len) = decode_varint64_branchless(raw).unwrap();
    assert_eq!(value, 128);
    assert_eq!(len, 2);

    // Value 300: [0xAC, 0x02]
    let raw = u64::from_le_bytes([0xAC, 0x02, 0xFF, 0xFF, 0xFF, 0xFF, 0xFF, 0xFF]);
    let (value, len) = decode_varint64_branchless(raw).unwrap();
    assert_eq!(value, 300);
    assert_eq!(len, 2);

    // Value 16383 (max 2-byte): [0xFF, 0x7F]
    let raw = u64::from_le_bytes([0xFF, 0x7F, 0x00, 0x00, 0x00, 0x00, 0x00, 0x00]);
    let (value, len) = decode_varint64_branchless(raw).unwrap();
    assert_eq!(value, 16383);
    assert_eq!(len, 2);
}

#[test]
fn test_branchless_varint64_5byte() {
    // u32::MAX: [0xFF, 0xFF, 0xFF, 0xFF, 0x0F]
    let raw = u64::from_le_bytes([0xFF, 0xFF, 0xFF, 0xFF, 0x0F, 0x00, 0x00, 0x00]);
    let (value, len) = decode_varint64_branchless(raw).unwrap();
    assert_eq!(value, u32::MAX as u64);
    assert_eq!(len, 5);
}

#[test]
fn test_branchless_varint64_6byte() {
    // Value = 128 << 28 = 34359738368 (uses 6 bytes)
    let raw = u64::from_le_bytes([0x80, 0x80, 0x80, 0x80, 0x80, 0x01, 0x00, 0x00]);
    let (value, len) = decode_varint64_branchless(raw).unwrap();
    assert_eq!(value, 128u64 << 28);
    assert_eq!(len, 6);
}

#[test]
fn test_branchless_varint64_7byte() {
    // Value = 16384 << 28 = 4398046511104 (uses 7 bytes)
    let raw = u64::from_le_bytes([0x80, 0x80, 0x80, 0x80, 0x80, 0x80, 0x01, 0x00]);
    let (value, len) = decode_varint64_branchless(raw).unwrap();
    assert_eq!(value, 16384u64 << 28);
    assert_eq!(len, 7);
}

#[test]
fn test_branchless_varint64_8byte() {
    // 8-byte varint: 0x00FFFFFFFFFFFFFF (56 bits all set)
    let raw = u64::from_le_bytes([0xFF, 0xFF, 0xFF, 0xFF, 0xFF, 0xFF, 0xFF, 0x7F]);
    let (value, len) = decode_varint64_branchless(raw).unwrap();
    assert_eq!(value, 0x00FFFFFFFFFFFFFF_u64);
    assert_eq!(len, 8);

    // Minimum 8-byte varint: 2097152 << 28 = 562949953421312
    let raw = u64::from_le_bytes([0x80, 0x80, 0x80, 0x80, 0x80, 0x80, 0x80, 0x01]);
    let (value, len) = decode_varint64_branchless(raw).unwrap();
    assert_eq!(value, 2097152u64 << 28);
    assert_eq!(len, 8);
}

#[test]
fn test_branchless_varint64_9_10_byte_returns_none() {
    // All 8 bytes with continuation bits set -> 9-10 byte varint
    let raw = u64::from_le_bytes([0xFF, 0xFF, 0xFF, 0xFF, 0xFF, 0xFF, 0xFF, 0xFF]);
    assert!(decode_varint64_branchless(raw).is_none());

    let raw = u64::from_le_bytes([0x80, 0x80, 0x80, 0x80, 0x80, 0x80, 0x80, 0x80]);
    assert!(decode_varint64_branchless(raw).is_none());
}

#[test]
fn test_branchless_varint64_matches_scalar_for_all_sizes() {
    fn encode_varint64(mut value: u64) -> Vec<u8> {
        let mut result = Vec::new();
        loop {
            if value < 0x80 {
                result.push(value as u8);
                break;
            }
            result.push((value as u8) | 0x80);
            value >>= 7;
        }
        result
    }

    let test_values: &[u64] = &[
        0, 1, 2, 63, 64, 127,                           // 1-byte
        128, 255, 256, 300, 16383,                       // 2-byte
        16384, 32768, 2097151,                           // 3-byte
        2097152, 134217728, 268435455,                   // 4-byte
        268435456, u32::MAX as u64,                      // 5-byte
        (u32::MAX as u64) + 1, 1u64 << 35,              // 6-byte
        1u64 << 42, (1u64 << 42) - 1,                   // 7-byte
        1u64 << 49, (1u64 << 56) - 1,                   // 8-byte
        1u64 << 56, 1u64 << 63, u64::MAX,               // 9-10 byte (handled by read_varint64)
    ];

    for &val in test_values {
        let encoded = encode_varint64(val);

        // For 1-8 byte varints, test the branchless decode function directly
        if encoded.len() <= 8 {
            let mut buf = [0u8; 8];
            buf[..encoded.len()].copy_from_slice(&encoded);
            let raw = u64::from_le_bytes(buf);

            let (decoded, len) = decode_varint64_branchless(raw)
                .unwrap_or_else(|| panic!("branchless decode returned None for value {}", val));
            assert_eq!(decoded, val, "value mismatch for {}", val);
            assert_eq!(len, encoded.len(), "length mismatch for {}", val);
        }

        // Verify against BytesReader for all sizes (needs 10-byte buffer for fast path)
        let mut padded = vec![0u8; 10];
        padded[..encoded.len()].copy_from_slice(&encoded);
        let mut reader = BytesReader::from_bytes(&padded);
        let reader_val = reader.read_varint64(&padded).unwrap();
        assert_eq!(reader_val, val, "BytesReader mismatch for {}", val);
        assert_eq!(reader.start(), encoded.len(), "BytesReader consumed wrong number of bytes for {}", val);
    }
}
