use quick_protobuf::{BytesReader, Error};

#[test]
fn test_varint() {
    let data = [0x96, 0x01];
    let mut r = BytesReader::from_bytes(&data[..]);
    assert_eq!(150, r.read_varint32(&data[..]).unwrap());
    assert!(r.is_eof());
}

#[test]
fn test_varint32_1byte() {
    // Value 1: single byte varint (no continuation bit)
    let data = [0x01];
    let mut r = BytesReader::from_bytes(&data);
    assert_eq!(1, r.read_varint32(&data).unwrap());
    assert!(r.is_eof());

    // Value 127: largest 1-byte varint
    let data = [0x7f];
    let mut r = BytesReader::from_bytes(&data);
    assert_eq!(127, r.read_varint32(&data).unwrap());
    assert!(r.is_eof());

    // Value 0
    let data = [0x00];
    let mut r = BytesReader::from_bytes(&data);
    assert_eq!(0, r.read_varint32(&data).unwrap());
    assert!(r.is_eof());
}

#[test]
fn test_varint32_2byte() {
    // Value 128: smallest 2-byte varint
    let data = [0x80, 0x01];
    let mut r = BytesReader::from_bytes(&data);
    assert_eq!(128, r.read_varint32(&data).unwrap());
    assert!(r.is_eof());

    // Value 300
    let data = [0xac, 0x02];
    let mut r = BytesReader::from_bytes(&data);
    assert_eq!(300, r.read_varint32(&data).unwrap());
    assert!(r.is_eof());
}

#[test]
fn test_varint32_5byte() {
    // u32::MAX = 4294967295 encoded as 5-byte varint
    let data = [0xff, 0xff, 0xff, 0xff, 0x0f];
    let mut r = BytesReader::from_bytes(&data);
    assert_eq!(u32::MAX, r.read_varint32(&data).unwrap());
    assert!(r.is_eof());
}

#[test]
fn test_varint32_boundary_slow_path() {
    // 5-byte varint with only 4 bytes in buffer should fail (UnexpectedEndOfBuffer).
    // This forces the slow path since < 5 bytes remain.
    let data = [0xff, 0xff, 0xff, 0xff]; // 4 bytes, all with continuation bit
    let mut r = BytesReader::from_bytes(&data);
    assert!(matches!(r.read_varint32(&data).unwrap_err(), Error::UnexpectedEndOfBuffer));
}

#[test]
fn test_varint32_boundary_exact_fit() {
    // 4-byte varint fitting exactly in 4 bytes (slow path since < 5 bytes)
    // Value: 0x0FFFFFFF = 268435455
    let data = [0xff, 0xff, 0xff, 0x7f];
    let mut r = BytesReader::from_bytes(&data);
    assert_eq!(0x0FFFFFFF, r.read_varint32(&data).unwrap());
    assert!(r.is_eof());
}

#[test]
fn test_varint32_negative_i32() {
    // -1 as i32 encoded as 10-byte varint (all continuation bits set except last)
    let data = [0xff, 0xff, 0xff, 0xff, 0xff, 0xff, 0xff, 0xff, 0xff, 0x01];
    let mut r = BytesReader::from_bytes(&data);
    let val = r.read_varint32(&data).unwrap();
    // -1 as i32 bit pattern = 0xFFFFFFFF, but read_varint32 masks byte4 with 0xF
    // so we get 0xFFFFFFFF
    assert_eq!(val as i32, -1);
    assert!(r.is_eof());
}

#[test]
fn test_varint64_1byte() {
    // Value 0
    let data = [0x00];
    let mut r = BytesReader::from_bytes(&data);
    assert_eq!(0u64, r.read_varint64(&data).unwrap());
    assert!(r.is_eof());

    // Value 1
    let data = [0x01];
    let mut r = BytesReader::from_bytes(&data);
    assert_eq!(1u64, r.read_varint64(&data).unwrap());
    assert!(r.is_eof());

    // Value 127: largest 1-byte varint
    let data = [0x7f];
    let mut r = BytesReader::from_bytes(&data);
    assert_eq!(127u64, r.read_varint64(&data).unwrap());
    assert!(r.is_eof());
}

#[test]
fn test_varint64_5byte() {
    // u32::MAX = 4294967295 encoded as 5-byte varint (tests part0 + part1 boundary)
    let data = [0xff, 0xff, 0xff, 0xff, 0x0f];
    let mut r = BytesReader::from_bytes(&data);
    assert_eq!(u32::MAX as u64, r.read_varint64(&data).unwrap());
    assert!(r.is_eof());
}

#[test]
fn test_varint64_10byte() {
    // u64::MAX encoded as 10-byte varint
    // Each of the first 9 bytes has continuation bit set (0xFF),
    // last byte is 0x01 (carries bit 63)
    let data = [0xff, 0xff, 0xff, 0xff, 0xff, 0xff, 0xff, 0xff, 0xff, 0x01];
    let mut r = BytesReader::from_bytes(&data);
    assert_eq!(u64::MAX, r.read_varint64(&data).unwrap());
    assert!(r.is_eof());
}

#[test]
fn test_varint64_boundary_exact_fit() {
    // 5-byte varint64 in exactly 5-byte buffer (slow path since < 10 bytes)
    let data = [0xff, 0xff, 0xff, 0xff, 0x0f];
    let mut r = BytesReader::from_bytes(&data);
    assert_eq!(u32::MAX as u64, r.read_varint64(&data).unwrap());
    assert!(r.is_eof());
}

#[test]
fn test_varint64_boundary_slow_path() {
    // 10-byte varint with only 9 bytes in buffer should fail
    let data = [0xff, 0xff, 0xff, 0xff, 0xff, 0xff, 0xff, 0xff, 0xff];
    let mut r = BytesReader::from_bytes(&data);
    assert!(matches!(r.read_varint64(&data).unwrap_err(), Error::UnexpectedEndOfBuffer));
}

#[test]
fn test_varint32_fast_path_1byte() {
    // 1-byte varint in a buffer large enough to trigger fast path (>= 5 bytes)
    let data = [0x01, 0x00, 0x00, 0x00, 0x00];
    let mut r = BytesReader::from_bytes(&data);
    assert_eq!(1, r.read_varint32(&data).unwrap());
    assert_eq!(r.start(), 1);
}

#[test]
fn test_varint32_fast_path_2byte() {
    // 2-byte varint (300) in a buffer large enough for fast path
    let data = [0xac, 0x02, 0x00, 0x00, 0x00];
    let mut r = BytesReader::from_bytes(&data);
    assert_eq!(300, r.read_varint32(&data).unwrap());
    assert_eq!(r.start(), 2);
}

#[test]
fn test_varint32_fast_path_3byte() {
    // 3-byte varint: 16384 = 0x4000 -> [0x80, 0x80, 0x01]
    let data = [0x80, 0x80, 0x01, 0x00, 0x00];
    let mut r = BytesReader::from_bytes(&data);
    assert_eq!(16384, r.read_varint32(&data).unwrap());
    assert_eq!(r.start(), 3);
}

#[test]
fn test_varint32_fast_path_4byte() {
    // 4-byte varint: 2097152 = 0x200000 -> [0x80, 0x80, 0x80, 0x01]
    let data = [0x80, 0x80, 0x80, 0x01, 0x00];
    let mut r = BytesReader::from_bytes(&data);
    assert_eq!(2097152, r.read_varint32(&data).unwrap());
    assert_eq!(r.start(), 4);
}

#[test]
fn test_varint32_fast_path_overflow_error() {
    // All 10+ bytes with continuation bit set -> Error::Varint (fast path)
    let data = [0x80; 11];
    let mut r = BytesReader::from_bytes(&data);
    assert!(matches!(r.read_varint32(&data).unwrap_err(), Error::Varint));
}

#[test]
fn test_varint64_fast_path_1byte() {
    // 1-byte varint in buffer >= 10 bytes (fast path)
    let data = [0x01, 0, 0, 0, 0, 0, 0, 0, 0, 0];
    let mut r = BytesReader::from_bytes(&data);
    assert_eq!(1u64, r.read_varint64(&data).unwrap());
    assert_eq!(r.start(), 1);
}

#[test]
fn test_varint64_fast_path_2byte() {
    // 2-byte varint (300) in buffer >= 10 bytes (fast path)
    let data = [0xac, 0x02, 0, 0, 0, 0, 0, 0, 0, 0];
    let mut r = BytesReader::from_bytes(&data);
    assert_eq!(300u64, r.read_varint64(&data).unwrap());
    assert_eq!(r.start(), 2);
}

#[test]
fn test_varint64_fast_path_3byte() {
    // 3-byte varint: 16384 = 1 << 14 -> [0x80, 0x80, 0x01]
    let data = [0x80, 0x80, 0x01, 0, 0, 0, 0, 0, 0, 0];
    let mut r = BytesReader::from_bytes(&data);
    assert_eq!(16384u64, r.read_varint64(&data).unwrap());
    assert_eq!(r.start(), 3);
}

#[test]
fn test_varint64_fast_path_4byte() {
    // 4-byte varint: 2097152 = 1 << 21 -> [0x80, 0x80, 0x80, 0x01]
    let data = [0x80, 0x80, 0x80, 0x01, 0, 0, 0, 0, 0, 0];
    let mut r = BytesReader::from_bytes(&data);
    assert_eq!(2097152u64, r.read_varint64(&data).unwrap());
    assert_eq!(r.start(), 4);
}

#[test]
fn test_varint64_fast_path_5byte() {
    // 5-byte varint (u32::MAX) in buffer >= 10 bytes (fast path)
    let data = [0xff, 0xff, 0xff, 0xff, 0x0f, 0, 0, 0, 0, 0];
    let mut r = BytesReader::from_bytes(&data);
    assert_eq!(u32::MAX as u64, r.read_varint64(&data).unwrap());
    assert_eq!(r.start(), 5);
}

#[test]
fn test_varint64_fast_path_6byte() {
    // 6-byte varint: value = 128 << 28 = 34359738368
    // part1 second byte (buf[5]) exits with lower 7 bits = 1, shifted << 35 from base
    // buf[0..3]: all 0x80 (part0 = 0), buf[4]: 0x80 (r1 = 0), buf[5]: 0x01 (r1 |= 1<<7 = 128)
    let data = [0x80, 0x80, 0x80, 0x80, 0x80, 0x01, 0, 0, 0, 0];
    let mut r = BytesReader::from_bytes(&data);
    assert_eq!(128u64 << 28, r.read_varint64(&data).unwrap());
    assert_eq!(r.start(), 6);
}

#[test]
fn test_varint64_fast_path_7byte() {
    // 7-byte varint: value = 16384 << 28 = 4398046511104
    // buf[0..3]: all 0x80 (part0 = 0), buf[4..5]: 0x80 (r1 bits 0-13 = 0),
    // buf[6]: 0x01 (r1 |= 1<<14 = 16384)
    let data = [0x80, 0x80, 0x80, 0x80, 0x80, 0x80, 0x01, 0, 0, 0];
    let mut r = BytesReader::from_bytes(&data);
    assert_eq!(16384u64 << 28, r.read_varint64(&data).unwrap());
    assert_eq!(r.start(), 7);
}

#[test]
fn test_varint64_fast_path_8byte() {
    // 8-byte varint in buffer >= 10 bytes (fast path)
    // Encodes value that uses part0 (28 bits) + part1 (28 bits) = 56 bits
    // 0x00FFFFFFFFFFFFFF = 72057594037927935
    let data = [0xff, 0xff, 0xff, 0xff, 0xff, 0xff, 0xff, 0x7f, 0, 0];
    let mut r = BytesReader::from_bytes(&data);
    assert_eq!(0x00FFFFFFFFFFFFFF_u64, r.read_varint64(&data).unwrap());
    assert_eq!(r.start(), 8);
}

#[test]
fn test_varint64_fast_path_9byte() {
    // 9-byte varint in buffer >= 10 bytes (fast path)
    // Encodes a value using part0 + part1 + 1 byte of part2
    let data = [0xff, 0xff, 0xff, 0xff, 0xff, 0xff, 0xff, 0xff, 0x7f, 0];
    let mut r = BytesReader::from_bytes(&data);
    let expected = (0x0F_FF_FF_FF_u64) | ((0x0F_FF_FF_FF_u64) << 28) | (0x7F_u64 << 56);
    assert_eq!(expected, r.read_varint64(&data).unwrap());
    assert_eq!(r.start(), 9);
}

#[test]
fn test_varint64_fast_path_overflow_error() {
    // All 10 bytes with continuation bit set -> Error::Varint (fast path)
    let data = [0x80; 10];
    let mut r = BytesReader::from_bytes(&data);
    assert!(matches!(r.read_varint64(&data).unwrap_err(), Error::Varint));
}

#[test]
fn slow_reads_agree_with_fast_reads() {
    for len in 0..13 {
        for stop in 0..13 {
            let mut data: Vec<u8> = (0..len).map(|i| 0x80 | (29 * i + 5) as u8).collect();
            if stop < len {
                data[stop] &= 0x7f;
            }
            let mut fast = BytesReader::from_bytes(&data);
            let mut slow = fast.clone();
            let a = fast.read_varint32(&data);
            let b = slow.read_varint32_slow(&data);
            assert_eq!(format!("{:?}", a), format!("{:?}", b));
            assert_eq!(fast, slow);

            let mut fast = BytesReader::from_bytes(&data);
            let mut slow = fast.clone();
            let a = fast.read_varint64(&data);
            let b = slow.read_varint64_slow(&data);
            assert_eq!(format!("{:?}", a), format!("{:?}", b));
            assert_eq!(fast, slow);
        }
    }
}
