use quick_protobuf::{BytesReader, Error};

#[test]
fn test_read_fixed32_success() {
    let data: &[u8] = &[0x2A, 0x00, 0x00, 0x00];
    let mut r = BytesReader::from_bytes(data);
    assert_eq!(42u32, r.read_fixed32(data).unwrap());
    assert!(r.is_eof());
}

#[test]
fn test_read_fixed32_insufficient_buffer() {
    let data: &[u8] = &[0x01, 0x02, 0x03]; // 3 bytes, need 4
    let mut r = BytesReader::from_bytes(data);
    assert!(matches!(
        r.read_fixed32(data).unwrap_err(),
        Error::UnexpectedEndOfBuffer
    ));
}

#[test]
fn test_read_fixed64_success() {
    let data: &[u8] = &[0x2A, 0x00, 0x00, 0x00, 0x00, 0x00, 0x00, 0x00];
    let mut r = BytesReader::from_bytes(data);
    assert_eq!(42u64, r.read_fixed64(data).unwrap());
    assert!(r.is_eof());
}

#[test]
fn test_read_fixed64_insufficient_buffer() {
    let data: &[u8] = &[0x01, 0x02, 0x03, 0x04, 0x05, 0x06, 0x07]; // 7 bytes, need 8
    let mut r = BytesReader::from_bytes(data);
    assert!(matches!(
        r.read_fixed64(data).unwrap_err(),
        Error::UnexpectedEndOfBuffer
    ));
}

#[test]
fn test_read_sfixed32_success() {
    // -1 in little-endian i32 = 0xFF 0xFF 0xFF 0xFF
    let data: &[u8] = &[0xFF, 0xFF, 0xFF, 0xFF];
    let mut r = BytesReader::from_bytes(data);
    assert_eq!(-1i32, r.read_sfixed32(data).unwrap());
    assert!(r.is_eof());
}

#[test]
fn test_read_sfixed32_insufficient_buffer() {
    let data: &[u8] = &[0x01, 0x02];
    let mut r = BytesReader::from_bytes(data);
    assert!(matches!(
        r.read_sfixed32(data).unwrap_err(),
        Error::UnexpectedEndOfBuffer
    ));
}

#[test]
fn test_read_sfixed64_success() {
    // -1 in little-endian i64
    let data: &[u8] = &[0xFF, 0xFF, 0xFF, 0xFF, 0xFF, 0xFF, 0xFF, 0xFF];
    let mut r = BytesReader::from_bytes(data);
    assert_eq!(-1i64, r.read_sfixed64(data).unwrap());
    assert!(r.is_eof());
}

#[test]
fn test_read_sfixed64_insufficient_buffer() {
    let data: &[u8] = &[0x01, 0x02, 0x03, 0x04];
    let mut r = BytesReader::from_bytes(data);
    assert!(matches!(
        r.read_sfixed64(data).unwrap_err(),
        Error::UnexpectedEndOfBuffer
    ));
}

#[test]
fn read_fixed32_gives_the_bits_of_a_float() {
    // 1.0f32 in little-endian = 0x00 0x00 0x80 0x3F
    let data: &[u8] = &[0x00, 0x00, 0x80, 0x3F];
    let mut r = BytesReader::from_bytes(data);
    assert_eq!(1.0f32.to_bits(), r.read_fixed32(data).unwrap());
    assert!(r.is_eof());
}

#[test]
fn read_fixed64_gives_the_bits_of_a_double() {
    // 1.0f64 in little-endian = 0x00 0x00 0x00 0x00 0x00 0x00 0xF0 0x3F
    let data: &[u8] = &[0x00, 0x00, 0x00, 0x00, 0x00, 0x00, 0xF0, 0x3F];
    let mut r = BytesReader::from_bytes(data);
    assert_eq!(1.0f64.to_bits(), r.read_fixed64(data).unwrap());
    assert!(r.is_eof());
}

#[test]
fn fixed_reads_do_not_go_beyond_the_slice() {
    // the reader ends at 8, behind each of these slices
    let mut r = BytesReader::from_bytes(&[0u8; 8]);
    for data in [&[][..], &[1, 2], &[1, 2, 3]] {
        assert!(matches!(r.read_fixed32(data), Err(Error::UnexpectedEndOfBuffer)));
        assert!(matches!(r.read_sfixed32(data), Err(Error::UnexpectedEndOfBuffer)));
    }
    for data in [&[1, 2, 3, 4][..], &[1, 2, 3, 4, 5, 6, 7]] {
        assert!(matches!(r.read_fixed64(data), Err(Error::UnexpectedEndOfBuffer)));
        assert!(matches!(r.read_sfixed64(data), Err(Error::UnexpectedEndOfBuffer)));
    }
    assert_eq!((0, 8), (r.start(), r.end()));

    // the position lies behind the slice
    r.set_start(5);
    assert!(matches!(r.read_fixed32(&[1, 2]), Err(Error::UnexpectedEndOfBuffer)));
    assert_eq!(5, r.start());
}

#[test]
fn fixed_reads_go_by_where_the_number_lies() {
    // the reader ends behind the slice, the number does not
    let data = [1, 0, 0, 0, 0, 0x80];
    let mut r = BytesReader::from_bytes(&[0u8; 8]);
    assert_eq!(1, r.read_fixed32(&data).unwrap());
    assert_eq!((4, 8), (r.start(), r.end()));
    assert!(matches!(r.read_fixed32(&data), Err(Error::UnexpectedEndOfBuffer)));
    assert_eq!((4, 8), (r.start(), r.end()));
    let mut r = BytesReader::from_bytes(&[0u8; 8]);
    r.set_start(2);
    assert_eq!(i32::MIN, r.read_sfixed32(&data).unwrap());
    assert_eq!(6, r.start());

    let mut r = BytesReader::from_bytes(&[0u8; 12]);
    let data = [0xff; 9];
    assert_eq!(u64::MAX, r.clone().read_fixed64(&data).unwrap());
    assert_eq!(-1, r.read_sfixed64(&data).unwrap());
    assert_eq!((8, 12), (r.start(), r.end()));

    // the slice goes on, the reader does not
    let mut r = BytesReader::from_bytes(&[0u8; 3]);
    assert!(matches!(r.read_fixed32(&data), Err(Error::UnexpectedEndOfBuffer)));
    assert_eq!(0, r.start());
}
