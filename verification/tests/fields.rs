use quick_protobuf::{BytesReader, Error};

#[test]
fn read_size_overflowing_unknown() {
    let bytes = &[
        200, 250, 35, // varint tag with WIRE_TYPE_VARINT -- 589128
        //
        //
        47, // varint itself
        //
        //
        250, 36, // varint tag with WIRE_TYPE_LENGTH_DELIMITED -- 4730
        //
        //
        255, 255, 255, 255, 255, 255, 255, 255, 255, 3, // huge 10-byte length
        //
        //
        255, 255, 227, // unused extra bytes
    ];

    let mut r = BytesReader::from_bytes(bytes);

    assert!(!r.is_eof());
    assert_eq!(r.next_tag(bytes).unwrap(), 589128);
    r.read_unknown(bytes, 589128).unwrap();

    assert!(!r.is_eof());
    assert_eq!(r.next_tag(bytes).unwrap(), 4730);
    let e = r.read_unknown(bytes, 4730).unwrap_err();

    assert!(matches!(e, Error::Varint), "{:?}", e);
}

#[test]
fn test_read_len_exceeding_buffer() {
    // Length-delimited field with length 10, but only 3 bytes of data follow
    // Varint 10 = 0x0A, then only 3 bytes of actual data
    let data: &[u8] = &[0x0A, 0x01, 0x02, 0x03];
    let mut reader = BytesReader::from_bytes(data);
    // read_len_varint will read the varint (0x0A = 10), then call read_len with len=10
    // but only 3 bytes remain after the varint, so it should fail
    let result = reader.read_bytes(data);
    assert!(matches!(result.unwrap_err(), Error::UnexpectedEndOfBuffer));
}

#[test]
fn test_read_fixed32_respects_sub_message_end() {
    // Buffer has enough physical bytes, but self.end is set tighter via read_len.
    // Varint length prefix (2) + 2 bytes of payload, then 4 more physical bytes.
    // read_fixed32 inside the length-delimited scope should fail (needs 4, has 2).
    let data: &[u8] = &[
        0x02, // varint length = 2
        0x01, 0x02, // 2 bytes of sub-message
        0x03, 0x04, 0x05, 0x06, // extra bytes outside sub-message
    ];
    let mut r = BytesReader::from_bytes(data);
    let result = r.read_len_varint(data, |r, b| r.read_fixed32(b));
    assert!(matches!(
        result.unwrap_err(),
        Error::UnexpectedEndOfBuffer
    ));
}

#[test]
fn test_read_u8_respects_sub_message_end() {
    // Buffer has physical bytes, but a length-delimited field constrains the end.
    // Use read_len_varint with a zero-length prefix to set self.end = self.start,
    // then try to read_u8 inside -- it should fail even though bytes exist.
    let data: &[u8] = &[
        0x00, // varint length = 0
        0xFF, // byte that exists physically but is outside sub-message
    ];
    let mut r = BytesReader::from_bytes(data);
    let result = r.read_len_varint(data, |r, b| r.read_u8(b));
    assert!(matches!(
        result.unwrap_err(),
        Error::UnexpectedEndOfBuffer
    ));
}
