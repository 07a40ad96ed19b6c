use quick_protobuf::encode::{build_packed_int32, encode_varint_i32, encode_varint_u32};
use quick_protobuf::{
    deserialize_from_slice, BytesReader, Error, MessageRead, PackedFixed, Reader, Result,
};

#[derive(Debug, PartialEq)]
enum Color {
    Red,
    Green,
    Other(i32),
}

impl From<i32> for Color {
    fn from(i: i32) -> Color {
        match i {
            0 => Color::Red,
            1 => Color::Green,
            other => Color::Other(other),
        }
    }
}

/// A message with an `int32` in field 1 and a string in field 2.
#[derive(Debug, PartialEq, Default)]
struct Person<'a> {
    id: i32,
    name: &'a str,
}

impl<'a> MessageRead<'a> for Person<'a> {
    fn from_reader(r: &mut BytesReader, bytes: &'a [u8]) -> Result<Self> {
        let mut person = Person::default();
        while !r.is_eof() {
            match r.next_tag(bytes) {
                Ok(8) => person.id = r.read_int32(bytes)?,
                Ok(18) => person.name = r.read_string(bytes)?,
                Ok(tag) => r.read_unknown(bytes, tag)?,
                Err(e) => return Err(e),
            }
        }
        Ok(person)
    }
}

/// A message that does not look at its bytes.
struct Lazy;

impl<'a> MessageRead<'a> for Lazy {
    fn from_reader(_: &mut BytesReader, _: &'a [u8]) -> Result<Self> {
        Ok(Lazy)
    }
}

#[test]
fn scalars_have_their_exact_values() {
    let data = [0xff, 0xff, 0xff, 0xff, 0xff, 0xff, 0xff, 0xff, 0xff, 0x01];
    assert_eq!(-1, BytesReader::from_bytes(&data).read_int32(&data).unwrap());
    assert_eq!(-1, BytesReader::from_bytes(&data).read_int64(&data).unwrap());
    assert_eq!(u32::MAX, BytesReader::from_bytes(&data).read_uint32(&data).unwrap());
    assert_eq!(u64::MAX, BytesReader::from_bytes(&data).read_uint64(&data).unwrap());
    assert_eq!(i32::MIN, BytesReader::from_bytes(&data).read_sint32(&data).unwrap());
    assert_eq!(i64::MIN, BytesReader::from_bytes(&data).read_sint64(&data).unwrap());
}

#[test]
fn zigzag_goes_back_and_forth() {
    for (byte, expected) in [(0u8, 0), (1, -1), (2, 1), (3, -2), (4, 2), (127, -64)] {
        let data = [byte];
        assert_eq!(expected, BytesReader::from_bytes(&data).read_sint32(&data).unwrap());
        let wide = i64::from(expected);
        assert_eq!(wide, BytesReader::from_bytes(&data).read_sint64(&data).unwrap());
    }
}

#[test]
fn bool_is_anything_but_zero() {
    let data = [0x00, 0x01, 0x80, 0x01, 0x80, 0x00];
    let mut r = BytesReader::from_bytes(&data);
    assert!(!r.read_bool(&data).unwrap());
    assert!(r.read_bool(&data).unwrap());
    assert!(r.read_bool(&data).unwrap());
    assert!(!r.read_bool(&data).unwrap());
    assert!(matches!(r.read_bool(&data), Err(Error::UnexpectedEndOfBuffer)));
}

#[test]
fn bool_looks_at_32_bits() {
    // 2^32, which has no bit among the low 32
    let data = [0x80, 0x80, 0x80, 0x80, 0x10];
    assert!(!BytesReader::from_bytes(&data).read_bool(&data).unwrap());
}

#[test]
fn enum_is_made_from_an_int32() {
    let data = [0x00, 0x01, 0x07];
    let mut r = BytesReader::from_bytes(&data);
    assert_eq!(Color::Red, r.read_enum(&data).unwrap());
    assert_eq!(Color::Green, r.read_enum(&data).unwrap());
    assert_eq!(Color::Other(7), r.read_enum(&data).unwrap());
    assert!(matches!(
        r.read_enum::<Color>(&data),
        Err(Error::UnexpectedEndOfBuffer)
    ));
}

#[test]
fn a_failed_varint_takes_what_it_looked_at() {
    let cut = [0x80, 0x80, 0x80];
    let mut r = BytesReader::from_bytes(&cut);
    assert!(matches!(r.read_varint32(&cut), Err(Error::UnexpectedEndOfBuffer)));
    assert_eq!(3, r.start());

    for len in [10, 11, 12] {
        let long = vec![0x80; len];
        let mut r = BytesReader::from_bytes(&long);
        assert!(matches!(r.read_varint32(&long), Err(Error::Varint)));
        assert_eq!(10, r.start());
        let mut r = BytesReader::from_bytes(&long);
        assert!(matches!(r.read_varint64(&long), Err(Error::Varint)));
        assert_eq!(10, r.start());
    }

    for len in [5, 6, 7, 8, 9] {
        let long = vec![0x80; len];
        let mut r = BytesReader::from_bytes(&long);
        assert!(matches!(r.read_varint32(&long), Err(Error::UnexpectedEndOfBuffer)));
        assert_eq!(len, r.start());
    }
}

#[test]
fn the_tenth_byte_is_cut_to_64_bits() {
    let data = [0xff, 0xff, 0xff, 0xff, 0xff, 0xff, 0xff, 0xff, 0xff, 0x7f];
    let mut r = BytesReader::from_bytes(&data);
    assert_eq!(u64::MAX, r.read_varint64(&data).unwrap());
    assert!(r.is_eof());
    let data = [0x80, 0x80, 0x80, 0x80, 0x80, 0x80, 0x80, 0x80, 0x80, 0x02];
    assert_eq!(0, BytesReader::from_bytes(&data).read_varint64(&data).unwrap());
}

#[test]
fn varint32_is_the_low_half_of_varint64_at_every_length() {
    for len in 1..=10 {
        for room in 0..4 {
            let mut data: Vec<u8> = (0..len).map(|i| 0x80 | (37 * i + 11) as u8).collect();
            data[len - 1] &= 0x7f;
            data.resize(len + room, 0xff);
            let mut narrow = BytesReader::from_bytes(&data);
            let mut wide = BytesReader::from_bytes(&data);
            let value = wide.read_varint64(&data).unwrap();
            assert_eq!(value as u32, narrow.read_varint32(&data).unwrap());
            assert_eq!(len, wide.start());
            assert_eq!(len, narrow.start());
        }
    }
}

#[test]
fn varints_are_read_back_as_written() {
    for value in [0, 1, 127, 128, 300, 16383, 16384, 1 << 21, 1 << 28, u32::MAX] {
        for room in [0, 1, 12] {
            let mut data = vec![];
            encode_varint_u32(value, &mut data);
            let written = data.len();
            data.resize(written + room, 0x55);
            let mut r = BytesReader::from_bytes(&data);
            assert_eq!(value, r.read_uint32(&data).unwrap());
            assert_eq!(written, r.start());
            let mut r = BytesReader::from_bytes(&data);
            assert_eq!(u64::from(value), r.read_uint64(&data).unwrap());
            assert_eq!(written, r.start());
        }
    }
    for value in [0, 1, -1, 63, -64, i32::MAX, i32::MIN] {
        let mut data = vec![];
        encode_varint_i32(value, &mut data);
        assert_eq!(value < 0, data.len() == 10);
        let mut r = BytesReader::from_bytes(&data);
        assert_eq!(value, r.read_int32(&data).unwrap());
        assert!(r.is_eof());
        let mut r = BytesReader::from_bytes(&data);
        assert_eq!(i64::from(value), r.read_int64(&data).unwrap());
    }
}

#[test]
fn encoders_append_exact_bytes() {
    let mut data = vec![9];
    encode_varint_u32(300, &mut data);
    assert_eq!(vec![9, 0xac, 0x02], data);
    encode_varint_i32(-2, &mut data);
    assert_eq!(
        vec![9, 0xac, 0x02, 0xfe, 0xff, 0xff, 0xff, 0xff, 0xff, 0xff, 0xff, 0xff, 0x01],
        data
    );
    assert_eq!(vec![3, 1, 0xac, 0x02], build_packed_int32(&[1, 300]));
}

#[test]
fn fixed_numbers_are_little_endian() {
    let data = [0x01, 0x02, 0x03, 0x84, 0x05, 0x06, 0x07, 0x88];
    let mut r = BytesReader::from_bytes(&data);
    assert_eq!(0x8403_0201, r.read_fixed32(&data).unwrap());
    assert_eq!(4, r.start());
    let signed = BytesReader::from_bytes(&data).read_sfixed32(&data).unwrap();
    assert_eq!(0x8403_0201_u32 as i32, signed);
    let mut r = BytesReader::from_bytes(&data);
    assert_eq!(0x8807_0605_8403_0201, r.read_fixed64(&data).unwrap());
    let signed = BytesReader::from_bytes(&data).read_sfixed64(&data).unwrap();
    assert_eq!(0x8807_0605_8403_0201_u64 as i64, signed);
    assert!(matches!(r.read_fixed32(&data), Err(Error::UnexpectedEndOfBuffer)));
    assert_eq!(8, r.start());
}

#[test]
fn bytes_are_the_body_of_the_field() {
    let data = [3, 7, 8, 9, 10];
    let mut r = BytesReader::from_bytes(&data);
    assert_eq!(&[7, 8, 9], r.read_bytes(&data).unwrap());
    assert_eq!(4, r.start());
    assert_eq!(5, r.end());
    let mut r = BytesReader::from_bytes(&data[..3]);
    assert!(matches!(r.read_bytes(&data), Err(Error::UnexpectedEndOfBuffer)));
    assert_eq!(1, r.start());
    let mut r = BytesReader::from_bytes(&[]);
    assert!(matches!(r.read_bytes(&[]), Err(Error::UnexpectedEndOfBuffer)));
}

#[test]
fn strings_are_utf8() {
    let mut data = vec![6];
    data.extend_from_slice("h\u{e9}\u{20ac}".as_bytes());
    data.push(0);
    let mut r = BytesReader::from_bytes(&data);
    assert_eq!("h\u{e9}\u{20ac}", r.read_string(&data).unwrap());
    assert_eq!(7, r.start());
    assert_eq!("", r.read_string(&data).unwrap());
    assert!(r.is_eof());
}

#[test]
fn strings_that_are_not_utf8_are_refused() {
    let data = [4, b'a', b'b', 0xff, b'c', 1, b'd'];
    let mut r = BytesReader::from_bytes(&data);
    match r.read_string(&data) {
        Err(Error::Utf8(e)) => {
            assert_eq!(2, e.valid_up_to());
            assert_eq!(Some(1), e.error_len());
        }
        other => panic!("{:?}", other),
    }
    // the field is behind the reader all the same
    assert_eq!(5, r.start());
    assert_eq!("d", r.read_string(&data).unwrap());

    // cut short in the middle of a character
    let data = [2, b'a', 0xc3];
    match BytesReader::from_bytes(&data).read_string(&data) {
        Err(Error::Utf8(e)) => {
            assert_eq!(1, e.valid_up_to());
            assert_eq!(None, e.error_len());
        }
        other => panic!("{:?}", other),
    }
}

#[test]
fn a_nested_read_ends_where_the_field_ends() {
    let data = [3, 1, 2, 3, 9];
    let mut r = BytesReader::from_bytes(&data);
    // only one of three bytes is looked at
    assert_eq!(1, r.read_len_varint(&data, BytesReader::read_u8).unwrap());
    assert_eq!(4, r.start());
    assert_eq!(5, r.end());
    assert_eq!(9, r.read_u8(&data).unwrap());

    // an error inside leaves the reader behind the field, too
    let mut r = BytesReader::from_bytes(&data);
    let out = r.read_len_varint(&data, BytesReader::read_fixed64);
    assert!(matches!(out, Err(Error::UnexpectedEndOfBuffer)));
    assert_eq!(4, r.start());
    assert_eq!(5, r.end());
}

#[test]
fn packed_elements_fill_the_field() {
    let data = [3, 1, 0xac, 0x02, 5];
    let mut r = BytesReader::from_bytes(&data);
    let values = r.read_packed(&data, BytesReader::read_uint32).unwrap();
    assert_eq!(vec![1, 300], values);
    assert_eq!(4, r.start());

    // the last element runs into the end of the field
    let data = [2, 1, 0xac, 0x02, 5];
    let mut r = BytesReader::from_bytes(&data);
    let out = r.read_packed(&data, BytesReader::read_uint32);
    assert!(matches!(out, Err(Error::UnexpectedEndOfBuffer)));
    assert_eq!(3, r.start());
    assert_eq!(5, r.end());

    let data = [0];
    let mut r = BytesReader::from_bytes(&data);
    assert!(r.read_packed(&data, BytesReader::read_bool).unwrap().is_empty());

    let data = [4, 2, b'a', b'b', 0];
    let mut r = BytesReader::from_bytes(&data);
    let texts = r.read_packed(&data, |r, b| r.read_string(b)).unwrap();
    assert_eq!(vec!["ab", ""], texts);
}

#[test]
fn packed_int32_agrees_with_packed_on_errors() {
    // a varint that never ends, in the middle of a field that is long enough for
    // chunks
    let mut payload = vec![1; 20];
    payload.extend_from_slice(&[0x80; 12]);
    payload.extend_from_slice(&[1; 20]);
    let mut data = vec![payload.len() as u8];
    data.extend_from_slice(&payload);
    data.push(77);
    let mut one = BytesReader::from_bytes(&data);
    let mut other = BytesReader::from_bytes(&data);
    assert!(matches!(one.read_packed_int32(&data), Err(Error::Varint)));
    let out = other.read_packed(&data, BytesReader::read_int32);
    assert!(matches!(out, Err(Error::Varint)));
    assert_eq!(one, other);
    assert_eq!(77, one.read_u8(&data).unwrap());

    // cut short by the end of the field
    let mut data = vec![18];
    data.extend_from_slice(&[1; 17]);
    data.extend_from_slice(&[0x80, 1]);
    let mut r = BytesReader::from_bytes(&data);
    assert!(matches!(
        r.read_packed_int32(&data),
        Err(Error::UnexpectedEndOfBuffer)
    ));
    assert_eq!(19, r.start());
}

#[test]
fn packed_fixed_stays_in_the_buffer() {
    let data = [9, 1, 0, 0, 0, 2, 0, 0, 0x80, 3, 44];
    let mut r = BytesReader::from_bytes(&data);
    let packed: PackedFixed<i32> = r.read_packed_fixed(&data).unwrap();
    assert!(matches!(packed, PackedFixed::Borrowed(b) if b == &data[1..9]));
    assert_eq!(2, packed.len());
    assert_eq!(1, packed.at(0));
    assert_eq!(i32::MIN + 2, packed.at(1));
    // the byte behind the last whole number is skipped
    assert_eq!(44, r.read_u8(&data).unwrap());

    let mut r = BytesReader::from_bytes(&data[..6]);
    assert!(matches!(
        r.read_packed_fixed::<u64>(&data),
        Err(Error::UnexpectedEndOfBuffer)
    ));
    assert_eq!(1, r.start());
}

#[test]
fn packed_fixed_agrees_with_packed_reads_of_whole_numbers() {
    let data = [16, 1, 2, 3, 4, 5, 6, 7, 8, 9, 10, 11, 12, 13, 14, 15, 16];
    let numbers = BytesReader::from_bytes(&data).read_packed_fixed::<u32>(&data).unwrap();
    let one_by_one = BytesReader::from_bytes(&data)
        .read_packed(&data, BytesReader::read_fixed32)
        .unwrap();
    assert_eq!(one_by_one, numbers.into_vec());
    let numbers = BytesReader::from_bytes(&data).read_packed_fixed::<u64>(&data).unwrap();
    let one_by_one = BytesReader::from_bytes(&data)
        .read_packed(&data, BytesReader::read_fixed64)
        .unwrap();
    assert_eq!(one_by_one, numbers.into_vec());

    // a number that is not whole is dropped by the one and refused by the other
    let data = [5, 1, 0, 0, 0, 2];
    let numbers = BytesReader::from_bytes(&data).read_packed_fixed::<u32>(&data).unwrap();
    assert_eq!(vec![1], numbers.into_vec());
    let out = BytesReader::from_bytes(&data).read_packed(&data, BytesReader::read_fixed32);
    assert!(matches!(out, Err(Error::UnexpectedEndOfBuffer)));
}

#[test]
fn messages_are_read_with_and_without_their_length() {
    let data = [6, 8, 42, 18, 2, b'm', b'e', 0];
    let mut r = BytesReader::from_bytes(&data);
    let person: Person = r.read_message(&data).unwrap();
    assert_eq!(Person { id: 42, name: "me" }, person);
    let nobody: Person = r.read_message(&data).unwrap();
    assert_eq!(Person::default(), nobody);
    assert!(r.is_eof());

    let mut r = BytesReader::from_bytes(&data);
    r.set_start(1);
    let person: Person = r.read_message_by_len(&data, 6).unwrap();
    assert_eq!(Person { id: 42, name: "me" }, person);
    assert_eq!(7, r.start());
    assert!(matches!(
        r.read_message_by_len::<Person>(&data, 2),
        Err(Error::UnexpectedEndOfBuffer)
    ));
    assert_eq!(7, r.start());

    assert_eq!(Person { id: 42, name: "me" }, deserialize_from_slice(&data).unwrap());
    assert!(matches!(
        deserialize_from_slice::<Person>(&data[..4]),
        Err(Error::UnexpectedEndOfBuffer)
    ));
}

#[test]
fn a_message_may_leave_its_bytes_alone() {
    let data = [2, 1, 2, 3];
    let mut r = BytesReader::from_bytes(&data);
    assert!(r.read_message::<Lazy>(&data).is_ok());
    assert_eq!(3, r.read_u8(&data).unwrap());
}

#[test]
fn unknown_fields_of_a_message_are_skipped() {
    let data = [
        8, 1, // the id
        0x18, 0x96, 0x01, // field 3, a varint
        0x21, 1, 2, 3, 4, 5, 6, 7, 8, // field 4, eight bytes
        0x2a, 2, 9, 9, // field 5, length-delimited
        0x35, 1, 2, 3, 4, // field 6, four bytes
        18, 1, b'x', // the name
    ];
    let mut r = BytesReader::from_bytes(&data);
    assert_eq!(Person { id: 1, name: "x" }, Person::from_reader(&mut r, &data).unwrap());
}

#[test]
fn skipping_moves_as_reading_does() {
    let data = [0x96, 0x01, 3, 1, 2, 3, 9, 9, 9, 9, 9];
    let mut skip = BytesReader::from_bytes(&data);
    let mut read = BytesReader::from_bytes(&data);
    skip.read_unknown(&data, 0x08).unwrap();
    read.read_varint64(&data).unwrap();
    assert_eq!(skip, read);
    skip.read_unknown(&data, 0x0a).unwrap();
    read.read_bytes(&data).unwrap();
    assert_eq!(skip, read);
    skip.read_unknown(&data, 0x0d).unwrap();
    read.read_fixed32(&data).unwrap();
    assert_eq!(skip, read);
    let mut skip = BytesReader::from_bytes(&data);
    skip.read_unknown(&data, 0x09).unwrap();
    assert_eq!(8, skip.start());
}

#[test]
fn unknown_fields_that_cannot_be_skipped() {
    let data = [1, 2, 3];
    let mut r = BytesReader::from_bytes(&data);
    assert!(matches!(r.read_unknown(&data, 0x0b), Err(Error::Deprecated("group"))));
    assert!(matches!(r.read_unknown(&data, 0x0c), Err(Error::Deprecated("group"))));
    assert!(matches!(r.read_unknown(&data, 0x0e), Err(Error::UnknownWireType(6))));
    assert!(matches!(r.read_unknown(&data, 0x0f), Err(Error::UnknownWireType(7))));
    assert!(matches!(r.read_unknown(&data, 0x09), Err(Error::Varint)));
    assert!(matches!(r.read_unknown(&data, 0x0d), Err(Error::Varint)));
    assert_eq!(0, r.start());
    let data = [3, 1, 2];
    let mut r = BytesReader::from_bytes(&data);
    assert!(matches!(r.read_unknown(&data, 0x0a), Err(Error::Varint)));
    assert_eq!(1, r.start());
    let data = [0x80];
    let mut r = BytesReader::from_bytes(&data);
    assert!(matches!(r.read_unknown(&data, 0x08), Err(Error::UnexpectedEndOfBuffer)));
}

#[test]
fn map_entries_have_a_key_and_a_value() {
    let data = [5, 0x08, 7, 0x12, 1, b'v', 99];
    let mut r = BytesReader::from_bytes(&data);
    let entry: (i32, &str) = r
        .read_map(&data, BytesReader::read_int32, |r, b| r.read_string(b))
        .unwrap();
    assert_eq!((7, "v"), entry);
    assert_eq!(6, r.start());

    // the value first
    let data = [5, 0x12, 1, b'v', 0x08, 7];
    let mut r = BytesReader::from_bytes(&data);
    let entry: (i32, &str) = r
        .read_map(&data, BytesReader::read_int32, |r, b| r.read_string(b))
        .unwrap();
    assert_eq!((7, "v"), entry);
}

#[test]
fn map_entries_default_and_the_last_part_counts() {
    let data = [0];
    let mut r = BytesReader::from_bytes(&data);
    let entry = r.read_map(&data, BytesReader::read_int32, BytesReader::read_bool).unwrap();
    assert_eq!((0, false), entry);

    let data = [6, 0x08, 1, 0x10, 1, 0x08, 2];
    let mut r = BytesReader::from_bytes(&data);
    let entry = r.read_map(&data, BytesReader::read_int32, BytesReader::read_bool).unwrap();
    assert_eq!((2, true), entry);

    let data = [2, 0x10, 5];
    let mut r = BytesReader::from_bytes(&data);
    let entry = r.read_map(&data, BytesReader::read_int32, BytesReader::read_int32).unwrap();
    assert_eq!((0, 5), entry);
}

#[test]
fn map_entries_that_cannot_be_read() {
    // field 3
    let data = [2, 0x18, 1, 50];
    let mut r = BytesReader::from_bytes(&data);
    let out = r.read_map(&data, BytesReader::read_int32, BytesReader::read_int32);
    assert!(matches!(out, Err(Error::MapField(3))));
    assert_eq!(50, r.read_u8(&data).unwrap());

    // a key that is cut short by the end of the entry
    let data = [2, 0x08, 0x80, 1];
    let mut r = BytesReader::from_bytes(&data);
    let out = r.read_map(&data, BytesReader::read_int32, BytesReader::read_int32);
    assert!(matches!(out, Err(Error::UnexpectedEndOfBuffer)));
    assert_eq!(3, r.start());

    // a value that is missing behind its tag
    let data = [1, 0x10, 1];
    let mut r = BytesReader::from_bytes(&data);
    let out = r.read_map(&data, BytesReader::read_int32, BytesReader::read_int32);
    assert!(matches!(out, Err(Error::UnexpectedEndOfBuffer)));

    // an entry that does not fit
    let data = [9, 0x08];
    let mut r = BytesReader::from_bytes(&data);
    let out = r.read_map(&data, BytesReader::read_int32, BytesReader::read_int32);
    assert!(matches!(out, Err(Error::UnexpectedEndOfBuffer)));
    assert_eq!(1, r.start());
}

#[test]
fn positions_can_be_looked_at_and_moved() {
    let data = [1, 2, 3, 4];
    let mut r = BytesReader::from_bytes(&data);
    assert_eq!((0, 4, 4), (r.start(), r.end(), r.len()));
    r.set_end(3);
    r.set_start(1);
    assert_eq!((1, 3, 2), (r.start(), r.end(), r.len()));
    let before = r.clone();
    assert_eq!(2, r.read_u8(&data).unwrap());
    assert_ne!(before, r);
    assert!(!r.is_eof());
    r.read_to_end();
    assert!(r.is_eof());
    assert_eq!((3, 3, 0), (r.start(), r.end(), r.len()));
    assert!(matches!(r.next_tag(&data), Err(Error::UnexpectedEndOfBuffer)));
    assert_eq!(3, r.start());
}

#[test]
fn a_position_behind_the_end_reads_nothing() {
    let data = [1, 2, 3, 4, 5, 6, 7, 8, 9, 10];
    let mut r = BytesReader::from_bytes(&data);
    r.set_start(9);
    r.set_end(2);
    assert!(matches!(r.read_u8(&data), Err(Error::UnexpectedEndOfBuffer)));
    assert!(matches!(r.read_varint32(&data), Err(Error::UnexpectedEndOfBuffer)));
    assert!(matches!(r.read_varint64(&data), Err(Error::UnexpectedEndOfBuffer)));
    assert!(matches!(r.read_fixed32(&data), Err(Error::UnexpectedEndOfBuffer)));
    assert!(matches!(r.read_bytes(&data), Err(Error::UnexpectedEndOfBuffer)));
    assert_eq!(9, r.start());
}

#[test]
fn reads_do_not_depend_on_what_lies_outside() {
    let mut a = vec![0x11; 30];
    let mut b = vec![0xee; 30];
    for (i, byte) in [2, 0xac, 0x02, 0x80].iter().enumerate() {
        a[10 + i] = *byte;
        b[10 + i] = *byte;
    }
    for bytes in [&a, &b] {
        let mut r = BytesReader::from_bytes(bytes);
        r.set_start(10);
        r.set_end(14);
        assert_eq!(300, r.read_len_varint(bytes, BytesReader::read_int32).unwrap());
        assert!(matches!(r.read_int32(bytes), Err(Error::UnexpectedEndOfBuffer)));
        assert_eq!(14, r.start());
    }
}

#[test]
fn a_reader_owns_its_buffer() {
    let mut reader = Reader::from_bytes(vec![6, 8, 42, 18, 2, b'm', b'e', 1]);
    assert_eq!(&[6, 8, 42, 18, 2, b'm', b'e', 1], reader.buffer());
    let person = reader
        .read(|r, b| r.read_message::<Person>(b).map(|p| (p.id, p.name.to_string())))
        .unwrap();
    assert_eq!((42, "me".to_string()), person);
    assert_eq!(7, reader.inner().start());
    assert_eq!(1, reader.inner().len());
    reader.inner().read_to_end();
    assert!(reader.inner().is_eof());
    assert!(matches!(
        reader.read(|r, b| r.read_u8(b)),
        Err(Error::UnexpectedEndOfBuffer)
    ));
}

#[test]
fn an_empty_or_unreadable_field_calls_nothing() {
    let data = [0, 9, 1];
    let mut r = BytesReader::from_bytes(&data);
    let none: Vec<u8> = r.read_packed(&data, |_, _| panic!("called")).unwrap();
    assert!(none.is_empty());
    let out: Result<Vec<u8>> = r.read_packed(&data, |_, _| panic!("called"));
    assert!(matches!(out, Err(Error::UnexpectedEndOfBuffer)));
    let mut r = BytesReader::from_bytes(&data);
    let entry: (u8, u8) = r
        .read_map(&data, |_, _| panic!("called"), |_, _| panic!("called"))
        .unwrap();
    assert_eq!((0, 0), entry);
}

#[test]
fn calls_in_sequence_keep_the_end() {
    let data: Vec<u8> = (0..120).map(|i: u32| (i * i * 7 + i * 3) as u8).collect();
    for first in 0..24 {
        let mut r = BytesReader::from_bytes(&data);
        let mut before = 0;
        for step in 0..40 {
            match (first + 5 * step) % 24 {
                0 => drop(r.read_u8(&data)),
                1 => drop(r.next_tag(&data)),
                2 => drop(r.read_varint64(&data)),
                3 => drop(r.read_sint32(&data)),
                4 => drop(r.read_fixed32(&data)),
                5 => drop(r.read_sfixed64(&data)),
                6 => drop(r.read_bool(&data)),
                7 => drop(r.read_enum::<Color>(&data)),
                8 => drop(r.read_bytes(&data)),
                9 => drop(r.read_string(&data)),
                10 => drop(r.read_packed_int32(&data)),
                11 => drop(r.read_packed_fixed::<u16>(&data)),
                12 => drop(r.read_packed(&data, BytesReader::read_bool)),
                13 => drop(r.read_packed(&data, |r, b| r.read_bytes(b))),
                14 => drop(r.read_map(&data, BytesReader::read_int32, BytesReader::read_bool)),
                15 => drop(r.read_message::<Person>(&data)),
                16 => drop(r.read_message_by_len::<Lazy>(&data, 3)),
                17 => drop(r.read_len_varint(&data, |r, b| r.read_len_varint(b, BytesReader::read_u8))),
                n => drop(r.read_unknown(&data, n)),
            }
            assert_eq!(data.len(), r.end());
            assert!(before <= r.start() && r.start() <= r.end());
            assert_eq!(data.len() - r.start(), r.len());
            assert_eq!(r.len() == 0, r.is_eof());
            before = r.start();
        }
        r.read_to_end();
        assert_eq!((data.len(), data.len()), (r.start(), r.end()));
    }
}
