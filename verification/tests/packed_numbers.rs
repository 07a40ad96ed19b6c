use quick_protobuf::batch::batch_decode_varint32;
use quick_protobuf::fixed_width::FixedWidth;
use quick_protobuf::PackedFixed;

const BYTES: [u8; 9] = [1, 0, 0, 0, 0xfe, 0xff, 0xff, 0xff, 7];

#[test]
fn raw_bytes_are_numbers_of_any_width() {
    let p: PackedFixed<i32> = PackedFixed::from(&BYTES);
    assert_eq!(vec![1, -2], p.into_vec());
    let p: PackedFixed<u8> = PackedFixed::from(&BYTES[..]);
    assert_eq!(BYTES.to_vec(), p.into_vec());
    let v = BYTES.to_vec();
    let p: PackedFixed<i16> = PackedFixed::from(&v);
    assert_eq!(vec![1, 0, -2, -1], p.into_vec());
    let p: PackedFixed<u64> = PackedFixed::from(&v);
    assert_eq!(vec![0xffff_fffe_0000_0001], p.into_vec());
    let p: PackedFixed<i8> = PackedFixed::from(&v);
    assert_eq!(-2, p.at(4));
    let p: PackedFixed<u16> = PackedFixed::from(&v);
    assert_eq!(0xfffe, p.at(2));
    let p: PackedFixed<u32> = PackedFixed::from(&v);
    assert_eq!(0xffff_fffe, p.at(1));
    let p: PackedFixed<i64> = PackedFixed::from(&v);
    assert_eq!(-0x1_ffff_ffff, p.at(0));
}

#[test]
fn widths_are_sizes() {
    assert_eq!((1, 2, 4, 8), (u8::size(), u16::size(), u32::size(), u64::size()));
    assert_eq!((1, 2, 4, 8), (i8::size(), i16::size(), i32::size(), i64::size()));
}

#[test]
fn sixteen_bytes_are_a_number_too() {
    let mut bytes: Vec<u8> = (1..=16).collect();
    bytes.extend_from_slice(&[0xfe]);
    bytes.extend_from_slice(&[0xff; 15]);
    bytes.push(9);
    let p: PackedFixed<u128> = PackedFixed::from(&bytes);
    assert_eq!(2, p.len());
    assert_eq!(0x100f_0e0d_0c0b_0a09_0807_0605_0403_0201, p.at(0));
    assert_eq!(u128::MAX - 1, p.at(1));
    let p: PackedFixed<i128> = PackedFixed::from(&bytes);
    assert_eq!(vec![0x100f_0e0d_0c0b_0a09_0807_0605_0403_0201, -2], p.into_vec());
    assert_eq!((16, 16), (u128::size(), i128::size()));
}

#[test]
fn machine_words_are_as_wide_as_the_machine_has_them() {
    assert_eq!(std::mem::size_of::<usize>(), usize::size());
    assert_eq!(std::mem::size_of::<isize>(), isize::size());
    let mut bytes = vec![0xfe];
    bytes.resize(usize::size(), 0xff);
    let p: PackedFixed<usize> = PackedFixed::from(&bytes);
    assert_eq!(vec![usize::MAX - 1], p.into_vec());
    let p: PackedFixed<isize> = PackedFixed::from(&bytes);
    assert_eq!(vec![-2], p.into_vec());
}

#[test]
fn numbers_spell_out_the_bytes_they_were_copied_from() {
    let bytes: Vec<u8> = (0..48).map(|i| (i * 37 + 200) as u8).collect();
    let p: PackedFixed<i16> = PackedFixed::from(&bytes);
    let back: Vec<u8> = p.into_vec().iter().flat_map(|n| n.to_le_bytes()).collect();
    assert_eq!(bytes, back);
    let p: PackedFixed<u64> = PackedFixed::from(&bytes);
    let back: Vec<u8> = p.into_vec().iter().flat_map(|n| n.to_le_bytes()).collect();
    assert_eq!(bytes, back);
    let mut p: PackedFixed<i128> = PackedFixed::from(&bytes);
    p.own();
    let back: Vec<u8> = p.to_slice().iter().flat_map(|n| n.to_le_bytes()).collect();
    assert_eq!(bytes, back);
}

#[test]
fn owning_keeps_the_numbers() {
    let mut p: PackedFixed<i32> = PackedFixed::from(&BYTES);
    let before = p.clone();
    p.own();
    assert!(matches!(p, PackedFixed::Owned(_)));
    assert!(matches!(before, PackedFixed::Borrowed(_)));
    assert_eq!(before, p);
    assert_eq!(2, p.len());
    assert_eq!(-2, p.at(1));

    let mut p: PackedFixed<i32> = PackedFixed::NoDataYet;
    p.own();
    assert!(matches!(p, PackedFixed::Owned(ref v) if v.is_empty()));

    let mut p: PackedFixed<i32> = vec![5].into();
    p.own();
    assert_eq!(vec![5], p.into_vec());
}

#[test]
fn slices_are_owned() {
    let mut p: PackedFixed<i32> = PackedFixed::from(&BYTES);
    assert_eq!(&[1, -2], p.to_slice());
    assert!(matches!(p, PackedFixed::Owned(_)));
    let mut p: PackedFixed<i32> = PackedFixed::from(&BYTES);
    p.to_mut_slice()[0] = 9;
    assert_eq!(vec![9, -2], p.into_vec());
    let mut p: PackedFixed<i32> = PackedFixed::NoDataYet;
    assert!(p.to_slice().is_empty());
    assert!(p.to_mut_slice().is_empty());
}

#[test]
fn emptiness_is_about_data() {
    let none: PackedFixed<i32> = PackedFixed::default();
    assert!(none.is_empty());
    assert_eq!(0, none.len());
    let p: PackedFixed<i32> = PackedFixed::Borrowed(&[]);
    assert!(p.is_empty());
    let p: PackedFixed<i32> = vec![].into();
    assert!(p.is_empty());
    let p: PackedFixed<i32> = vec![0].into();
    assert!(!p.is_empty());
    // some bytes, but no number
    let p: PackedFixed<i32> = PackedFixed::Borrowed(&[1, 2, 3]);
    assert!(!p.is_empty());
    assert_eq!(0, p.len());
    assert!(p.into_vec().is_empty());
}

#[test]
fn clones_keep_the_form() {
    let p: PackedFixed<i32> = vec![1, 2].into();
    let q = p.clone();
    assert!(matches!(q, PackedFixed::Owned(_)));
    assert_eq!(p, q);
    let none: PackedFixed<i32> = PackedFixed::NoDataYet;
    assert!(matches!(none.clone(), PackedFixed::NoDataYet));
}

#[test]
fn fields_of_different_length_differ() {
    let p: PackedFixed<i32> = vec![1, 2].into();
    let q: PackedFixed<i32> = vec![1, 2, 3].into();
    assert_ne!(p, q);
    assert_ne!(q, p);
}

#[test]
fn iterators_end_and_stay_at_the_end() {
    let p: PackedFixed<i32> = PackedFixed::from(&BYTES);
    let mut iter = (&p).into_iter();
    assert_eq!(Some(1), iter.next());
    assert_eq!(Some(-2), iter.next());
    assert_eq!(None, iter.next());
    assert_eq!(None, iter.next());
    let mut iter = p.into_iter();
    assert_eq!(Some(1), iter.next());
    assert_eq!(Some(-2), iter.next());
    assert_eq!(None, iter.next());
    assert_eq!(None, iter.next());
    let none: PackedFixed<i32> = PackedFixed::NoDataYet;
    assert_eq!(None, none.into_iter().next());
}

#[test]
fn batches_stop_where_a_chunk_does() {
    // fifteen bytes are no chunk
    let mut out = vec![];
    assert_eq!(0, batch_decode_varint32(&[1; 15], 0, 15, &mut out));
    assert!(out.is_empty());

    // of a single chunk the first nine bytes are decoded
    assert_eq!(9, batch_decode_varint32(&[1; 16], 0, 16, &mut out));
    assert_eq!(vec![1; 9], out);

    // what is already there stays; the end counts, not the buffer
    let bytes: Vec<u8> = (0..40).collect();
    let mut out = vec![-7];
    let pos = batch_decode_varint32(&bytes, 2, 30, &mut out);
    assert_eq!(20, pos);
    let mut expected = vec![-7];
    expected.extend(2..20);
    assert_eq!(expected, out);
}

#[test]
fn batches_leave_long_varints_alone() {
    let mut bytes = vec![3, 4];
    bytes.extend_from_slice(&[0xff, 0xff, 0xff, 0xff, 0xff, 0xff, 0xff, 0xff, 0xff, 0x01]);
    bytes.extend_from_slice(&[5; 20]);
    let mut out = vec![];
    assert_eq!(2, batch_decode_varint32(&bytes, 0, bytes.len(), &mut out));
    assert_eq!(vec![3, 4], out);
    assert_eq!(2, batch_decode_varint32(&bytes, 2, bytes.len(), &mut out));
    assert_eq!(vec![3, 4], out);

    // sixteen continuation bytes
    let mut out = vec![];
    assert_eq!(0, batch_decode_varint32(&[0x80; 32], 0, 32, &mut out));
    assert!(out.is_empty());

    // five bytes are not too long
    let mut bytes = vec![0xff, 0xff, 0xff, 0xff, 0x0f];
    bytes.extend_from_slice(&[0; 11]);
    let mut out = vec![];
    assert_eq!(9, batch_decode_varint32(&bytes, 0, 16, &mut out));
    assert_eq!(vec![-1, 0, 0, 0, 0], out);
}
