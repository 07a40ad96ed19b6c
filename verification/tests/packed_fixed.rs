use quick_protobuf::PackedFixed;

#[test]
fn test_packed_fixed_iter() {
    let pf: PackedFixed<i32> = vec![1, 2, 3, 4, 5].into();

    let mut total = 0;

    for _ in 0..10 {
        for i in &pf {
            total += i;
        }
    }

    for i in pf {
        total += i;
    }

    assert_eq!(total, (1 + 2 + 3 + 4 + 5) * (10 + 1));
}

#[test]
fn test_packed_fixed_size_hint() {
    let pf: PackedFixed<i32> = vec![1, 2, 3, 4, 5].into();

    // Test ref iterator size_hint
    let mut iter = (&pf).into_iter();
    assert_eq!(iter.size_hint(), (5, Some(5)));
    assert_eq!(iter.len(), 5);
    iter.next();
    assert_eq!(iter.size_hint(), (4, Some(4)));
    assert_eq!(iter.len(), 4);
    iter.next();
    iter.next();
    assert_eq!(iter.size_hint(), (2, Some(2)));
    assert_eq!(iter.len(), 2);
    iter.next();
    iter.next();
    assert_eq!(iter.size_hint(), (0, Some(0)));
    assert_eq!(iter.len(), 0);

    // Test owned iterator size_hint
    let pf2: PackedFixed<i32> = vec![10, 20, 30].into();
    let mut iter = pf2.into_iter();
    assert_eq!(iter.size_hint(), (3, Some(3)));
    assert_eq!(iter.len(), 3);
    iter.next();
    assert_eq!(iter.size_hint(), (2, Some(2)));
    iter.next();
    iter.next();
    assert_eq!(iter.size_hint(), (0, Some(0)));
    assert_eq!(iter.len(), 0);

    // Test Borrowed variant size_hint (len = bytes / size_of::<T>())
    let bytes: [u8; 12] = [
        0x01, 0x00, 0x00, 0x00, 0x02, 0x00, 0x00, 0x00, 0x03, 0x00, 0x00, 0x00,
    ];
    let pf3: PackedFixed<i32> = PackedFixed::Borrowed(&bytes);
    let mut iter = (&pf3).into_iter();
    assert_eq!(iter.size_hint(), (3, Some(3)));
    assert_eq!(iter.len(), 3);
    iter.next();
    assert_eq!(iter.size_hint(), (2, Some(2)));
    assert_eq!(iter.len(), 2);
    iter.next();
    iter.next();
    assert_eq!(iter.size_hint(), (0, Some(0)));
    assert_eq!(iter.len(), 0);
}

#[test]
fn test_packed_fixed_collect() {
    // Test collect on owned iterator
    let pf: PackedFixed<i32> = vec![1, 2, 3, 4, 5].into();
    let collected: Vec<i32> = pf.into_iter().collect();
    assert_eq!(collected, vec![1, 2, 3, 4, 5]);

    // Test collect on ref iterator
    let pf: PackedFixed<i32> = vec![10, 20, 30].into();
    let collected: Vec<i32> = (&pf).into_iter().collect();
    assert_eq!(collected, vec![10, 20, 30]);

    // Test collect on borrowed variant
    let bytes: [u8; 12] = [
        0x01, 0x00, 0x00, 0x00, 0x02, 0x00, 0x00, 0x00, 0x03, 0x00, 0x00, 0x00,
    ];
    let pf: PackedFixed<i32> = PackedFixed::Borrowed(&bytes);
    let collected: Vec<i32> = pf.into_iter().collect();
    assert_eq!(collected, vec![1, 2, 3]);
}

#[test]
fn test_packed_fixed_eq() {
    let v = vec![
        0x01u8, 0x00u8, 0x00u8, 0x00u8, 0x02u8, 0x00u8, 0x00u8, 0x00u8, 0x03u8, 0x00u8, 0x00u8,
        0x00u8,
    ];
    let borrowed: PackedFixed<i32> = PackedFixed::Borrowed(&v);
    let mut owned: PackedFixed<i32> = borrowed.clone();
    owned.own();

    let owned_reversed: PackedFixed<i32> = vec![3, 2, 1].into();

    let v_reversed = vec![
        0x03u8, 0x00u8, 0x00u8, 0x00u8, 0x02u8, 0x00u8, 0x00u8, 0x00u8, 0x01u8, 0x00u8, 0x00u8,
        0x00u8,
    ];
    let borrowed_reversed: PackedFixed<i32> = PackedFixed::Borrowed(&v_reversed);

    let ndy: PackedFixed<i32> = PackedFixed::NoDataYet;
    let ndy2: PackedFixed<i32> = PackedFixed::NoDataYet;
    let def: PackedFixed<i32> = PackedFixed::default();

    assert_eq!(borrowed, owned);
    assert_eq!(borrowed_reversed, owned_reversed);
    assert_eq!(ndy, ndy2);
    assert_eq!(ndy, def);

    assert_ne!(borrowed, owned_reversed);
    assert_ne!(owned, owned_reversed);
    assert_ne!(owned, borrowed_reversed);
    assert_ne!(borrowed, borrowed_reversed);
}
