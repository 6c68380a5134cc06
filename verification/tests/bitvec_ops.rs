use gus_hamming::bitvec::BitVec;

#[test]
fn test_push() {
    let mut bv = BitVec::new();
    // make sure we start with an empty bitvec
    assert_eq!(bv.len(), 0);
    assert_eq!(bv.true_len(), 0);

    bv.push(true);
    assert_eq!(bv.len(), 1);
    bv.push(false);
    assert_eq!(bv.len(), 2);
    bv.push(true);
    assert_eq!(bv.len(), 3);

    // make sure we only allocated one byte
    assert_eq!(bv.true_len(), 1);
}

#[test]
fn test_get() {
    let mut bv = BitVec::new();
    bv.push(true);
    assert_eq!(bv.get(0), Some(true));
    assert_eq!(bv.get(1), None);
    assert_eq!(bv.get(2), None);
    assert_eq!(bv.get(3), None);
}

#[test]
fn test_set() {
    let mut bv = BitVec::new();
    bv.push(true);
    bv.push(false);
    bv.push(true);
    bv.push(false);

    assert_eq!(bv.get(0), Some(true));
    assert!(bv.set(0, false).is_ok());
    assert_eq!(bv.get(0), Some(false));
    assert!(bv.set(0, true).is_ok());
    assert_eq!(bv.get(0), Some(true));

    // make sure other bytes are untouched
    assert_eq!(bv.get(1), Some(false));
    assert_eq!(bv.get(2), Some(true));
    assert_eq!(bv.get(3), Some(false));

    // purposefully out of bounds
    assert!(bv.set(10, false).is_err());
}

#[test]
fn test_toggle() {
    let mut bv = BitVec::new();
    bv.push(true);
    bv.push(false);
    bv.push(true);
    bv.push(false);

    assert_eq!(bv.get(0), Some(true));
    assert!(bv.toggle(0).is_ok());
    assert_eq!(bv.get(0), Some(false));
    assert!(bv.toggle(0).is_ok());
    assert_eq!(bv.get(0), Some(true));

    // make sure other bytes are untouched
    assert_eq!(bv.get(1), Some(false));
    assert_eq!(bv.get(2), Some(true));
    assert_eq!(bv.get(3), Some(false));

    // purposefully out of bounds
    assert!(bv.toggle(10).is_err());
}

#[test]
fn test_to_vec() {
    let mut bv = BitVec::new();
    bv.push(true);
    bv.push(false);
    bv.push(true);
    bv.push(false);
    bv.push(true);
    bv.push(false);
    bv.push(true);
    bv.push(false);

    // exactly one byte bitvec (1 byte usage, 8 bits)
    assert_eq!(bv.true_len(), 1);
    assert_eq!(
        bv.to_vec(),
        vec![true, false, true, false, true, false, true, false]
    );

    let bv_2_vec = vec![true, false, true, false, true, false, true, false, false];
    let bv_2 = BitVec::from_vec(bv_2_vec.clone());

    // two byte bitvec (1.125 byte usage, 9 bits)
    assert_eq!(bv_2.true_len(), 2);
    assert_eq!(bv_2.to_vec(), bv_2_vec)
}

#[test]
fn test_zeros() {
    let bv = BitVec::zeros(10);
    assert_eq!(bv.len(), 10);

    (0..10).for_each(|i| {
        assert_eq!(bv.get(i), Some(false));
    });
}

#[test]
fn test_ones() {
    let bv = BitVec::ones(10);
    assert_eq!(bv.len(), 10);

    (0..10).for_each(|i| {
        assert_eq!(bv.get(i), Some(true));
    });
}

#[test]
fn test_from_vec() {
    let bv = BitVec::from_vec(vec![
        true, false, true, false, true, false, true, false, true, false,
    ]);
    assert_eq!(bv.len(), 10);
    assert_eq!(bv.true_len(), 2);

    (0..10).for_each(|i| {
        assert_eq!(bv.get(i), Some(i % 2 == 0));
    });
}

#[test]
fn test_from_bytes_bit_order() {
    // 0xA5 = 1010 0101, read most significant bit first.
    let bv = BitVec::from_bytes(vec![0xA5], 8);
    assert_eq!(
        bv.to_vec(),
        vec![true, false, true, false, false, true, false, true]
    );
    // A shorter declared bit length exposes only a prefix.
    let short = BitVec::from_bytes(vec![0xA5], 3);
    assert_eq!(short.to_vec(), vec![true, false, true]);
}

#[test]
fn test_into_inner_packs_msb_first() {
    let bv = BitVec::from_vec(vec![true, false, true, false, false, true, false, true, true]);
    assert_eq!(bv.into_inner(), vec![0xA5, 0x80]);
}
