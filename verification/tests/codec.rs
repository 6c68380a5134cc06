use gus_hamming::bitvec::BitVec;
use gus_hamming::hamming::{Hamming, HammingCode, HammingCodeBase};

fn pattern(k: usize) -> Vec<bool> {
    (0..k).map(|i| i % 3 == 0 || i % 7 == 2).collect()
}

#[test]
fn test_round_trip_various_lengths() {
    for &k in &[0usize, 1, 7, 8, 9, 100, 8192] {
        let bits = pattern(k);
        let data = BitVec::from_vec(bits.clone());
        let codeword = Hamming.encode(&data).unwrap();
        let (decoded, syndrome) = Hamming.decode(&codeword).unwrap();
        assert_eq!(syndrome, 0, "length {}", k);
        assert_eq!(decoded.to_vec(), bits, "length {}", k);
    }
}

#[test]
fn test_single_flip_every_position() {
    for &k in &[1usize, 4, 11, 26] {
        let bits = pattern(k);
        let data = BitVec::from_vec(bits.clone());
        let codeword = Hamming.encode(&data).unwrap();
        let n = codeword.len();
        for p in 1..=n {
            let mut corrupted = codeword.clone();
            corrupted.toggle(p - 1).unwrap();
            let (decoded, syndrome) = Hamming.decode(&corrupted).unwrap();
            assert_eq!(syndrome, p, "k {} position {}", k, p);
            assert_eq!(decoded.to_vec(), bits, "k {} position {}", k, p);
        }
    }
}

#[test]
fn test_parity_count_is_minimal() {
    for k in 0usize..100_000 {
        let r = HammingCodeBase::calculate_parity_count(k);
        let k128 = k as u128;
        let r128 = r as u128;
        assert!(1u128 << r128 >= k128 + r128 + 1, "k {}", k);
        if r > 0 {
            assert!(1u128 << (r128 - 1) < k128 + (r128 - 1) + 1, "k {}", k);
        }
    }
}

#[test]
fn test_parity_count_values() {
    // 2^0 >= 0 + 0 + 1 and 2^3 = 8 >= 4 + 3 + 1.
    assert_eq!(HammingCodeBase::calculate_parity_count(0), 0);
    assert_eq!(HammingCodeBase::calculate_parity_count(1), 2);
    assert_eq!(HammingCodeBase::calculate_parity_count(4), 3);
    assert_eq!(HammingCodeBase::calculate_parity_count(11), 4);
    assert_eq!(HammingCodeBase::calculate_parity_count(26), 5);
}

#[test]
fn test_basic_compute_parity() {
    // Codeword 1 1 0 1: positions 1, 2 and 4 are set...
    let cw = BitVec::from_vec(vec![true, true, false, true]);
    // ...mask 1 selects positions 1 and 3: one set bit, odd parity.
    assert_eq!(HammingCodeBase::basic_compute_parity(&cw, 1).unwrap(), true);
    // mask 2 selects positions 2 and 3: one set bit.
    assert_eq!(HammingCodeBase::basic_compute_parity(&cw, 2).unwrap(), true);
    // mask 4 selects position 4: one set bit.
    assert_eq!(HammingCodeBase::basic_compute_parity(&cw, 4).unwrap(), true);
    // mask 3 selects positions 1, 2 and 3: two set bits, even parity.
    assert_eq!(HammingCodeBase::basic_compute_parity(&cw, 3).unwrap(), false);
}

#[test]
fn test_known_scenario_flip_position_three() {
    // Data 1 0 1 1: k = 4, so r = 3 (2^3 = 8 >= 4 + 3 + 1) and n = 7.
    let bits = vec![true, false, true, true];
    let data = BitVec::from_vec(bits.clone());
    let codeword = Hamming.encode(&data).unwrap();
    assert_eq!(codeword.len(), 7);

    let mut corrupted = codeword.clone();
    corrupted.toggle(2).unwrap(); // 1-indexed position 3
    let (decoded, syndrome) = Hamming.decode(&corrupted).unwrap();
    assert_eq!(syndrome, 3);
    assert_eq!(decoded.to_vec(), bits);
}

#[test]
fn test_empty_data_round_trip() {
    // k = 0 needs no parity bits at all: the codeword is empty too.
    let data = BitVec::new();
    assert_eq!(HammingCodeBase::calculate_parity_count(0), 0);
    let codeword = Hamming.encode(&data).unwrap();
    assert_eq!(codeword.len(), 0);
    let (decoded, syndrome) = Hamming.decode(&codeword).unwrap();
    assert_eq!(syndrome, 0);
    assert_eq!(decoded.len(), 0);
}

#[test]
fn test_calculate_parity_matches_base() {
    let cw = Hamming
        .encode(&BitVec::from_vec(pattern(12)))
        .unwrap();
    for mask in [1usize, 2, 4, 8] {
        assert_eq!(
            Hamming.calculate_parity(&cw, mask).unwrap(),
            HammingCodeBase::basic_compute_parity(&cw, mask).unwrap()
        );
    }
}
