use ml_dsa::hint::{hint_bit_pack, hint_bit_unpack};
use ml_dsa::params::{MlDsa65, ParameterSet};
use ml_dsa::poly::PolyVec;

const K: usize = MlDsa65::K;
const OMEGA: usize = MlDsa65::OMEGA;

fn hint_with_ones(positions: &[(usize, usize)]) -> PolyVec<K> {
    let mut h = PolyVec::<K>::zero();
    for &(poly, coeff) in positions {
        h.v[poly].coeffs[coeff] = 1;
    }
    h
}

#[test]
fn hint_round_trip() {
    let h = hint_with_ones(&[(0, 5), (0, 10), (0, 200), (2, 1), (5, 255)]);
    let packed = hint_bit_pack::<MlDsa65, K>(&h);
    assert_eq!(packed.len(), OMEGA + K);
    assert_eq!(hint_bit_unpack::<MlDsa65, K>(&packed).unwrap().v, h.v);
}

#[test]
fn empty_hint_round_trips() {
    let h = PolyVec::<K>::zero();
    let packed = hint_bit_pack::<MlDsa65, K>(&h);
    assert_eq!(hint_bit_unpack::<MlDsa65, K>(&packed).unwrap().v, h.v);
}

#[test]
fn rejects_non_increasing_positions() {
    let mut y = vec![0u8; OMEGA + K];
    // poly 0 claims two positions but they are not strictly increasing.
    y[0] = 10;
    y[1] = 5;
    y[OMEGA] = 2; // count for poly 0
    assert!(hint_bit_unpack::<MlDsa65, K>(&y).is_none());
}

#[test]
fn rejects_count_above_omega() {
    let mut y = vec![0u8; OMEGA + K];
    y[OMEGA] = (OMEGA + 1) as u8; // impossible count
    assert!(hint_bit_unpack::<MlDsa65, K>(&y).is_none());
}

#[test]
fn rejects_wrong_length() {
    assert!(hint_bit_unpack::<MlDsa65, K>(&[0u8; OMEGA + K - 1]).is_none());
}

#[test]
fn hint_encoding_layout() {
    let h = hint_with_ones(&[(0, 5), (0, 10), (2, 1)]);
    let packed = hint_bit_pack::<MlDsa65, K>(&h);
    // positions in order, then zero padding up to ω, then running counts.
    assert_eq!(&packed[..3], &[5, 10, 1]);
    assert!(packed[3..OMEGA].iter().all(|&x| x == 0));
    assert_eq!(&packed[OMEGA..], &[2, 2, 3, 3, 3, 3]);
}

#[test]
fn rejects_nonzero_padding_and_decreasing_counts() {
    let h = hint_with_ones(&[(1, 7)]);
    let mut y = hint_bit_pack::<MlDsa65, K>(&h);
    y[OMEGA - 1] = 9; // stray byte after the last position
    assert!(hint_bit_unpack::<MlDsa65, K>(&y).is_none());
    let mut z = vec![0u8; OMEGA + K];
    z[0] = 3;
    z[OMEGA] = 1;
    z[OMEGA + 1] = 0; // count goes backwards
    assert!(hint_bit_unpack::<MlDsa65, K>(&z).is_none());
}
