use ml_dsa::hash::H;
use ml_dsa::keygen::{key_gen_internal, key_gen_internal_fast};
use ml_dsa::params::{MlDsa44, MlDsa65, ParameterSet};
use ml_dsa::serdes::{pk_decode, sk_decode};

const K: usize = MlDsa65::K;
const L: usize = MlDsa65::L;

#[test]
fn key_gen_internal_shapes_and_self_consistency() {
    let xi = [0x42u8; 32];
    let (pk, sk) = key_gen_internal::<MlDsa65, K, L>(&xi);
    assert_eq!(pk.len(), MlDsa65::PK_BYTES);
    assert_eq!(sk.len(), MlDsa65::SK_BYTES);
    // deterministic in ξ
    assert_eq!(key_gen_internal::<MlDsa65, K, L>(&xi), (pk.clone(), sk.clone()));
    // pk/sk decode, and the ρ stored in both must match.
    let (rho_pk, _t1) = pk_decode::<MlDsa65, K>(&pk).unwrap();
    let (rho_sk, _k, tr, s1, s2, _t0) = sk_decode::<MlDsa65, K, L>(&sk).unwrap();
    assert_eq!(rho_pk, rho_sk);
    // tr in sk must equal H(pk, 64).
    let mut th = H::init();
    th.absorb(&pk);
    let mut tr_expected = [0u8; 64];
    th.finalize().squeeze(&mut tr_expected);
    assert_eq!(tr, tr_expected);
    // secrets are in [-η, η].
    for p in s1.v.iter().chain(s2.v.iter()) {
        assert!(p.coeffs.iter().all(|&x| (-MlDsa65::ETA..=MlDsa65::ETA).contains(&x)));
    }
}

#[test]
fn key_gen_fast_equals_baseline() {
    for seed in [0u8, 1, 0x42, 0xff] {
        assert_eq!(
            key_gen_internal_fast::<MlDsa65, K, L>(&[seed; 32]),
            key_gen_internal::<MlDsa65, K, L>(&[seed; 32])
        );
    }
    let xi = [7u8; 32];
    assert_eq!(
        key_gen_internal_fast::<MlDsa44, 4, 4>(&xi),
        key_gen_internal::<MlDsa44, 4, 4>(&xi)
    );
}

#[test]
fn key_gen_different_seeds_give_different_keys() {
    let (pk1, sk1) = key_gen_internal::<MlDsa65, K, L>(&[1u8; 32]);
    let (pk2, sk2) = key_gen_internal::<MlDsa65, K, L>(&[2u8; 32]);
    assert_ne!(pk1, pk2);
    assert_ne!(sk1, sk2);
}
