use ml_dsa::error::Error;
use ml_dsa::keygen::key_gen_internal;
use ml_dsa::params::{MlDsa65, ParameterSet};
use ml_dsa::prehash::PreHash;
use ml_dsa::sign::{
    format_m_prime, format_m_prime_prehash, hash_sign_with_rnd, sign_deterministic,
    sign_deterministic_traced, sign_internal, sign_internal_fast, sign_internal_traced,
    sign_with_rnd,
};
use ml_dsa::verify::{hash_verify, verify_internal};

const K: usize = MlDsa65::K;
const L: usize = MlDsa65::L;

#[test]
fn sign_shapes_and_deterministic() {
    let (_pk, sk) = key_gen_internal::<MlDsa65, K, L>(&[0x11u8; 32]);
    let sig = sign_deterministic::<MlDsa65, K, L>(&sk, b"hello", b"").unwrap();
    assert_eq!(sig.len(), MlDsa65::SIG_BYTES);
    // deterministic variant is reproducible
    assert_eq!(sig, sign_deterministic::<MlDsa65, K, L>(&sk, b"hello", b"").unwrap());
}

#[test]
fn ctx_too_long_is_rejected() {
    let (_pk, sk) = key_gen_internal::<MlDsa65, K, L>(&[0x22u8; 32]);
    let long = vec![0u8; 256];
    assert!(matches!(
        sign_deterministic::<MlDsa65, K, L>(&sk, b"m", &long),
        Err(Error::ContextTooLong)
    ));
}

#[test]
fn format_m_prime_layout() {
    assert_eq!(format_m_prime(b"ab", b"xyz"), vec![0, 2, b'a', b'b', b'x', b'y', b'z']);
    assert_eq!(format_m_prime(b"", b""), vec![0, 0]);
}

#[test]
fn format_m_prime_prehash_layout() {
    let mp = format_m_prime_prehash(b"c", b"abc", PreHash::Sha2_256);
    assert_eq!(&mp[..3], &[1, 1, b'c']);
    assert_eq!(&mp[3..14], &PreHash::Sha2_256.oid());
    assert_eq!(&mp[14..], &PreHash::Sha2_256.digest(b"abc")[..]);
    assert_eq!(mp.len(), 3 + 11 + 32);
}

#[test]
fn signing_variants_agree() {
    let (pk, sk) = key_gen_internal::<MlDsa65, K, L>(&[0x23u8; 32]);
    let rnd = [0x5au8; 32];
    let mp = format_m_prime(b"ctx", b"msg");
    let sig = sign_internal::<MlDsa65, K, L>(&sk, &mp, &rnd);
    let (traced, attempts) = sign_internal_traced::<MlDsa65, K, L>(&sk, &mp, &rnd);
    assert_eq!(traced, sig);
    assert!(attempts >= 1);
    assert_eq!(sign_internal_fast::<MlDsa65, K, L>(&sk, &mp, &rnd), sig);
    assert_eq!(sign_with_rnd::<MlDsa65, K, L>(&sk, b"msg", b"ctx", &rnd).unwrap(), sig);
    assert!(verify_internal::<MlDsa65, K, L>(&pk, &mp, &sig));
    let zero = sign_internal_traced::<MlDsa65, K, L>(&sk, &mp, &[0u8; 32]);
    assert_eq!(sign_deterministic_traced::<MlDsa65, K, L>(&sk, b"msg", b"ctx").unwrap(), zero);
}

#[test]
fn hash_sign_round_trip_and_domain_separation() {
    let (pk, sk) = key_gen_internal::<MlDsa65, K, L>(&[0x24u8; 32]);
    let rnd = [1u8; 32];
    let sig = hash_sign_with_rnd::<MlDsa65, K, L>(&sk, b"msg", b"", PreHash::Sha3_256, &rnd).unwrap();
    assert!(hash_verify::<MlDsa65, K, L>(&pk, b"msg", &sig, b"", PreHash::Sha3_256));
    assert!(!hash_verify::<MlDsa65, K, L>(&pk, b"msg", &sig, b"", PreHash::Sha2_256));
    assert!(!ml_dsa::verify::verify::<MlDsa65, K, L>(&pk, b"msg", &sig, b""));
    assert_eq!(
        hash_sign_with_rnd::<MlDsa65, K, L>(&sk, b"msg", &[0u8; 256], PreHash::Sha3_256, &rnd),
        Err(Error::ContextTooLong)
    );
}
