use ml_dsa::error::Error;
use ml_dsa::keygen::key_gen_internal;
use ml_dsa::params::{MlDsa44, MlDsa65, ParameterSet};
use ml_dsa::sign::format_m_prime;
use ml_dsa::signer::Signer;

const K: usize = MlDsa65::K;
const L: usize = MlDsa65::L;

#[test]
fn signer_is_byte_identical_to_baseline_sign() {
    for seed in 0u8..8 {
        let (_pk, sk) = key_gen_internal::<MlDsa65, K, L>(&[seed; 32]);
        let signer = Signer::<MlDsa65, K, L>::from_sk(&sk).unwrap();
        for (msg, ctx, rnd) in [
            (b"message one".as_slice(), b"".as_slice(), [0u8; 32]),
            (b"message two".as_slice(), b"ctx".as_slice(), [0x5au8; 32]),
            (b"".as_slice(), b"c".as_slice(), [0xffu8; 32]),
        ] {
            let m_prime = format_m_prime(ctx, msg);
            let baseline = ml_dsa::sign::sign_internal::<MlDsa65, K, L>(&sk, &m_prime, &rnd);
            let amortized = signer.sign_internal(&m_prime, &rnd);
            assert_eq!(baseline, amortized, "seed {seed}, msg {msg:?}");
        }
    }
}

#[test]
fn signer_public_key_matches_keygen() {
    let (pk, sk) = key_gen_internal::<MlDsa65, K, L>(&[0x21u8; 32]);
    let signer = Signer::<MlDsa65, K, L>::from_sk(&sk).unwrap();
    assert_eq!(signer.public_key(), &pk[..]);
}

#[test]
fn sign_verified_accepts_honest_signature() {
    let (pk, sk) = key_gen_internal::<MlDsa65, K, L>(&[0x33u8; 32]);
    let signer = Signer::<MlDsa65, K, L>::from_sk(&sk).unwrap();
    let sig = signer.sign_deterministic_verified(b"msg", b"").unwrap();
    assert!(ml_dsa::verify::verify::<MlDsa65, K, L>(&pk, b"msg", &sig, b""));
}

#[test]
fn from_sk_rejects_bad_length() {
    assert!(Signer::<MlDsa65, K, L>::from_sk(&[0u8; 7]).is_err());
}

#[test]
fn from_sk_reports_expected_length() {
    match Signer::<MlDsa65, K, L>::from_sk(&[0u8; 7]) {
        Err(e) => assert_eq!(e, Error::InvalidLength { expected: 4032, got: 7 }),
        Ok(_) => panic!("a 7-byte key must be refused"),
    }
}

#[test]
fn signer_modes_match_free_functions() {
    let (pk, sk) = key_gen_internal::<MlDsa44, 4, 4>(&[0x44u8; 32]);
    let signer = Signer::<MlDsa44, 4, 4>::from_sk(&sk).unwrap();
    let rnd = [7u8; 32];
    let hedged = signer.sign_with_rnd(b"m", b"ctx", &rnd).unwrap();
    assert_eq!(hedged, ml_dsa::sign::sign_with_rnd::<MlDsa44, 4, 4>(&sk, b"m", b"ctx", &rnd).unwrap());
    assert_eq!(signer.sign_verified_with_rnd(b"m", b"ctx", &rnd).unwrap(), hedged);
    let det = signer.sign_deterministic(b"m", b"ctx").unwrap();
    assert_eq!(det, ml_dsa::sign::sign_deterministic::<MlDsa44, 4, 4>(&sk, b"m", b"ctx").unwrap());
    assert!(ml_dsa::verify::verify::<MlDsa44, 4, 4>(&pk, b"m", &det, b"ctx"));
    assert_eq!(signer.sign_deterministic(b"m", &[0u8; 256]), Err(Error::ContextTooLong));
    assert_eq!(signer.sign_deterministic_verified(b"m", &[0u8; 300]), Err(Error::ContextTooLong));
}
