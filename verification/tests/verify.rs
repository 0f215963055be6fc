use ml_dsa::keygen::key_gen_internal;
use ml_dsa::params::{MlDsa65, ParameterSet};
use ml_dsa::sign::{format_m_prime, sign_deterministic};
use ml_dsa::verify::{verify, verify_fast, verify_internal, verify_internal_fast};

const K: usize = MlDsa65::K;
const L: usize = MlDsa65::L;

#[test]
fn sign_then_verify_round_trip() {
    let (pk, sk) = key_gen_internal::<MlDsa65, K, L>(&[0x55u8; 32]);
    let sig = sign_deterministic::<MlDsa65, K, L>(&sk, b"the quick brown fox", b"ctx").unwrap();
    assert!(verify::<MlDsa65, K, L>(&pk, b"the quick brown fox", &sig, b"ctx"));
}

#[test]
fn verify_rejects_tampered_signature() {
    let (pk, sk) = key_gen_internal::<MlDsa65, K, L>(&[0x56u8; 32]);
    let mut sig = sign_deterministic::<MlDsa65, K, L>(&sk, b"msg", b"").unwrap();
    sig[100] ^= 1; // flip a bit
    assert!(!verify::<MlDsa65, K, L>(&pk, b"msg", &sig, b""));
}

#[test]
fn verify_rejects_wrong_context_and_message() {
    let (pk, sk) = key_gen_internal::<MlDsa65, K, L>(&[0x57u8; 32]);
    let sig = sign_deterministic::<MlDsa65, K, L>(&sk, b"msg", b"ctxA").unwrap();
    assert!(!verify::<MlDsa65, K, L>(&pk, b"msg", &sig, b"ctxB"));
    assert!(!verify::<MlDsa65, K, L>(&pk, b"other", &sig, b"ctxA"));
}

#[test]
fn verify_rejects_bad_lengths() {
    let (pk, _sk) = key_gen_internal::<MlDsa65, K, L>(&[0x58u8; 32]);
    assert!(!verify::<MlDsa65, K, L>(&pk, b"m", &[0u8; 10], b"")); // short sig
    assert!(!verify::<MlDsa65, K, L>(&[0u8; 10], b"m", &[0u8; MlDsa65::SIG_BYTES], b"")); // short pk
}

#[test]
fn fast_verify_agrees_with_baseline() {
    let (pk, sk) = key_gen_internal::<MlDsa65, K, L>(&[0x59u8; 32]);
    let sig = sign_deterministic::<MlDsa65, K, L>(&sk, b"msg", b"c").unwrap();
    let mp = format_m_prime(b"c", b"msg");
    assert!(verify_internal::<MlDsa65, K, L>(&pk, &mp, &sig));
    assert!(verify_internal_fast::<MlDsa65, K, L>(&pk, &mp, &sig));
    assert!(verify_fast::<MlDsa65, K, L>(&pk, b"msg", &sig, b"c"));
    let mut bad = sig.clone();
    bad[0] ^= 0x80;
    assert!(!verify_fast::<MlDsa65, K, L>(&pk, b"msg", &bad, b"c"));
    assert!(!verify_internal_fast::<MlDsa65, K, L>(&pk, &mp, &bad));
}

#[test]
fn verify_rejects_long_context() {
    let (pk, sk) = key_gen_internal::<MlDsa65, K, L>(&[0x5au8; 32]);
    let sig = sign_deterministic::<MlDsa65, K, L>(&sk, b"msg", b"").unwrap();
    assert!(!verify::<MlDsa65, K, L>(&pk, b"msg", &sig, &[0u8; 256]));
    assert!(!verify_fast::<MlDsa65, K, L>(&pk, b"msg", &sig, &[0u8; 256]));
}

#[test]
fn verify_rejects_malformed_hint() {
    let (pk, sk) = key_gen_internal::<MlDsa65, K, L>(&[0x5bu8; 32]);
    let mut sig = sign_deterministic::<MlDsa65, K, L>(&sk, b"msg", b"").unwrap();
    let n = sig.len();
    sig[n - 1] = 0xff; // last running count above ω
    assert!(!verify::<MlDsa65, K, L>(&pk, b"msg", &sig, b""));
}
