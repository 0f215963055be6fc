use ml_dsa::{ml_dsa_44, ml_dsa_65, ml_dsa_87};

/// Full sign→verify round trip through the per-set wrappers, all three sets.
#[test]
fn round_trip_all_parameter_sets() {
    let (pk, sk) = ml_dsa_44::key_gen_internal(&[0x77u8; 32]);
    assert_eq!(pk.len(), ml_dsa_44::PK_BYTES);
    assert_eq!(sk.len(), ml_dsa_44::SK_BYTES);
    let sig = ml_dsa_44::sign_deterministic(&sk, b"msg", b"ctx").unwrap();
    assert_eq!(sig.len(), ml_dsa_44::SIG_BYTES);
    assert!(ml_dsa_44::verify(&pk, b"msg", &sig, b"ctx"));
    assert!(!ml_dsa_44::verify(&pk, b"other", &sig, b"ctx"));

    let (pk, sk) = ml_dsa_65::key_gen_internal(&[0x77u8; 32]);
    assert_eq!(pk.len(), ml_dsa_65::PK_BYTES);
    assert_eq!(sk.len(), ml_dsa_65::SK_BYTES);
    let sig = ml_dsa_65::sign_deterministic(&sk, b"msg", b"ctx").unwrap();
    assert_eq!(sig.len(), ml_dsa_65::SIG_BYTES);
    assert!(ml_dsa_65::verify(&pk, b"msg", &sig, b"ctx"));
    assert!(!ml_dsa_65::verify(&pk, b"other", &sig, b"ctx"));

    let (pk, sk) = ml_dsa_87::key_gen_internal(&[0x77u8; 32]);
    assert_eq!(pk.len(), ml_dsa_87::PK_BYTES);
    assert_eq!(sk.len(), ml_dsa_87::SK_BYTES);
    let sig = ml_dsa_87::sign_deterministic(&sk, b"msg", b"ctx").unwrap();
    assert_eq!(sig.len(), ml_dsa_87::SIG_BYTES);
    assert!(ml_dsa_87::verify(&pk, b"msg", &sig, b"ctx"));
    assert!(!ml_dsa_87::verify(&pk, b"other", &sig, b"ctx"));
}

#[test]
fn per_set_fast_paths_equal_baseline() {
    let (pk, sk) = ml_dsa_44::key_gen_internal(&[0x31u8; 32]);
    assert_eq!(ml_dsa_44::key_gen_internal_fast(&[0x31u8; 32]), (pk.clone(), sk.clone()));
    let mp = [0u8, 0, b'x'];
    let rnd = [9u8; 32];
    let sig = ml_dsa_44::sign_internal(&sk, &mp, &rnd);
    assert_eq!(ml_dsa_44::sign_internal_fast(&sk, &mp, &rnd), sig);
    assert!(ml_dsa_44::verify_internal(&pk, &mp, &sig));
    assert!(ml_dsa_44::verify_internal_fast(&pk, &mp, &sig));

    let (pk, sk) = ml_dsa_87::key_gen_internal(&[0x32u8; 32]);
    let sig = ml_dsa_87::sign_internal(&sk, &mp, &rnd);
    assert_eq!(ml_dsa_87::sign_internal_fast(&sk, &mp, &rnd), sig);
    assert!(ml_dsa_87::verify_internal_fast(&pk, &mp, &sig));
}

#[test]
fn traced_signing_reports_attempts() {
    let (_pk, sk) = ml_dsa_65::key_gen_internal(&[0x10u8; 32]);
    let (sig, attempts) = ml_dsa_65::sign_deterministic_traced(&sk, b"m", b"").unwrap();
    assert!(attempts >= 1);
    assert_eq!(sig, ml_dsa_65::sign_deterministic(&sk, b"m", b"").unwrap());
    assert_eq!(
        ml_dsa_65::sign_deterministic_traced(&sk, b"m", &[0u8; 256]),
        Err(ml_dsa::error::Error::ContextTooLong)
    );
}

#[test]
fn hedged_signing_depends_on_rnd_and_verifies() {
    let (pk, sk) = ml_dsa_65::key_gen_internal(&[0x12u8; 32]);
    let a = ml_dsa_65::sign_with_rnd(&sk, b"m", b"c", &[1u8; 32]).unwrap();
    let b = ml_dsa_65::sign_with_rnd(&sk, b"m", b"c", &[2u8; 32]).unwrap();
    assert_ne!(a, b);
    assert!(ml_dsa_65::verify(&pk, b"m", &a, b"c"));
    assert!(ml_dsa_65::verify(&pk, b"m", &b, b"c"));
    // rnd = 0^32 is the deterministic variant.
    assert_eq!(
        ml_dsa_65::sign_with_rnd(&sk, b"m", b"c", &[0u8; 32]).unwrap(),
        ml_dsa_65::sign_deterministic(&sk, b"m", b"c").unwrap()
    );
}
