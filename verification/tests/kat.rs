use ml_dsa::kat::{
    group_kind, kat_message, keygen_case_passes, prehash_sigver_case_passes,
    prehash_siggen_case_passes, siggen_case_passes, sigver_case_passes, Api, GroupKind,
    ParamSet, Path,
};
use ml_dsa::prehash::PreHash;
use ml_dsa::{ml_dsa_44, ml_dsa_65, ml_dsa_87};

#[test]
fn param_set_names() {
    assert_eq!(ParamSet::from_acvp("ML-DSA-44"), Some(ParamSet::MlDsa44));
    assert_eq!(ParamSet::from_acvp("ML-DSA-65"), Some(ParamSet::MlDsa65));
    assert_eq!(ParamSet::from_acvp("ML-DSA-87"), Some(ParamSet::MlDsa87));
    assert_eq!(ParamSet::from_acvp("ML-DSA-99"), None);
    assert_eq!(ParamSet::MlDsa65.sk_bytes(), 4032);
}

#[test]
fn group_kinds() {
    assert_eq!(group_kind(false, false), GroupKind::Pure);
    assert_eq!(group_kind(true, false), GroupKind::PreHash);
    assert_eq!(group_kind(false, true), GroupKind::Unsupported);
    assert_eq!(group_kind(true, true), GroupKind::Unsupported);
}

#[test]
fn message_for_each_interface() {
    assert_eq!(kat_message(true, b"ctx", b"m"), b"m".to_vec());
    assert_eq!(kat_message(false, b"ctx", b"m"), vec![0, 3, b'c', b't', b'x', b'm']);
}

#[test]
fn keygen_cases() {
    let seed = [3u8; 32];
    let (pk, sk) = ml_dsa_87::key_gen_internal(&seed);
    for path in [Path::Reference, Path::Improved] {
        let api = Api { param_set: ParamSet::MlDsa87, path };
        assert!(keygen_case_passes(api, &seed, &pk, &sk));
        let mut bad = sk.clone();
        bad[0] ^= 1;
        assert!(!keygen_case_passes(api, &seed, &pk, &bad));
    }
    let other = Api { param_set: ParamSet::MlDsa44, path: Path::Reference };
    assert!(!keygen_case_passes(other, &seed, &pk, &sk));
}

#[test]
fn siggen_and_sigver_cases() {
    let (pk, sk) = ml_dsa_44::key_gen_internal(&[5u8; 32]);
    let rnd = [8u8; 32];
    let hedged = ml_dsa_44::sign_with_rnd(&sk, b"msg", b"c", &rnd).unwrap();
    let det = ml_dsa_44::sign_deterministic(&sk, b"msg", b"c").unwrap();
    for path in [Path::Reference, Path::Improved] {
        let api = Api { param_set: ParamSet::MlDsa44, path };
        assert!(siggen_case_passes(api, false, false, &sk, b"msg", b"c", &rnd, &hedged));
        assert!(siggen_case_passes(api, false, true, &sk, b"msg", b"c", &rnd, &det));
        assert!(!siggen_case_passes(api, false, false, &sk, b"msg", b"c", &rnd, &det));
        assert!(sigver_case_passes(api, false, &pk, b"msg", b"c", &hedged, true));
        assert!(sigver_case_passes(api, false, &pk, b"other", b"c", &hedged, false));
        assert!(!sigver_case_passes(api, false, &pk, b"msg", b"c", &hedged, false));
        // internal interface: the message is M' itself.
        let mp = [0u8, 1, b'c', b'm', b's', b'g'];
        assert!(sigver_case_passes(api, true, &pk, &mp, b"", &hedged, true));
    }
}

#[test]
fn prehash_cases() {
    let (pk, sk) = ml_dsa_65::key_gen_internal(&[6u8; 32]);
    let rnd = [4u8; 32];
    let sig = ml_dsa_65::hash_sign_with_rnd(&sk, b"msg", b"", PreHash::Sha2_512, &rnd).unwrap();
    assert!(prehash_siggen_case_passes(ParamSet::MlDsa65, PreHash::Sha2_512, false, &sk, b"msg", b"", &rnd, &sig));
    assert!(!prehash_siggen_case_passes(ParamSet::MlDsa65, PreHash::Sha2_384, false, &sk, b"msg", b"", &rnd, &sig));
    assert!(prehash_sigver_case_passes(ParamSet::MlDsa65, PreHash::Sha2_512, &pk, b"msg", b"", &sig, true));
    assert!(prehash_sigver_case_passes(ParamSet::MlDsa65, PreHash::Sha2_512, &pk, b"msg", &[0u8; 256], &sig, false));
}
