use ml_dsa::params::{MlDsa44, MlDsa65, MlDsa87, ParameterSet};

/// Pin every derived constant to the literal FIPS 204 Table 1/2 numbers.
#[test]
fn table_2_sizes_all_sets() {
    assert_eq!(MlDsa44::BETA, 78);
    assert_eq!(MlDsa44::C_TILDE_BYTES, 32);
    assert_eq!(MlDsa44::GAMMA2, 95_232);
    assert_eq!(MlDsa44::PK_BYTES, 1312);
    assert_eq!(MlDsa44::SK_BYTES, 2560);
    assert_eq!(MlDsa44::SIG_BYTES, 2420);

    assert_eq!(MlDsa65::BETA, 196);
    assert_eq!(MlDsa65::C_TILDE_BYTES, 48);
    assert_eq!(MlDsa65::GAMMA2, 261_888);
    assert_eq!(MlDsa65::PK_BYTES, 1952);
    assert_eq!(MlDsa65::SK_BYTES, 4032);
    assert_eq!(MlDsa65::SIG_BYTES, 3309);

    assert_eq!(MlDsa87::BETA, 120);
    assert_eq!(MlDsa87::C_TILDE_BYTES, 64);
    assert_eq!(MlDsa87::GAMMA2, 261_888);
    assert_eq!(MlDsa87::PK_BYTES, 2592);
    assert_eq!(MlDsa87::SK_BYTES, 4896);
    assert_eq!(MlDsa87::SIG_BYTES, 4627);
}

#[test]
fn set_names_and_dimensions() {
    assert_eq!(MlDsa44::NAME, "ML-DSA-44");
    assert_eq!(MlDsa65::NAME, "ML-DSA-65");
    assert_eq!(MlDsa87::NAME, "ML-DSA-87");
    assert_eq!((MlDsa44::K, MlDsa44::L), (4, 4));
    assert_eq!((MlDsa65::K, MlDsa65::L), (6, 5));
    assert_eq!((MlDsa87::K, MlDsa87::L), (8, 7));
}
