use ml_dsa::prehash::PreHash;

#[test]
fn oid_matches_fips204_examples() {
    // The three OIDs printed in FIPS 204 Algorithm 4.
    assert_eq!(PreHash::Sha2_256.oid()[10], 0x01);
    assert_eq!(PreHash::Sha2_512.oid()[10], 0x03);
    assert_eq!(PreHash::Shake128.oid()[10], 0x0B);
    assert_eq!(&PreHash::Sha2_256.oid()[..10], &[0x06, 0x09, 0x60, 0x86, 0x48, 0x01, 0x65, 0x03, 0x04, 0x02]);
}

#[test]
fn digest_lengths() {
    let m = b"abc";
    assert_eq!(PreHash::Sha2_224.digest(m).len(), 28);
    assert_eq!(PreHash::Sha2_256.digest(m).len(), 32);
    assert_eq!(PreHash::Sha2_384.digest(m).len(), 48);
    assert_eq!(PreHash::Sha2_512.digest(m).len(), 64);
    assert_eq!(PreHash::Sha2_512_224.digest(m).len(), 28);
    assert_eq!(PreHash::Sha2_512_256.digest(m).len(), 32);
    assert_eq!(PreHash::Sha3_224.digest(m).len(), 28);
    assert_eq!(PreHash::Sha3_512.digest(m).len(), 64);
    assert_eq!(PreHash::Shake128.digest(m).len(), 32);
    assert_eq!(PreHash::Shake256.digest(m).len(), 64);
}

#[test]
fn from_acvp_names() {
    let all = [
        ("SHA2-224", PreHash::Sha2_224),
        ("SHA2-256", PreHash::Sha2_256),
        ("SHA2-384", PreHash::Sha2_384),
        ("SHA2-512", PreHash::Sha2_512),
        ("SHA2-512/224", PreHash::Sha2_512_224),
        ("SHA2-512/256", PreHash::Sha2_512_256),
        ("SHA3-224", PreHash::Sha3_224),
        ("SHA3-256", PreHash::Sha3_256),
        ("SHA3-384", PreHash::Sha3_384),
        ("SHA3-512", PreHash::Sha3_512),
        ("SHAKE-128", PreHash::Shake128),
        ("SHAKE-256", PreHash::Shake256),
    ];
    for (name, ph) in all {
        assert_eq!(PreHash::from_acvp(name), Some(ph), "{name}");
    }
    assert_eq!(PreHash::from_acvp("SHA-1"), None);
    assert_eq!(PreHash::from_acvp("sha2-256"), None);
    assert_eq!(PreHash::from_acvp(""), None);
}

#[test]
fn digests_known_answers() {
    // SHA-256("abc") and SHA3-256("abc") prefixes.
    assert_eq!(&PreHash::Sha2_256.digest(b"abc")[..4], &[0xba, 0x78, 0x16, 0xbf]);
    assert_eq!(&PreHash::Sha3_256.digest(b"abc")[..4], &[0x3a, 0x98, 0x5d, 0xa7]);
    // SHA-224("abc") prefix.
    assert_eq!(&PreHash::Sha2_224.digest(b"abc")[..4], &[0x23, 0x09, 0x7d, 0x22]);
    // SHAKE128("") prefix, 32 bytes.
    assert_eq!(&PreHash::Shake128.digest(b"")[..4], &[0x7f, 0x9c, 0x2b, 0xa4]);
    // SHAKE256("") prefix, 64 bytes.
    assert_eq!(&PreHash::Shake256.digest(b"")[..4], &[0x46, 0xb9, 0xdd, 0x2b]);
}

#[test]
fn oid_last_bytes_are_distinct() {
    let all = [
        PreHash::Sha2_224, PreHash::Sha2_256, PreHash::Sha2_384, PreHash::Sha2_512,
        PreHash::Sha2_512_224, PreHash::Sha2_512_256, PreHash::Sha3_224, PreHash::Sha3_256,
        PreHash::Sha3_384, PreHash::Sha3_512, PreHash::Shake128, PreHash::Shake256,
    ];
    let mut lasts: Vec<u8> = all.iter().map(|p| p.oid()[10]).collect();
    lasts.sort();
    assert_eq!(lasts, (1u8..=12).collect::<Vec<u8>>());
    assert_eq!(PreHash::Sha2_224.oid()[10], 0x04);
    assert_eq!(PreHash::Shake256.oid()[10], 0x0C);
}
