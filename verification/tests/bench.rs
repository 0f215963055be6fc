use ml_dsa::bench::{keypair, m_prime, messages, SEED};
use ml_dsa::ml_dsa_65;

#[test]
fn keypair_is_the_fixed_seed_keypair() {
    assert_eq!(SEED, [0x42u8; 32]);
    assert_eq!(keypair(), ml_dsa_65::key_gen_internal(&[0x42u8; 32]));
}

#[test]
fn m_prime_prefixes_empty_context() {
    assert_eq!(m_prime(b"abc"), vec![0, 0, b'a', b'b', b'c']);
    assert_eq!(m_prime(b""), vec![0, 0]);
}

#[test]
fn messages_are_numbered() {
    let ms = messages(3);
    assert_eq!(ms.len(), 3);
    assert_eq!(ms[0], m_prime(b"bench-msg-0000"));
    assert_eq!(ms[2], m_prime(b"bench-msg-0002"));
    let many = messages(12_345);
    assert_eq!(many[12_344], m_prime(b"bench-msg-12344"));
    assert_eq!(many[1_000], m_prime(b"bench-msg-1000"));
    assert!(messages(0).is_empty());
}
