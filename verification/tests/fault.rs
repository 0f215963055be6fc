use ml_dsa::fault::{sign_internal_mirror, Cell, Fault};
use ml_dsa::ml_dsa_65;
use ml_dsa::params::{MlDsa65, ParameterSet};

const K: usize = MlDsa65::K;
const L: usize = MlDsa65::L;

/// The no-fault mirror must equal the real signer byte-for-byte.
#[test]
fn mirror_is_byte_identical_to_real_signer() {
    for seed in 0u8..6 {
        let (_pk, sk) = ml_dsa_65::key_gen_internal(&[seed; 32]);
        for (msg, rnd) in [
            (b"".as_slice(), [0u8; 32]),
            (b"fault fidelity".as_slice(), [0x5au8; 32]),
            (b"another message".as_slice(), [0xffu8; 32]),
        ] {
            let mut m_prime = vec![0u8, 0u8];
            m_prime.extend_from_slice(msg);
            let real = ml_dsa_65::sign_internal(&sk, &m_prime, &rnd);
            let mirror = sign_internal_mirror::<MlDsa65, K, L>(&sk, &m_prime, &rnd, Fault::NoFault);
            assert_eq!(real, mirror, "seed {seed}, msg {msg:?}");
        }
    }
}

/// A low-bit cs1 fault keeps the signer accepting (z stays in bound) but the
/// faulty signature must not verify (fault propagates through A·Δ).
#[test]
fn cs1_fault_produces_non_verifying_signature() {
    let (pk, sk) = ml_dsa_65::key_gen_internal(&[0x42u8; 32]);
    let mut m_prime = vec![0u8, 0u8];
    m_prime.extend_from_slice(b"fault effect");
    let fault = Fault::Cs1BitFlip { poly: 0, coeff: 0, bit: 3 };
    let faulty = sign_internal_mirror::<MlDsa65, K, L>(&sk, &m_prime, &[0u8; 32], fault);
    let correct = sign_internal_mirror::<MlDsa65, K, L>(&sk, &m_prime, &[0u8; 32], Fault::NoFault);
    assert_ne!(faulty, correct, "fault must change the signature");
    assert!(!ml_dsa_65::verify_internal(&pk, &m_prime, &faulty), "faulty sig must not verify");
    assert!(ml_dsa_65::verify_internal(&pk, &m_prime, &correct), "correct sig must verify");
}

#[test]
fn faulty_signature_keeps_its_shape() {
    let (_pk, sk) = ml_dsa_65::key_gen_internal(&[0x43u8; 32]);
    let m_prime = vec![0u8, 0u8, b'x'];
    let fault = Fault::Cs1BitFlip { poly: 4, coeff: 255, bit: 0 };
    let faulty = sign_internal_mirror::<MlDsa65, K, L>(&sk, &m_prime, &[1u8; 32], fault);
    assert_eq!(faulty.len(), MlDsa65::SIG_BYTES);
    let cell = Cell { faulty: true, verifies: false, released: false, escaped: false, comparable_pair: true };
    assert!(cell.faulty && !cell.escaped);
}
