use ml_dsa::error::Error;
use ml_dsa::params::{MlDsa44, MlDsa65, ParameterSet};
use ml_dsa::poly::PolyVec;
use ml_dsa::serdes::{
    pk_decode, pk_encode, sig_decode, sig_encode, sk_decode, sk_encode, w1_encode, T0_A, T0_B,
    T1_TOP,
};

const K: usize = MlDsa65::K;
const L: usize = MlDsa65::L;

struct XorShift(u64);
impl XorShift {
    fn next_u32(&mut self) -> u32 {
        let mut x = self.0;
        x ^= x << 13;
        x ^= x >> 7;
        x ^= x << 17;
        self.0 = x;
        (x >> 32) as u32
    }
    fn range(&mut self, lo: i32, hi: i32) -> i32 {
        let span = (hi - lo + 1) as u32;
        lo + (self.next_u32() % span) as i32
    }
}

#[test]
fn pk_round_trip() {
    let mut rng = XorShift(0x11);
    let rho = [0xABu8; 32];
    let mut t1 = PolyVec::<K>::zero();
    for p in t1.v.iter_mut() {
        for c in p.coeffs.iter_mut() {
            *c = rng.range(0, T1_TOP as i32);
        }
    }
    let pk = pk_encode::<MlDsa65, K>(&rho, &t1);
    assert_eq!(pk.len(), MlDsa65::PK_BYTES);
    let (rho2, t12) = pk_decode::<MlDsa65, K>(&pk).unwrap();
    assert_eq!(rho2, rho);
    for i in 0..K {
        assert_eq!(t12.v[i].coeffs, t1.v[i].coeffs);
    }
}

#[test]
fn sk_round_trip() {
    let mut rng = XorShift(0x22);
    let rho = [1u8; 32];
    let k_seed = [2u8; 32];
    let tr = [3u8; 64];
    let mut s1 = PolyVec::<L>::zero();
    for p in s1.v.iter_mut() {
        for c in p.coeffs.iter_mut() {
            *c = rng.range(-MlDsa65::ETA, MlDsa65::ETA);
        }
    }
    let mut s2 = PolyVec::<K>::zero();
    for p in s2.v.iter_mut() {
        for c in p.coeffs.iter_mut() {
            *c = rng.range(-MlDsa65::ETA, MlDsa65::ETA);
        }
    }
    let mut t0 = PolyVec::<K>::zero();
    for p in t0.v.iter_mut() {
        for c in p.coeffs.iter_mut() {
            *c = rng.range(-(T0_A as i32), T0_B as i32);
        }
    }
    let sk = sk_encode::<MlDsa65, K, L>(&rho, &k_seed, &tr, &s1, &s2, &t0);
    assert_eq!(sk.len(), MlDsa65::SK_BYTES);
    let (r2, k2, tr2, s1b, s2b, t0b) = sk_decode::<MlDsa65, K, L>(&sk).unwrap();
    assert_eq!((r2, k2, tr2), (rho, k_seed, tr));
    for i in 0..L {
        assert_eq!(s1b.v[i].coeffs, s1.v[i].coeffs);
    }
    for i in 0..K {
        assert_eq!(s2b.v[i].coeffs, s2.v[i].coeffs);
        assert_eq!(t0b.v[i].coeffs, t0.v[i].coeffs);
    }
}

#[test]
fn sig_round_trip() {
    let mut rng = XorShift(0x33);
    let c_tilde = vec![0x5Au8; MlDsa65::C_TILDE_BYTES];
    let mut z = PolyVec::<L>::zero();
    for p in z.v.iter_mut() {
        for c in p.coeffs.iter_mut() {
            *c = rng.range(-(MlDsa65::GAMMA1 - 1), MlDsa65::GAMMA1);
        }
    }
    let mut h = PolyVec::<K>::zero();
    h.v[0].coeffs[3] = 1;
    h.v[0].coeffs[100] = 1;
    h.v[4].coeffs[42] = 1;
    let sigma = sig_encode::<MlDsa65, K, L>(&c_tilde, &z, &h);
    assert_eq!(sigma.len(), MlDsa65::SIG_BYTES);
    let (c2, z2, h2) = sig_decode::<MlDsa65, K, L>(&sigma).unwrap();
    assert_eq!(c2, c_tilde);
    for i in 0..L {
        assert_eq!(z2.v[i].coeffs, z.v[i].coeffs);
    }
    for i in 0..K {
        assert_eq!(h2.v[i].coeffs, h.v[i].coeffs);
    }
}

#[test]
fn sig_round_trip_44() {
    // ML-DSA-44 exercises the 18-bit z packing (γ1 = 2^17) and ω = 80.
    let mut rng = XorShift(0x44);
    let c_tilde = vec![0xC3u8; MlDsa44::C_TILDE_BYTES];
    let mut z = PolyVec::<{ MlDsa44::L }>::zero();
    for p in z.v.iter_mut() {
        for c in p.coeffs.iter_mut() {
            *c = rng.range(-(MlDsa44::GAMMA1 - 1), MlDsa44::GAMMA1);
        }
    }
    let mut h = PolyVec::<{ MlDsa44::K }>::zero();
    h.v[1].coeffs[7] = 1;
    h.v[3].coeffs[200] = 1;
    let sigma = sig_encode::<MlDsa44, { MlDsa44::K }, { MlDsa44::L }>(&c_tilde, &z, &h);
    assert_eq!(sigma.len(), MlDsa44::SIG_BYTES);
    let (c2, z2, h2) = sig_decode::<MlDsa44, { MlDsa44::K }, { MlDsa44::L }>(&sigma).unwrap();
    assert_eq!(c2, c_tilde);
    for i in 0..MlDsa44::L {
        assert_eq!(z2.v[i].coeffs, z.v[i].coeffs);
    }
    for i in 0..MlDsa44::K {
        assert_eq!(h2.v[i].coeffs, h.v[i].coeffs);
    }
}

#[test]
fn decoders_reject_wrong_length() {
    assert!(matches!(pk_decode::<MlDsa65, K>(&[0u8; 10]), Err(Error::InvalidLength { .. })));
    assert!(matches!(sk_decode::<MlDsa65, K, L>(&[0u8; 10]), Err(Error::InvalidLength { .. })));
    assert!(matches!(sig_decode::<MlDsa65, K, L>(&[0u8; 10]), Err(Error::InvalidLength { .. })));
}

#[test]
fn length_error_reports_expected_and_got() {
    assert_eq!(
        pk_decode::<MlDsa65, K>(&[0u8; 10]).unwrap_err(),
        Error::InvalidLength { expected: 1952, got: 10 }
    );
    assert_eq!(
        sig_decode::<MlDsa65, K, L>(&[0u8; 3310]).unwrap_err(),
        Error::InvalidLength { expected: 3309, got: 3310 }
    );
}

#[test]
fn sig_decode_rejects_malformed_hint() {
    let mut sigma = vec![0u8; MlDsa65::SIG_BYTES];
    // hint section starts after c~ and z; a count above ω is malformed.
    let hint_start = MlDsa65::SIG_BYTES - (MlDsa65::OMEGA + K);
    sigma[hint_start + MlDsa65::OMEGA] = (MlDsa65::OMEGA + 1) as u8;
    assert_eq!(sig_decode::<MlDsa65, K, L>(&sigma).unwrap_err(), Error::Reject);
}

#[test]
fn encodings_are_canonical_on_their_images() {
    // Re-encoding what was decoded gives back the same bytes.
    let mut bytes = vec![0u8; MlDsa65::PK_BYTES];
    for (i, b) in bytes.iter_mut().enumerate() {
        *b = (i * 37 % 251) as u8;
    }
    let (rho, t1) = pk_decode::<MlDsa65, K>(&bytes).unwrap();
    assert_eq!(pk_encode::<MlDsa65, K>(&rho, &t1), bytes);
}

#[test]
fn w1_encode_packs_four_bits_for_gamma2_32() {
    let mut w1 = PolyVec::<K>::zero();
    w1.v[0].coeffs[0] = 15;
    w1.v[0].coeffs[1] = 1;
    let out = w1_encode::<MlDsa65, K>(&w1);
    assert_eq!(out.len(), 128 * K);
    assert_eq!(out[0], 0x1F);
    assert!(out[1..].iter().all(|&x| x == 0));
}
