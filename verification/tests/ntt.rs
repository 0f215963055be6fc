use ml_dsa::ntt::{bit_rev_8, inv_ntt, inv_ntt_fast, ntt, ntt_fast, pow_mod, zetas, F_256_INV, ZETA};
use ml_dsa::ntt_arith::multiply_ntt;
use ml_dsa::params::{N, Q};
use ml_dsa::poly::Poly;

/// Tiny deterministic PRNG so tests need no external dependency.
struct XorShift(u64);
impl XorShift {
    fn next_u32(&mut self) -> u32 {
        let mut x = self.0;
        x ^= x << 13;
        x ^= x >> 7;
        x ^= x << 17;
        self.0 = x;
        (x >> 32) as u32
    }
    fn coeff(&mut self) -> i32 {
        (self.next_u32() % Q as u32) as i32
    }
}

fn random_poly(rng: &mut XorShift) -> Poly {
    let mut p = Poly::zero();
    for c in p.coeffs.iter_mut() {
        *c = rng.coeff();
    }
    p
}

/// Schoolbook negacyclic multiply in R_q (X^256 = -1).
#[allow(clippy::needless_range_loop)]
fn schoolbook(a: &Poly, b: &Poly) -> Poly {
    let mut acc = [0i64; N];
    for i in 0..N {
        for j in 0..N {
            let prod = a.coeffs[i] as i64 * b.coeffs[j] as i64;
            let k = i + j;
            if k < N {
                acc[k] += prod;
            } else {
                acc[k - N] -= prod; // wrap with sign flip
            }
        }
    }
    let mut out = Poly::zero();
    for i in 0..N {
        out.coeffs[i] = acc[i].rem_euclid(Q as i64) as i32;
    }
    out
}

#[test]
fn ntt_inv_round_trip() {
    let mut rng = XorShift(0x1234_5678_9abc_def0);
    for _ in 0..50 {
        let p = random_poly(&mut rng);
        let back = inv_ntt(&ntt(&p));
        assert_eq!(p.coeffs, back.coeffs, "ntt∘inv_ntt must be the identity");
    }
}

#[test]
fn ntt_multiply_matches_schoolbook() {
    let mut rng = XorShift(0xdead_beef_cafe_babe);
    for _ in 0..25 {
        let a = random_poly(&mut rng);
        let b = random_poly(&mut rng);
        let via_ntt = inv_ntt(&multiply_ntt(&ntt(&a), &ntt(&b)));
        let direct = schoolbook(&a, &b);
        assert_eq!(via_ntt.coeffs, direct.coeffs, "NTT product must equal schoolbook");
    }
}

#[test]
fn bit_rev_8_known_values() {
    assert_eq!(bit_rev_8(1), 128);
    assert_eq!(bit_rev_8(128), 1);
    assert_eq!(bit_rev_8(0), 0);
    assert_eq!(bit_rev_8(0b0000_0011), 0b1100_0000);
}

#[test]
fn fast_ntt_equals_baseline() {
    let mut rng = XorShift(0x0bad_cafe_f00d_1234);
    for _ in 0..20 {
        let p = random_poly(&mut rng);
        let h = ntt(&p);
        assert_eq!(ntt_fast(&p).coeffs, h.coeffs);
        assert_eq!(inv_ntt_fast(&h).coeffs, inv_ntt(&h).coeffs);
    }
}

#[test]
fn zeta_table_and_constants() {
    // ζ = 1753 is a primitive 512th root of unity mod q.
    assert_eq!(pow_mod(ZETA, 256, Q as i64), Q as i64 - 1);
    assert_eq!(pow_mod(ZETA, 512, Q as i64), 1);
    // 256 · 256⁻¹ ≡ 1 (mod q).
    assert_eq!((256 * F_256_INV) % Q as i64, 1);
    let z = zetas();
    assert_eq!(z[0], 1);
    assert_eq!(z[1] as i64, pow_mod(ZETA, bit_rev_8(1) as u64, Q as i64));
    assert_eq!(z[255] as i64, pow_mod(ZETA, bit_rev_8(255) as u64, Q as i64));
}

#[test]
fn ntt_of_constant_is_constant() {
    // The NTT of the constant polynomial 1 is 1 in every slot.
    let mut one = Poly::zero();
    one.coeffs[0] = 1;
    assert!(ntt(&one).coeffs.iter().all(|&x| x == 1));
    assert_eq!(inv_ntt(&ntt(&one)).coeffs, one.coeffs);
}
