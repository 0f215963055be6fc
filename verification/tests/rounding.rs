use ml_dsa::params::{MlDsa44, MlDsa65, MlDsa87, ParameterSet, Q};
use ml_dsa::poly::Poly;
use ml_dsa::rounding::{
    decompose, decompose_ct, high_bits, high_bits_ct, high_bits_poly, high_bits_poly_ct,
    low_bits, low_bits_ct, low_bits_poly, low_bits_poly_ct, make_hint, make_hint_ct,
    make_hint_poly, make_hint_poly_ct, power2round, power2round_poly, use_hint, use_hint_poly,
    TWO_POW_D,
};

struct XorShift(u64);
impl XorShift {
    fn next_u32(&mut self) -> u32 {
        let mut x = self.0;
        x ^= x << 13;
        x ^= x >> 7;
        x ^= x << 17;
        self.0 = x;
        (x >> 32) as u32
    }
    fn coeff(&mut self) -> i32 {
        (self.next_u32() % Q as u32) as i32
    }
}

fn decompose_identity_and_range_for<P: ParameterSet>() {
    let mut rng = XorShift(0xa1b2_c3d4_e5f6_0718);
    let two_gamma2 = 2 * P::GAMMA2;
    let m = (Q - 1) / two_gamma2;
    for _ in 0..5000 {
        let r = rng.coeff();
        let (r1, r0) = decompose::<P>(r);
        // r ≡ r1·2γ2 + r0 (mod q)
        assert_eq!((r1 as i64 * two_gamma2 as i64 + r0 as i64).rem_euclid(Q as i64) as i32, r);
        // r1 in [0, (q-1)/2γ2)
        assert!(r1 >= 0 && r1 < m);
    }
}

#[test]
fn decompose_identity_and_range() {
    decompose_identity_and_range_for::<MlDsa44>();
    decompose_identity_and_range_for::<MlDsa65>();
    decompose_identity_and_range_for::<MlDsa87>();
}

#[test]
fn decompose_q_minus_1_special_case() {
    // The notorious edge: r⁺ − r₀ = q − 1 must give r1 = 0, r0 = -1.
    assert_eq!(decompose::<MlDsa65>(Q - 1), (0, -1));
    assert_eq!(decompose::<MlDsa44>(Q - 1), (0, -1));
    assert_eq!(decompose::<MlDsa87>(Q - 1), (0, -1));
}

#[test]
fn power2round_identity() {
    let mut rng = XorShift(0x0f0e_0d0c_0b0a_0908);
    for _ in 0..5000 {
        let r = rng.coeff();
        let (r1, r0) = power2round(r);
        // r⁺ = r1·2^d + r0 exactly.
        assert_eq!(r1 * TWO_POW_D + r0, r);
        assert!(r0 > -TWO_POW_D / 2 && r0 <= TWO_POW_D / 2);
    }
}

fn hint_correctness_invariant_for<P: ParameterSet>() {
    // For |z| ≤ γ2: UseHint(MakeHint(z, r), r + z) = HighBits(r).
    let mut rng = XorShift(0xfeed_face_1234_5678);
    for _ in 0..5000 {
        let r = rng.coeff();
        let z = (rng.next_u32() % (2 * P::GAMMA2 as u32 + 1)) as i32 - P::GAMMA2;
        let h = make_hint::<P>(z, r);
        assert_eq!(use_hint::<P>(h, r + z), high_bits::<P>(r));
    }
}

#[test]
fn hint_correctness_invariant() {
    hint_correctness_invariant_for::<MlDsa44>();
    hint_correctness_invariant_for::<MlDsa65>();
    hint_correctness_invariant_for::<MlDsa87>();
}

fn decompose_ct_exhaustive_for<P: ParameterSet>() {
    for r in 0..Q {
        assert_eq!(decompose_ct::<P>(r), decompose::<P>(r), "r = {r}");
    }
}

#[test]
fn decompose_ct_exhaustive_gamma2_32() {
    decompose_ct_exhaustive_for::<MlDsa65>();
}

#[test]
fn decompose_ct_exhaustive_gamma2_88() {
    decompose_ct_exhaustive_for::<MlDsa44>();
}

/// Branchless decompose must also handle non-canonical inputs like the
/// baseline does (both reduce mod q first).
#[test]
fn decompose_ct_non_canonical_inputs() {
    for r in [-1, -Q, Q, Q + 1, 2 * Q - 1, i32::MAX, i32::MIN] {
        assert_eq!(decompose_ct::<MlDsa65>(r), decompose::<MlDsa65>(r), "r = {r}");
        assert_eq!(decompose_ct::<MlDsa44>(r), decompose::<MlDsa44>(r), "r = {r}");
    }
}

#[test]
fn make_hint_ct_equals_baseline() {
    let mut rng = XorShift(0x3141_5926_5358_9793);
    for _ in 0..100_000 {
        let r = rng.coeff();
        let z = rng.coeff() - Q / 2;
        assert_eq!(make_hint_ct::<MlDsa65>(z, r), make_hint::<MlDsa65>(z, r) as i32, "z = {z}, r = {r}");
        assert_eq!(make_hint_ct::<MlDsa44>(z, r), make_hint::<MlDsa44>(z, r) as i32, "z = {z}, r = {r}");
    }
}

#[test]
fn rounding_known_values() {
    // 2γ2 = 523776 for ML-DSA-65.
    assert_eq!(decompose::<MlDsa65>(523_776), (1, 0));
    assert_eq!(decompose::<MlDsa65>(261_888), (0, 261_888));
    assert_eq!(decompose::<MlDsa65>(261_889), (1, -261_887));
    assert_eq!(high_bits::<MlDsa65>(-1), 0);
    assert_eq!(low_bits::<MlDsa65>(-1), -1);
    assert_eq!(power2round(8192), (1, 0));
    assert_eq!(power2round(4096), (0, 4096));
    assert_eq!(power2round(4097), (1, -4095));
    assert_eq!(power2round(-1), (1023, 0)); // q − 1 = 1023 · 2^13
}

#[test]
fn use_hint_wraps_around() {
    // m = 16 for ML-DSA-65: r1 = 15 plus one wraps to 0; r1 = 0 minus one wraps to 15.
    let top = 15 * 523_776 + 1; // r1 = 15, r0 = 1 > 0
    assert_eq!(decompose::<MlDsa65>(top), (15, 1));
    assert_eq!(use_hint::<MlDsa65>(true, top), 0);
    assert_eq!(use_hint::<MlDsa65>(false, top), 15);
    assert_eq!(use_hint::<MlDsa65>(true, 0), 15); // r0 = 0 ≤ 0
    // m = 44 for ML-DSA-44.
    assert_eq!(use_hint::<MlDsa44>(true, 0), 43);
}

#[test]
fn make_hint_detects_carry() {
    assert!(!make_hint::<MlDsa65>(0, 12345));
    assert!(make_hint::<MlDsa65>(1, 261_888)); // crosses into the next bucket
    assert_eq!(make_hint_ct::<MlDsa65>(1, 261_888), 1);
    assert_eq!(high_bits_ct::<MlDsa44>(95_233), high_bits::<MlDsa44>(95_233));
    assert_eq!(low_bits_ct::<MlDsa44>(95_233), low_bits::<MlDsa44>(95_233));
}

#[test]
fn poly_variants_apply_coefficientwise() {
    let mut rng = XorShift(0x2222_3333_4444_5555);
    let mut r = Poly::zero();
    let mut z = Poly::zero();
    for i in 0..256 {
        r.coeffs[i] = rng.coeff();
        z.coeffs[i] = (rng.next_u32() % 1000) as i32 - 500;
    }
    let (t1, t0) = power2round_poly(&r);
    let hb = high_bits_poly::<MlDsa65>(&r);
    let lb = low_bits_poly::<MlDsa65>(&r);
    let h = make_hint_poly::<MlDsa65>(&z, &r);
    let u = use_hint_poly::<MlDsa65>(&h, &r);
    for i in 0..256 {
        assert_eq!((t1.coeffs[i], t0.coeffs[i]), power2round(r.coeffs[i]));
        assert_eq!(hb.coeffs[i], high_bits::<MlDsa65>(r.coeffs[i]));
        assert_eq!(lb.coeffs[i], low_bits::<MlDsa65>(r.coeffs[i]));
        assert_eq!(h.coeffs[i], make_hint::<MlDsa65>(z.coeffs[i], r.coeffs[i]) as i32);
        assert_eq!(u.coeffs[i], use_hint::<MlDsa65>(h.coeffs[i] != 0, r.coeffs[i]));
    }
    assert_eq!(high_bits_poly_ct::<MlDsa65>(&r).coeffs, hb.coeffs);
    assert_eq!(low_bits_poly_ct::<MlDsa65>(&r).coeffs, lb.coeffs);
    assert_eq!(make_hint_poly_ct::<MlDsa65>(&z, &r).coeffs, h.coeffs);
}
