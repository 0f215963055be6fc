use ml_dsa::params::{MlDsa44, MlDsa65, Q};
use ml_dsa::poly::PolyVec;
use ml_dsa::vecops::{
    add_vec, center_vec, count_ones, count_ones_ct, exceeds_bound_ct, high_bits_vec,
    high_bits_vec_ct, inf_norm, inv_ntt_vec, inv_ntt_vec_fast, low_bits_vec, low_bits_vec_ct,
    make_hint_vec, make_hint_vec_ct, neg_vec, ntt_vec, ntt_vec_fast, power2round_vec, sub_vec,
    use_hint_vec,
};

struct XorShift(u64);
impl XorShift {
    fn next_u32(&mut self) -> u32 {
        let mut x = self.0;
        x ^= x << 13;
        x ^= x >> 7;
        x ^= x << 17;
        self.0 = x;
        (x >> 32) as u32
    }
}

fn random_vec(rng: &mut XorShift) -> PolyVec<3> {
    let mut v = PolyVec::<3>::zero();
    for p in v.v.iter_mut() {
        for c in p.coeffs.iter_mut() {
            *c = (rng.next_u32() % Q as u32) as i32;
        }
    }
    v
}

/// `exceeds_bound_ct` must agree with `inf_norm >= bound` everywhere,
/// including exactly at the boundary.
#[test]
fn exceeds_bound_ct_equals_inf_norm_check() {
    let mut rng = XorShift(0x600d_b075_1234_5678);
    for _ in 0..500 {
        let v = random_vec(&mut rng);
        let norm = inf_norm(&v);
        for bound in [1, norm - 1, norm, norm + 1, Q / 2] {
            if bound < 1 {
                continue;
            }
            assert_eq!(exceeds_bound_ct(&v, bound), norm >= bound, "bound = {bound}");
        }
    }
    // boundary coefficient exactly at (q-1)/2 (max centred magnitude)
    let mut v = PolyVec::<3>::zero();
    v.v[1].coeffs[7] = (Q - 1) / 2;
    assert!(exceeds_bound_ct(&v, (Q - 1) / 2));
    assert!(!exceeds_bound_ct(&v, (Q - 1) / 2 + 1));
}

/// The branchless vector lifts must be value-equal to the baseline lifts.
#[test]
fn ct_vec_lifts_equal_baseline() {
    let mut rng = XorShift(0xc0de_c0de_c0de_c0de);
    for _ in 0..50 {
        let v = random_vec(&mut rng);
        let w = random_vec(&mut rng);
        assert_eq!(high_bits_vec_ct::<MlDsa65, 3>(&v).v, high_bits_vec::<MlDsa65, 3>(&v).v);
        assert_eq!(high_bits_vec_ct::<MlDsa44, 3>(&v).v, high_bits_vec::<MlDsa44, 3>(&v).v);
        assert_eq!(low_bits_vec_ct::<MlDsa65, 3>(&v).v, low_bits_vec::<MlDsa65, 3>(&v).v);
        let base = make_hint_vec::<MlDsa65, 3>(&v, &w);
        assert_eq!(make_hint_vec_ct::<MlDsa65, 3>(&v, &w).v, base.v);
        assert_eq!(count_ones_ct(&base), count_ones(&base));
    }
}

#[test]
fn arithmetic_lifts_reduce_mod_q() {
    let mut a = PolyVec::<2>::zero();
    let mut b = PolyVec::<2>::zero();
    a.v[0].coeffs[0] = Q - 1;
    b.v[0].coeffs[0] = 2;
    a.v[1].coeffs[5] = 3;
    b.v[1].coeffs[5] = 10;
    let s = add_vec(&a, &b);
    let d = sub_vec(&a, &b);
    let n = neg_vec(&a);
    assert_eq!(s.v[0].coeffs[0], 1);
    assert_eq!(d.v[1].coeffs[5], Q - 7);
    assert_eq!(n.v[0].coeffs[0], 1);
    assert_eq!(n.v[1].coeffs[0], 0);
    let c = center_vec(&d);
    assert_eq!(c.v[1].coeffs[5], -7);
    assert_eq!(c.v[0].coeffs[0], -3);
}

#[test]
fn norm_and_count_known_values() {
    let mut v = PolyVec::<2>::zero();
    assert_eq!(inf_norm(&v), 0);
    v.v[0].coeffs[3] = Q - 5; // centred −5
    v.v[1].coeffs[9] = 4;
    assert_eq!(inf_norm(&v), 5);
    assert_eq!(count_ones(&v), 2);
    let mut h = PolyVec::<2>::zero();
    h.v[1].coeffs[0] = 1;
    h.v[1].coeffs[255] = 1;
    assert_eq!(count_ones_ct(&h), 2);
}

#[test]
fn ntt_lifts_round_trip_and_fast_paths_agree() {
    let mut rng = XorShift(0x1357_2468_1357_2468);
    let v = random_vec(&mut rng);
    let h = ntt_vec(&v);
    assert_eq!(ntt_vec_fast(&v).v, h.v);
    assert_eq!(inv_ntt_vec(&h).v, v.v);
    assert_eq!(inv_ntt_vec_fast(&h).v, v.v);
}

#[test]
fn power2round_and_hint_lifts() {
    let mut rng = XorShift(0x9999_8888_7777_6666);
    let v = random_vec(&mut rng);
    let (t1, t0) = power2round_vec(&v);
    for i in 0..3 {
        for j in 0..256 {
            assert_eq!(t1.v[i].coeffs[j] * 8192 + t0.v[i].coeffs[j], v.v[i].coeffs[j]);
        }
    }
    let zero = PolyVec::<3>::zero();
    assert_eq!(use_hint_vec::<MlDsa65, 3>(&zero, &v).v, high_bits_vec::<MlDsa65, 3>(&v).v);
}
