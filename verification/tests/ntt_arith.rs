use ml_dsa::ntt::{inv_ntt, ntt};
use ml_dsa::ntt_arith::{
    add_ntt, add_ntt_fast, add_vector_ntt, add_vector_ntt_fast, matrix_vector_ntt,
    matrix_vector_ntt_fast, multiply_ntt, multiply_ntt_fast, scalar_vector_ntt,
    scalar_vector_ntt_fast,
};
use ml_dsa::params::{N, Q};
use ml_dsa::poly::{Poly, PolyMatNTT, PolyNTT, PolyVecNTT};

#[test]
fn add_ntt_is_componentwise() {
    let mut a = PolyNTT::zero();
    let mut b = PolyNTT::zero();
    a.coeffs[0] = Q - 1;
    b.coeffs[0] = 5;
    assert_eq!(add_ntt(&a, &b).coeffs[0], 4); // (q-1)+5 = q+4 ≡ 4
}

/// MatrixVectorNTT over a 1x1 matrix must equal a single pointwise product,
/// and inverse-transform to the schoolbook product of the two operands.
#[test]
fn matrix_vector_1x1_matches_pointwise() {
    let mut a = Poly::zero();
    let mut b = Poly::zero();
    a.coeffs[1] = 3;
    b.coeffs[2] = 7; // product should be 21 * X^3
    let mat = PolyMatNTT::<1, 1> { rows: [PolyVecNTT::<1> { v: [ntt(&a)] }] };
    let vec = PolyVecNTT::<1> { v: [ntt(&b)] };
    let out = matrix_vector_ntt(&mat, &vec);
    let prod = inv_ntt(&out.v[0]);
    let mut expected = Poly::zero();
    expected.coeffs[3] = 21;
    assert_eq!(prod.coeffs, expected.coeffs);
}

struct XorShift(u64);
impl XorShift {
    fn next_u32(&mut self) -> u32 {
        let mut x = self.0;
        x ^= x << 13;
        x ^= x >> 7;
        x ^= x << 17;
        self.0 = x;
        (x >> 32) as u32
    }
}

fn random_ntt_poly(rng: &mut XorShift) -> PolyNTT {
    let mut p = PolyNTT::zero();
    for c in p.coeffs.iter_mut() {
        *c = (rng.next_u32() % Q as u32) as i32;
    }
    p
}

/// The fast pointwise ops must be value-equal to the baseline on canonical
/// inputs, including the boundary pattern all-(q−1) that maximizes products.
#[test]
fn fast_arith_equals_baseline() {
    let mut rng = XorShift(0x0123_4567_89ab_cdef);
    let all_max = PolyNTT { coeffs: [Q - 1; N] };
    let mut cases: Vec<(PolyNTT, PolyNTT)> = vec![(all_max, all_max), (PolyNTT::zero(), all_max)];
    for _ in 0..100 {
        cases.push((random_ntt_poly(&mut rng), random_ntt_poly(&mut rng)));
    }
    for (a, b) in cases {
        assert_eq!(add_ntt_fast(&a, &b).coeffs, add_ntt(&a, &b).coeffs);
        assert_eq!(multiply_ntt_fast(&a, &b).coeffs, multiply_ntt(&a, &b).coeffs);
    }
}

#[test]
fn fast_matrix_vector_equals_baseline() {
    let mut rng = XorShift(0xfeed_f00d_dead_10cc);
    for _ in 0..10 {
        let m = PolyMatNTT::<2, 3> {
            rows: [
                PolyVecNTT::<3> {
                    v: [random_ntt_poly(&mut rng), random_ntt_poly(&mut rng), random_ntt_poly(&mut rng)],
                },
                PolyVecNTT::<3> {
                    v: [random_ntt_poly(&mut rng), random_ntt_poly(&mut rng), random_ntt_poly(&mut rng)],
                },
            ],
        };
        let v = PolyVecNTT::<3> {
            v: [random_ntt_poly(&mut rng), random_ntt_poly(&mut rng), random_ntt_poly(&mut rng)],
        };
        let fast = matrix_vector_ntt_fast(&m, &v);
        let base = matrix_vector_ntt(&m, &v);
        for i in 0..2 {
            assert_eq!(fast.v[i].coeffs, base.v[i].coeffs);
        }
    }
}

#[test]
fn multiply_ntt_known_products() {
    let mut a = PolyNTT::zero();
    let mut b = PolyNTT::zero();
    a.coeffs[0] = Q - 1; // −1
    b.coeffs[0] = Q - 1; // −1
    a.coeffs[1] = 1 << 20;
    b.coeffs[1] = 1 << 20; // 2^40 mod q
    let c = multiply_ntt(&a, &b);
    assert_eq!(c.coeffs[0], 1);
    assert_eq!(c.coeffs[1] as i64, (1i64 << 40) % Q as i64);
    assert_eq!(c.coeffs[2], 0);
}

#[test]
fn vector_ops_are_componentwise() {
    let mut rng = XorShift(0x7777_1111_2222_3333);
    let c = random_ntt_poly(&mut rng);
    let v = PolyVecNTT::<2> { v: [random_ntt_poly(&mut rng), random_ntt_poly(&mut rng)] };
    let w = PolyVecNTT::<2> { v: [random_ntt_poly(&mut rng), random_ntt_poly(&mut rng)] };
    let sum = add_vector_ntt(&v, &w);
    let scaled = scalar_vector_ntt(&c, &v);
    for i in 0..2 {
        assert_eq!(sum.v[i].coeffs, add_ntt(&v.v[i], &w.v[i]).coeffs);
        assert_eq!(scaled.v[i].coeffs, multiply_ntt(&c, &v.v[i]).coeffs);
    }
    assert_eq!(add_vector_ntt_fast(&v, &w).v, sum.v);
    assert_eq!(scalar_vector_ntt_fast(&c, &v).v, scaled.v);
}
