//! FIPS 204 §7.6 — linear algebra in the NTT domain `T_q` (plain mod q), with
//! division-free counterparts on the improved path.
use crate::ct::{caddq, csubq};
use crate::field::{montgomery_reduce, mod_q, reduce_q, R2};
use crate::params::{N, Q};
use crate::poly::{PolyMatNTT, PolyNTT, PolyVecNTT};
use vstd::prelude::*;

verus! {

/// `2^32 · 8265825 ≡ 1 (mod q)`: the Montgomery radix is invertible.
pub proof fn lemma_radix_inverse()
    ensures
        (0x1_0000_0000int * 8265825) % (Q as int) == 1,
{
}

/// Dividing out the Montgomery radix: `x·2^32 ≡ y·2^32` implies `x ≡ y (mod q)`.
pub proof fn lemma_cancel_radix(x: int, y: int)
    requires
        (x * 0x1_0000_0000 - y * 0x1_0000_0000) % (Q as int) == 0,
    ensures
        mod_q(x) == mod_q(y),
{
    let q = Q as int;
    let d = x - y;
    assert(x * 0x1_0000_0000 - y * 0x1_0000_0000 == d * 0x1_0000_0000) by (nonlinear_arith)
        requires
            d == x - y,
    ;
    vstd::arithmetic::div_mod::lemma_mul_mod_noop_left(d * 0x1_0000_0000, 8265825, q);
    assert((d * 0x1_0000_0000) * 8265825 == d * (0x1_0000_0000int * 8265825)) by (nonlinear_arith);
    vstd::arithmetic::div_mod::lemma_mul_mod_noop_right(d, 0x1_0000_0000int * 8265825, q);
    lemma_radix_inverse();
    assert(mod_q(d) == 0);
    vstd::arithmetic::div_mod::lemma_mod_add_multiples_vanish(d, q);
    vstd::arithmetic::div_mod::lemma_fundamental_div_mod(d, q);
    vstd::arithmetic::div_mod::lemma_mod_multiples_vanish(d / q, y, q);
    assert(x == q * (d / q) + y);
}

/// A value of `(-q, q)` lifted by [`caddq`] is the canonical residue.
pub proof fn lemma_caddq_residue(t: int)
    requires
        -Q < t < Q,
    ensures
        mod_q(if t < 0 { t + Q } else { t }) == mod_q(t),
        0 <= (if t < 0 { t + Q } else { t }) < Q,
        (if t < 0 { t + Q } else { t }) == mod_q(t),
{
    vstd::arithmetic::div_mod::lemma_mod_add_multiples_vanish(t, Q as int);
    let u = if t < 0 { t + Q } else { t };
    vstd::arithmetic::div_mod::lemma_small_mod(u as nat, Q as nat);
}

/// `(a − b) mod q = 0` exactly when `a` and `b` are congruent.
pub proof fn lemma_cong_zero(a: int, b: int)
    ensures
        (a - b) % (Q as int) == 0 <==> mod_q(a) == mod_q(b),
{
    vstd::arithmetic::div_mod::lemma_sub_mod_noop(a, b, Q as int);
    let d = mod_q(a) - mod_q(b);
    if d < 0 {
        vstd::arithmetic::div_mod::lemma_mod_add_multiples_vanish(d, Q as int);
        vstd::arithmetic::div_mod::lemma_small_mod((d + Q) as nat, Q as nat);
    } else {
        vstd::arithmetic::div_mod::lemma_small_mod(d as nat, Q as nat);
    }
}

/// A Montgomery product with a zeta held in Montgomery form is the plain
/// product modulo `q`: with `zm ≡ z·R` (from `zm·R ≡ z·R2`) and `t·R ≡ zm·a`,
/// `t ≡ z·a`.
pub proof fn lemma_mont_zeta(z: int, zm: int, a: int, t: int)
    requires
        (zm * 0x1_0000_0000 - z * R2) % (Q as int) == 0,
        (t * 0x1_0000_0000 - zm * a) % (Q as int) == 0,
    ensures
        mod_q(t) == mod_q(z * a),
{
    let q = Q as int;
    let r = 0x1_0000_0000int;
    crate::field::lemma_montgomery_constants();
    lemma_cong_zero(zm * r, z * R2);
    vstd::arithmetic::div_mod::lemma_small_mod(R2 as nat, q as nat);
    assert(r * r == 0x1_0000_0000_0000_0000int) by (nonlinear_arith)
        requires
            r == 0x1_0000_0000int,
    ;
    vstd::arithmetic::div_mod::lemma_mul_mod_noop_right(z, R2 as int, q);
    vstd::arithmetic::div_mod::lemma_mul_mod_noop_right(z, r * r, q);
    assert(z * (r * r) == (z * r) * r) by (nonlinear_arith);
    lemma_cong_zero(zm * r, (z * r) * r);
    lemma_cancel_radix(zm, z * r);
    lemma_cong_zero(t * r, zm * a);
    vstd::arithmetic::div_mod::lemma_mul_mod_noop_left(zm, a, q);
    vstd::arithmetic::div_mod::lemma_mul_mod_noop_left(z * r, a, q);
    assert((z * r) * a == (z * a) * r) by (nonlinear_arith);
    lemma_cong_zero(t * r, (z * a) * r);
    lemma_cancel_radix(t, z * a);
}

/// Two Montgomery reductions, the second against `R² mod q`, give back the plain
/// product modulo `q`.
pub proof fn lemma_mont_twice(xy: int, t: int, u: int)
    requires
        (t * 0x1_0000_0000 - xy) % (Q as int) == 0,
        (u * 0x1_0000_0000 - t * R2) % (Q as int) == 0,
    ensures
        mod_q(u) == mod_q(xy),
{
    let q = Q as int;
    let r = 0x1_0000_0000int;
    crate::field::lemma_montgomery_constants();
    // u·R ≡ t·R2 ≡ t·R·R ≡ xy·R
    vstd::arithmetic::div_mod::lemma_mul_mod_noop_right(t, R2 as int, q);
    vstd::arithmetic::div_mod::lemma_mul_mod_noop_right(t, r * r, q);
    assert(r * r == 0x1_0000_0000_0000_0000int) by (nonlinear_arith)
        requires
            r == 0x1_0000_0000int,
    ;
    assert(t * (r * r) == (t * r) * r) by (nonlinear_arith);
    vstd::arithmetic::div_mod::lemma_small_mod(R2 as nat, q as nat);
    // (t·R − xy) ≡ 0 gives (t·R)·R ≡ xy·R
    vstd::arithmetic::div_mod::lemma_mul_mod_noop_left(t * r - xy, r, q);
    assert((t * r - xy) * r == (t * r) * r - xy * r) by (nonlinear_arith);
    vstd::arithmetic::div_mod::lemma_fundamental_div_mod(u * r - t * R2, q);
    vstd::arithmetic::div_mod::lemma_fundamental_div_mod((t * r - xy) * r, q);
    vstd::arithmetic::div_mod::lemma_fundamental_div_mod(t * R2, q);
    vstd::arithmetic::div_mod::lemma_fundamental_div_mod((t * r) * r, q);
    assert((u * r - xy * r) % q == 0) by {
        let k1 = (u * r - t * R2) / q;
        let k2 = ((t * r - xy) * r) / q;
        let k3 = (t * R2) / q;
        let k4 = ((t * r) * r) / q;
        assert(u * r - xy * r == q * (k1 + k2 + k3 - k4)) by (nonlinear_arith)
            requires
                u * r - t * R2 == q * k1,
                (t * r - xy) * r == q * k2,
                (t * r) * r - xy * r == (t * r - xy) * r,
                t * R2 == q * k3 + (t * R2) % q,
                (t * r) * r == q * k4 + ((t * r) * r) % q,
                (t * R2) % q == ((t * r) * r) % q,
        ;
        vstd::arithmetic::div_mod::lemma_mod_multiples_basic(k1 + k2 + k3 - k4, q);
        vstd::arithmetic::mul::lemma_mul_is_commutative(k1 + k2 + k3 - k4, q);
    }
    lemma_cancel_radix(u, xy);
}

/// The coefficients of `a` at index `k`, as an integer.
pub open spec fn cf(a: PolyNTT, k: int) -> int {
    a.coeffs[k] as int
}

/// FIPS 204, Algorithm 44 — AddNTT: componentwise sum in `T_q`.
pub fn add_ntt(a: &PolyNTT, b: &PolyNTT) -> (c: PolyNTT)
    ensures
        forall|i: int| 0 <= i < N ==> (#[trigger] c.coeffs[i]) == mod_q(cf(*a, i) + cf(*b, i)),
{
    let mut c = PolyNTT::zero();
    for i in 0..N
        invariant
            forall|k: int| 0 <= k < i ==> (#[trigger] c.coeffs[k]) == mod_q(cf(*a, k) + cf(*b, k)),
    {
        c.coeffs[i] = reduce_q(a.coeffs[i] as i64 + b.coeffs[i] as i64);
    }
    c
}

/// FIPS 204, Algorithm 45 — MultiplyNTT: componentwise (pointwise) product in `T_q`.
pub fn multiply_ntt(a: &PolyNTT, b: &PolyNTT) -> (c: PolyNTT)
    ensures
        forall|i: int| 0 <= i < N ==> (#[trigger] c.coeffs[i]) == mod_q(cf(*a, i) * cf(*b, i)),
{
    let mut c = PolyNTT::zero();
    for i in 0..N
        invariant
            forall|k: int| 0 <= k < i ==> (#[trigger] c.coeffs[k]) == mod_q(cf(*a, k) * cf(*b, k)),
    {
        let x = a.coeffs[i] as i64;
        let y = b.coeffs[i] as i64;
        assert(-0x4000_0000_0000_0000 <= x * y <= 0x4000_0000_0000_0000) by (nonlinear_arith)
            requires
                -0x8000_0000 <= x < 0x8000_0000,
                -0x8000_0000 <= y < 0x8000_0000,
        ;
        c.coeffs[i] = reduce_q(x * y);
    }
    c
}

/// FIPS 204, Algorithm 46 — AddVectorNTT: sum of two length-`L` vectors over `T_q`.
pub fn add_vector_ntt<const L: usize>(v: &PolyVecNTT<L>, w: &PolyVecNTT<L>) -> (u: PolyVecNTT<L>)
    ensures
        forall|i: int, k: int|
            0 <= i < L && 0 <= k < N ==> (#[trigger] u.v[i].coeffs[k]) == mod_q(
                cf(v.v[i], k) + cf(w.v[i], k),
            ),
{
    let mut u = PolyVecNTT::<L>::zero();
    for i in 0..L
        invariant
            forall|j: int, k: int|
                0 <= j < i && 0 <= k < N ==> (#[trigger] u.v[j].coeffs[k]) == mod_q(
                    cf(v.v[j], k) + cf(w.v[j], k),
                ),
    {
        u.v[i] = add_ntt(&v.v[i], &w.v[i]);
    }
    u
}

/// FIPS 204, Algorithm 47 — ScalarVectorNTT: scalar `c` times a length-`L` vector.
pub fn scalar_vector_ntt<const L: usize>(c: &PolyNTT, v: &PolyVecNTT<L>) -> (w: PolyVecNTT<L>)
    ensures
        forall|i: int, k: int|
            0 <= i < L && 0 <= k < N ==> (#[trigger] w.v[i].coeffs[k]) == mod_q(
                cf(*c, k) * cf(v.v[i], k),
            ),
{
    let mut w = PolyVecNTT::<L>::zero();
    for i in 0..L
        invariant
            forall|j: int, k: int|
                0 <= j < i && 0 <= k < N ==> (#[trigger] w.v[j].coeffs[k]) == mod_q(
                    cf(*c, k) * cf(v.v[j], k),
                ),
    {
        w.v[i] = multiply_ntt(c, &v.v[i]);
    }
    w
}

/// `Σ_{j < upto} row[j][k] · v[j][k]`: coefficient `k` of a row-times-vector product.
pub open spec fn dot_ntt<const L: usize>(
    row: PolyVecNTT<L>,
    v: PolyVecNTT<L>,
    k: int,
    upto: int,
) -> int
    decreases upto,
{
    if upto <= 0 {
        0
    } else {
        dot_ntt(row, v, k, upto - 1) + cf(row.v[upto - 1], k) * cf(v.v[upto - 1], k)
    }
}

/// FIPS 204, Algorithm 48 — MatrixVectorNTT: `K x L` matrix times length-`L` vector.
pub fn matrix_vector_ntt<const K: usize, const L: usize>(
    m: &PolyMatNTT<K, L>,
    v: &PolyVecNTT<L>,
) -> (w: PolyVecNTT<K>)
    ensures
        forall|i: int, k: int|
            0 <= i < K && 0 <= k < N ==> (#[trigger] w.v[i].coeffs[k]) == mod_q(
                dot_ntt(m.rows[i], *v, k, L as int),
            ),
{
    let mut w = PolyVecNTT::<K>::zero();
    for i in 0..K
        invariant
            forall|r: int, k: int|
                0 <= r < i && 0 <= k < N ==> (#[trigger] w.v[r].coeffs[k]) == mod_q(
                    dot_ntt(m.rows[r], *v, k, L as int),
                ),
            forall|r: int| i <= r < K ==> (#[trigger] w.v[r]).coeffs@ == crate::poly::zero_coeffs(),
    {
        proof {
            assert forall|k: int| 0 <= k < N implies (#[trigger] w.v[i as int].coeffs[k]) == mod_q(
                dot_ntt(m.rows[i as int], *v, k, 0),
            ) by {
                assert(w.v[i as int].coeffs@[k] == crate::poly::zero_coeffs()[k]);
            }
        }
        for j in 0..L
            invariant
                i < K,
                forall|r: int, k: int|
                    0 <= r < i && 0 <= k < N ==> (#[trigger] w.v[r].coeffs[k]) == mod_q(
                        dot_ntt(m.rows[r], *v, k, L as int),
                    ),
                forall|r: int| i < r < K ==> (#[trigger] w.v[r]).coeffs@ == crate::poly::zero_coeffs(),
                forall|k: int|
                    0 <= k < N ==> (#[trigger] w.v[i as int].coeffs[k]) == mod_q(
                        dot_ntt(m.rows[i as int], *v, k, j as int),
                    ),
        {
            let p = multiply_ntt(&m.rows[i].v[j], &v.v[j]);
            let ghost before = w.v[i as int];
            w.v[i] = add_ntt(&w.v[i], &p);
            proof {
                assert forall|k: int| 0 <= k < N implies (#[trigger] w.v[i as int].coeffs[k]) == mod_q(
                    dot_ntt(m.rows[i as int], *v, k, j + 1),
                ) by {
                    let d = dot_ntt(m.rows[i as int], *v, k, j as int);
                    let x = cf(m.rows[i as int].v[j as int], k) * cf(v.v[j as int], k);
                    vstd::arithmetic::div_mod::lemma_add_mod_noop(d, x, Q as int);
                    vstd::arithmetic::div_mod::lemma_mod_twice(d, Q as int);
                    vstd::arithmetic::div_mod::lemma_mod_twice(x, Q as int);
                    vstd::arithmetic::div_mod::lemma_add_mod_noop(mod_q(d), x, Q as int);
                }
            }
        }
        proof {
            assert forall|k: int| 0 <= k < N implies (#[trigger] w.v[i as int].coeffs[k]) == mod_q(
                dot_ntt(m.rows[i as int], *v, k, L as int),
            ) by {}
        }
    }
    w
}

/// [`add_ntt`] without division: one conditional subtract of `q` on the sum,
/// which is the sum modulo `q` when both inputs are canonical.
pub fn add_ntt_fast(a: &PolyNTT, b: &PolyNTT) -> (c: PolyNTT)
    requires
        forall|i: int|
            0 <= i < N ==> i32::MIN + Q <= #[trigger] cf(*a, i) + cf(*b, i) <= i32::MAX,
    ensures
        forall|i: int|
            0 <= i < N ==> (#[trigger] c.coeffs[i]) == if cf(*a, i) + cf(*b, i) >= Q {
                cf(*a, i) + cf(*b, i) - Q
            } else {
                cf(*a, i) + cf(*b, i)
            },
        forall|i: int|
            0 <= i < N && 0 <= cf(*a, i) < Q && 0 <= cf(*b, i) < Q ==> (#[trigger] c.coeffs[i])
                == mod_q(cf(*a, i) + cf(*b, i)),
{
    let mut c = PolyNTT::zero();
    for i in 0..N
        invariant
            forall|i: int|
                0 <= i < N ==> i32::MIN + Q <= #[trigger] cf(*a, i) + cf(*b, i) <= i32::MAX,
            forall|k: int|
                0 <= k < i ==> (#[trigger] c.coeffs[k]) == if cf(*a, k) + cf(*b, k) >= Q {
                    cf(*a, k) + cf(*b, k) - Q
                } else {
                    cf(*a, k) + cf(*b, k)
                },
    {
        assert(i32::MIN + Q <= cf(*a, i as int) + cf(*b, i as int) <= i32::MAX);
        c.coeffs[i] = csubq(a.coeffs[i] + b.coeffs[i]);
    }
    proof {
        assert forall|i: int|
            0 <= i < N && 0 <= cf(*a, i) < Q && 0 <= cf(*b, i) < Q implies (#[trigger] c.coeffs[i])
            == mod_q(cf(*a, i) + cf(*b, i)) by {
            let x = cf(*a, i) + cf(*b, i);
            if x >= Q {
                vstd::arithmetic::div_mod::lemma_mod_sub_multiples_vanish(x, Q as int);
                vstd::arithmetic::div_mod::lemma_small_mod((x - Q) as nat, Q as nat);
            } else {
                vstd::arithmetic::div_mod::lemma_small_mod(x as nat, Q as nat);
            }
        }
    }
    c
}

/// Products that one Montgomery reduction accepts.
pub open spec fn products_fit(a: PolyNTT, b: PolyNTT) -> bool {
    forall|i: int|
        0 <= i < N ==> -0x8000_0000 * (Q as int) < #[trigger] (cf(a, i) * cf(b, i)) < 0x8000_0000
            * (Q as int)
}

/// [`multiply_ntt`] without division: `montgomery_reduce(a·b)` is `ab·R^{-1}`, a
/// second reduction against `R² mod q` cancels the `R^{-1}`, and `caddq` lifts the
/// result to `[0, q)`.
pub fn multiply_ntt_fast(a: &PolyNTT, b: &PolyNTT) -> (c: PolyNTT)
    requires
        products_fit(*a, *b),
    ensures
        forall|i: int| 0 <= i < N ==> (#[trigger] c.coeffs[i]) == mod_q(cf(*a, i) * cf(*b, i)),
{
    let mut c = PolyNTT::zero();
    for i in 0..N
        invariant
            products_fit(*a, *b),
            forall|k: int| 0 <= k < i ==> (#[trigger] c.coeffs[k]) == mod_q(cf(*a, k) * cf(*b, k)),
    {
        let x = a.coeffs[i] as i64;
        let y = b.coeffs[i] as i64;
        assert(-0x8000_0000 * (Q as int) < cf(*a, i as int) * cf(*b, i as int) < 0x8000_0000 * (
        Q as int));
        let t = montgomery_reduce(x * y);
        assert(-Q * Q < t * R2 < Q * Q) by (nonlinear_arith)
            requires
                -8380417 < t < 8380417,
                R2 == 2365951,
        ;
        let u = montgomery_reduce(t as i64 * R2);
        proof {
            lemma_mont_twice(x * y, t as int, u as int);
            lemma_caddq_residue(u as int);
        }
        c.coeffs[i] = caddq(u);
    }
    c
}

/// [`add_vector_ntt`] on the fast component.
pub fn add_vector_ntt_fast<const L: usize>(v: &PolyVecNTT<L>, w: &PolyVecNTT<L>) -> (u:
    PolyVecNTT<L>)
    requires
        forall|i: int, k: int|
            0 <= i < L && 0 <= k < N ==> 0 <= #[trigger] cf(v.v[i], k) < Q && 0 <= cf(w.v[i], k)
                < Q,
    ensures
        forall|i: int, k: int|
            0 <= i < L && 0 <= k < N ==> (#[trigger] u.v[i].coeffs[k]) == mod_q(
                cf(v.v[i], k) + cf(w.v[i], k),
            ),
{
    let mut u = PolyVecNTT::<L>::zero();
    for i in 0..L
        invariant
            forall|i: int, k: int|
                0 <= i < L && 0 <= k < N ==> 0 <= #[trigger] cf(v.v[i], k) < Q && 0 <= cf(w.v[i], k)
                    < Q,
            forall|j: int, k: int|
                0 <= j < i && 0 <= k < N ==> (#[trigger] u.v[j].coeffs[k]) == mod_q(
                    cf(v.v[j], k) + cf(w.v[j], k),
                ),
    {
        proof {
            assert forall|k: int| 0 <= k < N implies i32::MIN + Q <= #[trigger] cf(v.v[i as int], k)
                + cf(w.v[i as int], k) <= i32::MAX by {
                assert(0 <= cf(v.v[i as int], k) < Q && 0 <= cf(w.v[i as int], k) < Q);
            }
        }
        u.v[i] = add_ntt_fast(&v.v[i], &w.v[i]);
        proof {
            assert forall|k: int| 0 <= k < N implies (#[trigger] u.v[i as int].coeffs[k]) == mod_q(
                cf(v.v[i as int], k) + cf(w.v[i as int], k),
            ) by {
                assert(0 <= cf(v.v[i as int], k) < Q && 0 <= cf(w.v[i as int], k) < Q);
            }
        }
    }
    u
}

/// Canonical operands always fit one Montgomery reduction.
pub proof fn lemma_canonical_products_fit(a: PolyNTT, b: PolyNTT)
    requires
        forall|k: int| 0 <= k < N ==> 0 <= #[trigger] cf(a, k) < Q,
        forall|k: int| 0 <= k < N ==> 0 <= #[trigger] cf(b, k) < Q,
    ensures
        products_fit(a, b),
{
    assert forall|i: int| 0 <= i < N implies -0x8000_0000 * (Q as int) < #[trigger] (cf(a, i) * cf(
        b,
        i,
    )) < 0x8000_0000 * (Q as int) by {
        let x = cf(a, i);
        let y = cf(b, i);
        assert(0 <= x * y < 0x8000_0000 * (Q as int)) by (nonlinear_arith)
            requires
                0 <= x < 8380417,
                0 <= y < 8380417,
        ;
    }
}

/// [`scalar_vector_ntt`] on the fast component.
pub fn scalar_vector_ntt_fast<const L: usize>(c: &PolyNTT, v: &PolyVecNTT<L>) -> (w: PolyVecNTT<L>)
    requires
        forall|k: int| 0 <= k < N ==> 0 <= #[trigger] cf(*c, k) < Q,
        forall|i: int, k: int| 0 <= i < L && 0 <= k < N ==> 0 <= #[trigger] cf(v.v[i], k) < Q,
    ensures
        forall|i: int, k: int|
            0 <= i < L && 0 <= k < N ==> (#[trigger] w.v[i].coeffs[k]) == mod_q(
                cf(*c, k) * cf(v.v[i], k),
            ),
{
    let mut w = PolyVecNTT::<L>::zero();
    for i in 0..L
        invariant
            forall|k: int| 0 <= k < N ==> 0 <= #[trigger] cf(*c, k) < Q,
            forall|i: int, k: int| 0 <= i < L && 0 <= k < N ==> 0 <= #[trigger] cf(v.v[i], k) < Q,
            forall|j: int, k: int|
                0 <= j < i && 0 <= k < N ==> (#[trigger] w.v[j].coeffs[k]) == mod_q(
                    cf(*c, k) * cf(v.v[j], k),
                ),
    {
        proof {
            assert forall|k: int| 0 <= k < N implies 0 <= #[trigger] cf(v.v[i as int], k) < Q by {}
            lemma_canonical_products_fit(*c, v.v[i as int]);
        }
        w.v[i] = multiply_ntt_fast(c, &v.v[i]);
    }
    w
}

/// [`matrix_vector_ntt`] on the fast components.
pub fn matrix_vector_ntt_fast<const K: usize, const L: usize>(
    m: &PolyMatNTT<K, L>,
    v: &PolyVecNTT<L>,
) -> (w: PolyVecNTT<K>)
    requires
        forall|i: int, j: int, k: int|
            0 <= i < K && 0 <= j < L && 0 <= k < N ==> 0 <= #[trigger] cf(m.rows[i].v[j], k) < Q,
        forall|j: int, k: int| 0 <= j < L && 0 <= k < N ==> 0 <= #[trigger] cf(v.v[j], k) < Q,
    ensures
        forall|i: int, k: int|
            0 <= i < K && 0 <= k < N ==> (#[trigger] w.v[i].coeffs[k]) == mod_q(
                dot_ntt(m.rows[i], *v, k, L as int),
            ),
{
    let mut w = PolyVecNTT::<K>::zero();
    for i in 0..K
        invariant
            forall|i: int, j: int, k: int|
                0 <= i < K && 0 <= j < L && 0 <= k < N ==> 0 <= #[trigger] cf(m.rows[i].v[j], k)
                    < Q,
            forall|j: int, k: int| 0 <= j < L && 0 <= k < N ==> 0 <= #[trigger] cf(v.v[j], k) < Q,
            forall|r: int, k: int|
                0 <= r < i && 0 <= k < N ==> (#[trigger] w.v[r].coeffs[k]) == mod_q(
                    dot_ntt(m.rows[r], *v, k, L as int),
                ),
            forall|r: int| i <= r < K ==> (#[trigger] w.v[r]).coeffs@ == crate::poly::zero_coeffs(),
    {
        proof {
            assert forall|k: int| 0 <= k < N implies (#[trigger] w.v[i as int].coeffs[k]) == mod_q(
                dot_ntt(m.rows[i as int], *v, k, 0),
            ) by {
                assert(w.v[i as int].coeffs@[k] == crate::poly::zero_coeffs()[k]);
            }
        }
        for j in 0..L
            invariant
                i < K,
                forall|i: int, j: int, k: int|
                    0 <= i < K && 0 <= j < L && 0 <= k < N ==> 0 <= #[trigger] cf(
                        m.rows[i].v[j],
                        k,
                    ) < Q,
                forall|j: int, k: int|
                    0 <= j < L && 0 <= k < N ==> 0 <= #[trigger] cf(v.v[j], k) < Q,
                forall|r: int, k: int|
                    0 <= r < i && 0 <= k < N ==> (#[trigger] w.v[r].coeffs[k]) == mod_q(
                        dot_ntt(m.rows[r], *v, k, L as int),
                    ),
                forall|r: int| i < r < K ==> (#[trigger] w.v[r]).coeffs@ == crate::poly::zero_coeffs(),
                forall|k: int|
                    0 <= k < N ==> (#[trigger] w.v[i as int].coeffs[k]) == mod_q(
                        dot_ntt(m.rows[i as int], *v, k, j as int),
                    ),
        {
            proof {
                assert forall|k: int| 0 <= k < N implies 0 <= #[trigger] cf(
                    m.rows[i as int].v[j as int],
                    k,
                ) < Q by {}
                assert forall|k: int| 0 <= k < N implies 0 <= #[trigger] cf(v.v[j as int], k) < Q by {}
                lemma_canonical_products_fit(m.rows[i as int].v[j as int], v.v[j as int]);
            }
            let p = multiply_ntt_fast(&m.rows[i].v[j], &v.v[j]);
            proof {
                assert forall|k: int| 0 <= k < N implies i32::MIN + Q <= #[trigger] cf(
                    w.v[i as int],
                    k,
                ) + cf(p, k) <= i32::MAX by {
                    assert(0 <= cf(w.v[i as int], k) < Q);
                    assert(0 <= cf(p, k) < Q);
                }
            }
            let ghost before = w.v[i as int];
            w.v[i] = add_ntt_fast(&w.v[i], &p);
            proof {
                assert forall|k: int| 0 <= k < N implies (#[trigger] w.v[i as int].coeffs[k]) == mod_q(
                    dot_ntt(m.rows[i as int], *v, k, j + 1),
                ) by {
                    assert(0 <= cf(before, k) < Q);
                    assert(0 <= cf(p, k) < Q);
                    let d = dot_ntt(m.rows[i as int], *v, k, j as int);
                    let x = cf(m.rows[i as int].v[j as int], k) * cf(v.v[j as int], k);
                    vstd::arithmetic::div_mod::lemma_add_mod_noop(d, x, Q as int);
                    vstd::arithmetic::div_mod::lemma_mod_twice(d, Q as int);
                    vstd::arithmetic::div_mod::lemma_mod_twice(x, Q as int);
                    vstd::arithmetic::div_mod::lemma_add_mod_noop(mod_q(d), x, Q as int);
                }
            }
        }
        proof {
            assert forall|k: int| 0 <= k < N implies (#[trigger] w.v[i as int].coeffs[k]) == mod_q(
                dot_ntt(m.rows[i as int], *v, k, L as int),
            ) by {}
        }
    }
    w
}

} // verus!
