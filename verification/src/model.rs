//! Mathematical models of vectors and matrices of polynomials (`Seq<Seq<int>>`), the
//! operations of FIPS 204 on them, and the facts that tie each vector routine's result to
//! its model. The key generation, signing and verification contracts are stated over
//! these models.
use crate::field::{mod_pm_spec, mod_q};
use crate::ntt::{coeffs_int, inv_ntt_spec, ntt_spec};
use crate::ntt_arith::{cf, dot_ntt};
use crate::params::{N, Q};
use crate::poly::{Poly, PolyMatNTT, PolyVec, PolyVecNTT};
use crate::rounding::{
    bool_to_int, high_bits_spec, low_bits_spec, make_hint_spec, power2round_spec, use_hint_spec,
};
use crate::vecops::{centered_abs, vc};
use vstd::prelude::*;

verus! {

/// The model of a vector of polynomials: its coefficients as integers.
pub open spec fn pv<const M: usize>(v: PolyVec<M>) -> Seq<Seq<int>> {
    Seq::new(M as nat, |i: int| coeffs_int(v.v[i].coeffs))
}

/// The model of a vector of NTT-domain polynomials.
pub open spec fn pvn<const M: usize>(v: PolyVecNTT<M>) -> Seq<Seq<int>> {
    Seq::new(M as nat, |i: int| coeffs_int(v.v[i].coeffs))
}

/// The model of a matrix of NTT-domain polynomials, row by row.
pub open spec fn pmn<const K: usize, const L: usize>(m: PolyMatNTT<K, L>) -> Seq<Seq<Seq<int>>> {
    Seq::new(K as nat, |i: int| pvn(m.rows[i]))
}

/// Two models with the same shape and entries are equal.
pub proof fn lemma_model_eq(a: Seq<Seq<int>>, b: Seq<Seq<int>>)
    requires
        a.len() == b.len(),
        forall|i: int| 0 <= i < a.len() ==> (#[trigger] a[i]).len() == b[i].len(),
        forall|i: int, k: int| 0 <= i < a.len() && 0 <= k < a[i].len() ==> #[trigger] a[i][k] == b[i][k],
    ensures
        a == b,
{
    assert forall|i: int| 0 <= i < a.len() implies #[trigger] a[i] == b[i] by {
        assert(a[i] =~= b[i]);
    }
    assert(a =~= b);
}

/// Entry `(i, k)` of a vector built coefficient by coefficient.
pub open spec fn build(m: nat, f: spec_fn(int, int) -> int) -> Seq<Seq<int>> {
    Seq::new(m, |i: int| Seq::new(N as nat, |k: int| f(i, k)))
}

/// NTT of each polynomial.
pub open spec fn m_ntt(v: Seq<Seq<int>>) -> Seq<Seq<int>> {
    Seq::new(v.len(), |i: int| ntt_spec(v[i]))
}

/// Inverse NTT of each polynomial.
pub open spec fn m_inv_ntt(v: Seq<Seq<int>>) -> Seq<Seq<int>> {
    Seq::new(v.len(), |i: int| inv_ntt_spec(v[i]))
}

/// `a + b mod q`, coefficient by coefficient.
pub open spec fn m_add(a: Seq<Seq<int>>, b: Seq<Seq<int>>) -> Seq<Seq<int>> {
    build(a.len(), |i: int, k: int| mod_q(a[i][k] + b[i][k]))
}

/// `a − b mod q`, coefficient by coefficient.
pub open spec fn m_sub(a: Seq<Seq<int>>, b: Seq<Seq<int>>) -> Seq<Seq<int>> {
    build(a.len(), |i: int, k: int| mod_q(a[i][k] - b[i][k]))
}

/// `−a mod q`, coefficient by coefficient.
pub open spec fn m_neg(a: Seq<Seq<int>>) -> Seq<Seq<int>> {
    build(a.len(), |i: int, k: int| mod_q(-a[i][k]))
}

/// `a mod± q`, coefficient by coefficient.
pub open spec fn m_center(a: Seq<Seq<int>>) -> Seq<Seq<int>> {
    build(a.len(), |i: int, k: int| mod_pm_spec(a[i][k], Q as int))
}

/// The high part of Power2Round, coefficient by coefficient.
pub open spec fn m_power2round_hi(a: Seq<Seq<int>>) -> Seq<Seq<int>> {
    build(a.len(), |i: int, k: int| power2round_spec(a[i][k]).0)
}

/// The low part of Power2Round, coefficient by coefficient.
pub open spec fn m_power2round_lo(a: Seq<Seq<int>>) -> Seq<Seq<int>> {
    build(a.len(), |i: int, k: int| power2round_spec(a[i][k]).1)
}

/// HighBits, coefficient by coefficient.
pub open spec fn m_high_bits(a: Seq<Seq<int>>, gamma2: int) -> Seq<Seq<int>> {
    build(a.len(), |i: int, k: int| high_bits_spec(a[i][k], gamma2))
}

/// LowBits, coefficient by coefficient.
pub open spec fn m_low_bits(a: Seq<Seq<int>>, gamma2: int) -> Seq<Seq<int>> {
    build(a.len(), |i: int, k: int| low_bits_spec(a[i][k], gamma2))
}

/// MakeHint (`0`/`1`), coefficient by coefficient.
pub open spec fn m_make_hint(z: Seq<Seq<int>>, r: Seq<Seq<int>>, gamma2: int) -> Seq<Seq<int>> {
    build(z.len(), |i: int, k: int| bool_to_int(make_hint_spec(z[i][k], r[i][k], gamma2)))
}

/// UseHint, coefficient by coefficient.
pub open spec fn m_use_hint(h: Seq<Seq<int>>, r: Seq<Seq<int>>, gamma2: int) -> Seq<Seq<int>> {
    build(h.len(), |i: int, k: int| use_hint_spec(h[i][k] != 0, r[i][k], gamma2))
}

/// `c ∘ v_i mod q` for each polynomial of `v` (NTT domain).
pub open spec fn m_scalar(c: Seq<int>, v: Seq<Seq<int>>) -> Seq<Seq<int>> {
    build(v.len(), |i: int, k: int| mod_q(c[k] * v[i][k]))
}

/// `Σ_{s < upto} row_s[k] · v_s[k]`.
pub open spec fn m_dot(row: Seq<Seq<int>>, v: Seq<Seq<int>>, k: int, upto: int) -> int
    decreases upto,
{
    if upto <= 0 {
        0
    } else {
        m_dot(row, v, k, upto - 1) + row[upto - 1][k] * v[upto - 1][k]
    }
}

/// `Â ∘ v mod q` (NTT domain).
pub open spec fn m_matvec(a: Seq<Seq<Seq<int>>>, v: Seq<Seq<int>>) -> Seq<Seq<int>> {
    build(a.len(), |i: int, k: int| mod_q(m_dot(a[i], v, k, v.len() as int)))
}

/// Every coefficient's centred magnitude is below `bound`.
pub open spec fn m_norm_below(a: Seq<Seq<int>>, bound: int) -> bool {
    forall|i: int, k: int| 0 <= i < a.len() && 0 <= k < N ==> centered_abs(#[trigger] a[i][k]) < bound
}

/// An NTT-domain vector's model, given its coefficients.
pub proof fn lemma_pvn_build<const M: usize>(out: PolyVecNTT<M>, f: spec_fn(int, int) -> int)
    requires
        forall|i: int, k: int| 0 <= i < M && 0 <= k < N ==> #[trigger] cf(out.v[i], k) == f(i, k),
    ensures
        pvn(out) == build(M as nat, f),
{
    assert forall|i: int, k: int| 0 <= i < M && 0 <= k < N implies #[trigger] pvn(out)[i][k]
        == build(M as nat, f)[i][k] by {
        assert(cf(out.v[i], k) == f(i, k));
    }
    lemma_model_eq(pvn(out), build(M as nat, f));
}

/// The model of a vector transformed polynomial by polynomial by the NTT.
pub proof fn lemma_ntt_model<const M: usize>(v: PolyVec<M>, out: PolyVecNTT<M>)
    requires
        forall|i: int|
            0 <= i < M ==> coeffs_int((#[trigger] out.v[i]).coeffs) == ntt_spec(
                coeffs_int(v.v[i].coeffs),
            ),
    ensures
        pvn(out) == m_ntt(pv(v)),
{
    assert forall|i: int| 0 <= i < M implies #[trigger] pvn(out)[i] == m_ntt(pv(v))[i] by {
        assert(out.v[i] == out.v[i]);
    }
    assert(pvn(out) =~= m_ntt(pv(v)));
}

/// The model of a vector transformed polynomial by polynomial by the inverse NTT.
pub proof fn lemma_inv_ntt_model<const M: usize>(v: PolyVecNTT<M>, out: PolyVec<M>)
    requires
        forall|i: int|
            0 <= i < M ==> coeffs_int((#[trigger] out.v[i]).coeffs) == inv_ntt_spec(
                coeffs_int(v.v[i].coeffs),
            ),
    ensures
        pv(out) == m_inv_ntt(pvn(v)),
{
    assert forall|i: int| 0 <= i < M implies #[trigger] pv(out)[i] == m_inv_ntt(pvn(v))[i] by {
        assert(out.v[i] == out.v[i]);
    }
    assert(pv(out) =~= m_inv_ntt(pvn(v)));
}

/// The model's dot product is the one MatrixVectorNTT computes.
proof fn lemma_dot_model<const L: usize>(row: PolyVecNTT<L>, v: PolyVecNTT<L>, k: int, upto: int)
    requires
        upto <= L,
        0 <= k < N,
    ensures
        m_dot(pvn(row), pvn(v), k, upto) == dot_ntt(row, v, k, upto),
    decreases upto,
{
    if upto > 0 {
        lemma_dot_model(row, v, k, upto - 1);
    }
}

/// The model of MatrixVectorNTT's result.
pub proof fn lemma_matvec_model<const K: usize, const L: usize>(
    m: PolyMatNTT<K, L>,
    v: PolyVecNTT<L>,
    w: PolyVecNTT<K>,
)
    requires
        forall|i: int, k: int|
            0 <= i < K && 0 <= k < N ==> (#[trigger] w.v[i].coeffs[k]) == mod_q(
                dot_ntt(m.rows[i], v, k, L as int),
            ),
    ensures
        pvn(w) == m_matvec(pmn(m), pvn(v)),
{
    assert forall|i: int, k: int| 0 <= i < K && 0 <= k < N implies #[trigger] cf(w.v[i], k)
        == mod_q(m_dot(pmn(m)[i], pvn(v), k, L as int)) by {
        lemma_dot_model(m.rows[i], v, k, L as int);
        assert(w.v[i].coeffs[k] == cf(w.v[i], k));
    }
    lemma_pvn_build(w, |i: int, k: int| mod_q(m_dot(pmn(m)[i], pvn(v), k, L as int)));
}

/// The model of ScalarVectorNTT's result.
pub proof fn lemma_scalar_model<const L: usize>(
    c: crate::poly::PolyNTT,
    v: PolyVecNTT<L>,
    w: PolyVecNTT<L>,
)
    requires
        forall|i: int, k: int|
            0 <= i < L && 0 <= k < N ==> (#[trigger] w.v[i].coeffs[k]) == mod_q(
                cf(c, k) * cf(v.v[i], k),
            ),
    ensures
        pvn(w) == m_scalar(coeffs_int(c.coeffs), pvn(v)),
{
    assert forall|i: int, k: int| 0 <= i < L && 0 <= k < N implies #[trigger] cf(w.v[i], k)
        == mod_q(coeffs_int(c.coeffs)[k] * pvn(v)[i][k]) by {
        assert(w.v[i].coeffs[k] == cf(w.v[i], k));
    }
    lemma_pvn_build(w, |i: int, k: int| mod_q(coeffs_int(c.coeffs)[k] * pvn(v)[i][k]));
}

/// Componentwise `a + b mod q`, coefficient by coefficient, is its model operation.
pub proof fn lemma_add_model<const M: usize>(a: PolyVec<M>, b: PolyVec<M>, out: PolyVec<M>)
    requires
        forall|i: int, j: int|
            0 <= i < M && 0 <= j < N ==> (#[trigger] out.v[i].coeffs[j]) == mod_q(vc(a, i, j) + vc(b, i, j)),
    ensures
        pv(out) == m_add(pv(a), pv(b)),
{
    assert forall|i: int, j: int| 0 <= i < M && 0 <= j < N implies #[trigger] pv(out)[i][j]
        == m_add(pv(a), pv(b))[i][j] by {
        assert(out.v[i].coeffs[j] == mod_q(vc(a, i, j) + vc(b, i, j)));
    }
    lemma_model_eq(pv(out), m_add(pv(a), pv(b)));
}

/// Componentwise `a − b mod q`, coefficient by coefficient, is its model operation.
pub proof fn lemma_sub_model<const M: usize>(a: PolyVec<M>, b: PolyVec<M>, out: PolyVec<M>)
    requires
        forall|i: int, j: int|
            0 <= i < M && 0 <= j < N ==> (#[trigger] out.v[i].coeffs[j]) == mod_q(vc(a, i, j) - vc(b, i, j)),
    ensures
        pv(out) == m_sub(pv(a), pv(b)),
{
    assert forall|i: int, j: int| 0 <= i < M && 0 <= j < N implies #[trigger] pv(out)[i][j]
        == m_sub(pv(a), pv(b))[i][j] by {
        assert(out.v[i].coeffs[j] == mod_q(vc(a, i, j) - vc(b, i, j)));
    }
    lemma_model_eq(pv(out), m_sub(pv(a), pv(b)));
}

/// Componentwise `−a mod q`, coefficient by coefficient, is its model operation.
pub proof fn lemma_neg_model<const M: usize>(a: PolyVec<M>, out: PolyVec<M>)
    requires
        forall|i: int, j: int|
            0 <= i < M && 0 <= j < N ==> (#[trigger] out.v[i].coeffs[j]) == mod_q(-vc(a, i, j)),
    ensures
        pv(out) == m_neg(pv(a)),
{
    assert forall|i: int, j: int| 0 <= i < M && 0 <= j < N implies #[trigger] pv(out)[i][j]
        == m_neg(pv(a))[i][j] by {
        assert(out.v[i].coeffs[j] == mod_q(-vc(a, i, j)));
    }
    lemma_model_eq(pv(out), m_neg(pv(a)));
}

/// Componentwise `a mod± q`, coefficient by coefficient, is its model operation.
pub proof fn lemma_center_model<const M: usize>(a: PolyVec<M>, out: PolyVec<M>)
    requires
        forall|i: int, j: int|
            0 <= i < M && 0 <= j < N ==> (#[trigger] out.v[i].coeffs[j]) == mod_pm_spec(vc(a, i, j), Q as int),
    ensures
        pv(out) == m_center(pv(a)),
{
    assert forall|i: int, j: int| 0 <= i < M && 0 <= j < N implies #[trigger] pv(out)[i][j]
        == m_center(pv(a))[i][j] by {
        assert(out.v[i].coeffs[j] == mod_pm_spec(vc(a, i, j), Q as int));
    }
    lemma_model_eq(pv(out), m_center(pv(a)));
}

/// The high part of Power2Round, coefficient by coefficient, is its model operation.
pub proof fn lemma_p2r_hi_model<const M: usize>(a: PolyVec<M>, out: PolyVec<M>)
    requires
        forall|i: int, j: int|
            0 <= i < M && 0 <= j < N ==> (#[trigger] out.v[i].coeffs[j]) == power2round_spec(vc(a, i, j)).0,
    ensures
        pv(out) == m_power2round_hi(pv(a)),
{
    assert forall|i: int, j: int| 0 <= i < M && 0 <= j < N implies #[trigger] pv(out)[i][j]
        == m_power2round_hi(pv(a))[i][j] by {
        assert(out.v[i].coeffs[j] == power2round_spec(vc(a, i, j)).0);
    }
    lemma_model_eq(pv(out), m_power2round_hi(pv(a)));
}

/// The low part of Power2Round, coefficient by coefficient, is its model operation.
pub proof fn lemma_p2r_lo_model<const M: usize>(a: PolyVec<M>, out: PolyVec<M>)
    requires
        forall|i: int, j: int|
            0 <= i < M && 0 <= j < N ==> (#[trigger] out.v[i].coeffs[j]) == power2round_spec(vc(a, i, j)).1,
    ensures
        pv(out) == m_power2round_lo(pv(a)),
{
    assert forall|i: int, j: int| 0 <= i < M && 0 <= j < N implies #[trigger] pv(out)[i][j]
        == m_power2round_lo(pv(a))[i][j] by {
        assert(out.v[i].coeffs[j] == power2round_spec(vc(a, i, j)).1);
    }
    lemma_model_eq(pv(out), m_power2round_lo(pv(a)));
}

/// HighBits, coefficient by coefficient, is its model operation.
pub proof fn lemma_high_bits_model<const M: usize>(a: PolyVec<M>, gamma2: int, out: PolyVec<M>)
    requires
        forall|i: int, j: int|
            0 <= i < M && 0 <= j < N ==> (#[trigger] out.v[i].coeffs[j]) == high_bits_spec(vc(a, i, j), gamma2),
    ensures
        pv(out) == m_high_bits(pv(a), gamma2),
{
    assert forall|i: int, j: int| 0 <= i < M && 0 <= j < N implies #[trigger] pv(out)[i][j]
        == m_high_bits(pv(a), gamma2)[i][j] by {
        assert(out.v[i].coeffs[j] == high_bits_spec(vc(a, i, j), gamma2));
    }
    lemma_model_eq(pv(out), m_high_bits(pv(a), gamma2));
}

/// LowBits, coefficient by coefficient, is its model operation.
pub proof fn lemma_low_bits_model<const M: usize>(a: PolyVec<M>, gamma2: int, out: PolyVec<M>)
    requires
        forall|i: int, j: int|
            0 <= i < M && 0 <= j < N ==> (#[trigger] out.v[i].coeffs[j]) == low_bits_spec(vc(a, i, j), gamma2),
    ensures
        pv(out) == m_low_bits(pv(a), gamma2),
{
    assert forall|i: int, j: int| 0 <= i < M && 0 <= j < N implies #[trigger] pv(out)[i][j]
        == m_low_bits(pv(a), gamma2)[i][j] by {
        assert(out.v[i].coeffs[j] == low_bits_spec(vc(a, i, j), gamma2));
    }
    lemma_model_eq(pv(out), m_low_bits(pv(a), gamma2));
}

/// MakeHint, coefficient by coefficient, is its model operation.
pub proof fn lemma_make_hint_model<const M: usize>(z: PolyVec<M>, r: PolyVec<M>, gamma2: int, out: PolyVec<M>)
    requires
        forall|i: int, j: int|
            0 <= i < M && 0 <= j < N ==> (#[trigger] out.v[i].coeffs[j]) == bool_to_int(make_hint_spec(vc(z, i, j), vc(r, i, j), gamma2)),
    ensures
        pv(out) == m_make_hint(pv(z), pv(r), gamma2),
{
    assert forall|i: int, j: int| 0 <= i < M && 0 <= j < N implies #[trigger] pv(out)[i][j]
        == m_make_hint(pv(z), pv(r), gamma2)[i][j] by {
        assert(out.v[i].coeffs[j] == bool_to_int(make_hint_spec(vc(z, i, j), vc(r, i, j), gamma2)));
    }
    lemma_model_eq(pv(out), m_make_hint(pv(z), pv(r), gamma2));
}

/// UseHint, coefficient by coefficient, is its model operation.
pub proof fn lemma_use_hint_model<const M: usize>(h: PolyVec<M>, r: PolyVec<M>, gamma2: int, out: PolyVec<M>)
    requires
        forall|i: int, j: int|
            0 <= i < M && 0 <= j < N ==> (#[trigger] out.v[i].coeffs[j]) == use_hint_spec(vc(h, i, j) != 0, vc(r, i, j), gamma2),
    ensures
        pv(out) == m_use_hint(pv(h), pv(r), gamma2),
{
    assert forall|i: int, j: int| 0 <= i < M && 0 <= j < N implies #[trigger] pv(out)[i][j]
        == m_use_hint(pv(h), pv(r), gamma2)[i][j] by {
        assert(out.v[i].coeffs[j] == use_hint_spec(vc(h, i, j) != 0, vc(r, i, j), gamma2));
    }
    lemma_model_eq(pv(out), m_use_hint(pv(h), pv(r), gamma2));
}


/// The first `n` entries of `s` as `i32`s in an array of 256 (zero beyond): a vector of
/// the executable type with a given model, for stating facts about models.
pub open spec fn coeff_array(s: Seq<int>, n: nat) -> [i32; N]
    decreases n,
{
    if n == 0 {
        vstd::array::spec_array_fill_for_copy_type::<i32, N>(0i32)
    } else {
        vstd::array::spec_array_update(coeff_array(s, (n - 1) as nat), n - 1, s[n - 1] as i32)
    }
}

/// The polynomial whose coefficients are the first 256 entries of `s`.
pub open spec fn poly_of(s: Seq<int>) -> Poly {
    Poly { coeffs: coeff_array(s, N as nat) }
}

/// The first `n` polynomials of `v` in an array of `M`.
pub open spec fn poly_array<const M: usize>(v: Seq<Seq<int>>, n: nat) -> [Poly; M]
    decreases n,
{
    if n == 0 {
        vstd::array::spec_array_fill_for_copy_type::<Poly, M>(poly_of(Seq::empty()))
    } else {
        vstd::array::spec_array_update(poly_array::<M>(v, (n - 1) as nat), n - 1, poly_of(v[n - 1]))
    }
}

/// The vector of polynomials with model `v`.
pub open spec fn polyvec_of<const M: usize>(v: Seq<Seq<int>>) -> PolyVec<M> {
    PolyVec { v: poly_array::<M>(v, M as nat) }
}

proof fn lemma_coeff_array(s: Seq<int>, n: nat)
    requires
        n <= N,
    ensures
        coeff_array(s, n)@.len() == N,
        forall|k: int| 0 <= k < n ==> #[trigger] coeff_array(s, n)@[k] == s[k] as i32,
    decreases n,
{
    broadcast use vstd::array::group_array_axioms;

    if n == 0 {
        assert(coeff_array(s, 0)@.len() == N);
    } else {
        lemma_coeff_array(s, (n - 1) as nat);
        assert(coeff_array(s, n)@ == coeff_array(s, (n - 1) as nat)@.update(n - 1, s[n - 1] as i32));
    }
}

proof fn lemma_poly_array<const M: usize>(v: Seq<Seq<int>>, n: nat)
    requires
        n <= M,
    ensures
        poly_array::<M>(v, n)@.len() == M,
        forall|i: int| 0 <= i < n ==> #[trigger] poly_array::<M>(v, n)@[i] == poly_of(v[i]),
    decreases n,
{
    broadcast use vstd::array::group_array_axioms;

    if n == 0 {
        assert(poly_array::<M>(v, 0)@.len() == M);
    } else {
        lemma_poly_array::<M>(v, (n - 1) as nat);
        assert(poly_array::<M>(v, n)@ == poly_array::<M>(v, (n - 1) as nat)@.update(
            n - 1,
            poly_of(v[n - 1]),
        ));
    }
}

/// A model with `M` rows of 256 `i32`-sized entries is the model of a vector.
pub proof fn lemma_polyvec_of<const M: usize>(v: Seq<Seq<int>>)
    requires
        v.len() == M,
        forall|i: int| 0 <= i < M ==> (#[trigger] v[i]).len() == N,
        forall|i: int, k: int| 0 <= i < M && 0 <= k < N ==> i32::MIN <= #[trigger] v[i][k] <= i32::MAX,
    ensures
        pv(polyvec_of::<M>(v)) == v,
{
    lemma_poly_array::<M>(v, M as nat);
    let pvv = polyvec_of::<M>(v);
    assert forall|i: int, k: int| 0 <= i < M && 0 <= k < N implies #[trigger] pv(pvv)[i][k] == v[i][k] by {
        assert(pvv.v[i] == poly_of(v[i]));
        lemma_coeff_array(v[i], N as nat);
        assert(pvv.v[i].coeffs[k] == v[i][k] as i32);
    }
    assert forall|i: int| 0 <= i < M implies (#[trigger] pv(pvv)[i]).len() == v[i].len() by {}
    lemma_model_eq(pv(pvv), v);
}

} // verus!
