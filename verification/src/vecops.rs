//! Vector lifts of the poly-level operations, shared by keygen / sign / verify.
//! FIPS 204 applies NTT, rounding, and hints componentwise over `R^k` / `R^l`.
use crate::field::{abs_int, mod_pm, mod_pm_spec, mod_q, reduce_q};
use crate::ntt::{coeffs_int, inv_ntt, inv_ntt_fast, inv_ntt_spec, ntt, ntt_fast, ntt_spec};
use crate::params::{lemma_valid, ParameterSet, N, Q};
use crate::poly::{PolyVec, PolyVecNTT};
use crate::rounding::{
    bool_to_int, high_bits_poly, high_bits_spec, low_bits_poly, low_bits_spec, make_hint_poly,
    make_hint_spec, power2round_poly, power2round_spec, sums_fit, use_hint_poly, use_hint_spec,
};
use vstd::prelude::*;

verus! {

/// Coefficient `j` of polynomial `i` of `v`, as an integer.
pub open spec fn vc<const M: usize>(v: PolyVec<M>, i: int, j: int) -> int {
    v.v[i].coeffs[j] as int
}

/// NTT each polynomial of a vector.
pub fn ntt_vec<const M: usize>(v: &PolyVec<M>) -> (out: PolyVecNTT<M>)
    ensures
        forall|i: int|
            0 <= i < M ==> coeffs_int((#[trigger] out.v[i]).coeffs) == ntt_spec(
                coeffs_int(v.v[i].coeffs),
            ),
        forall|i: int|
            0 <= i < M ==> crate::ntt::canonical(coeffs_int((#[trigger] out.v[i]).coeffs)),
{
    let mut out = PolyVecNTT::<M>::zero();
    for i in 0..M
        invariant
            forall|k: int|
                0 <= k < i ==> coeffs_int((#[trigger] out.v[k]).coeffs) == ntt_spec(
                    coeffs_int(v.v[k].coeffs),
                ),
            forall|k: int|
                0 <= k < i ==> crate::ntt::canonical(coeffs_int((#[trigger] out.v[k]).coeffs)),
    {
        out.v[i] = ntt(&v.v[i]);
    }
    out
}

/// Inverse-NTT each polynomial of a vector.
pub fn inv_ntt_vec<const M: usize>(v: &PolyVecNTT<M>) -> (out: PolyVec<M>)
    ensures
        forall|i: int|
            0 <= i < M ==> coeffs_int((#[trigger] out.v[i]).coeffs) == inv_ntt_spec(
                coeffs_int(v.v[i].coeffs),
            ),
        forall|i: int|
            0 <= i < M ==> crate::ntt::canonical(coeffs_int((#[trigger] out.v[i]).coeffs)),
{
    let mut out = PolyVec::<M>::zero();
    for i in 0..M
        invariant
            forall|k: int|
                0 <= k < i ==> coeffs_int((#[trigger] out.v[k]).coeffs) == inv_ntt_spec(
                    coeffs_int(v.v[k].coeffs),
                ),
            forall|k: int|
                0 <= k < i ==> crate::ntt::canonical(coeffs_int((#[trigger] out.v[k]).coeffs)),
    {
        out.v[i] = inv_ntt(&v.v[i]);
    }
    out
}

/// [`ntt_vec`] on the improved (division-free) component.
pub fn ntt_vec_fast<const M: usize>(v: &PolyVec<M>) -> (out: PolyVecNTT<M>)
    ensures
        forall|i: int|
            0 <= i < M ==> coeffs_int((#[trigger] out.v[i]).coeffs) == ntt_spec(
                coeffs_int(v.v[i].coeffs),
            ),
        forall|i: int|
            0 <= i < M ==> crate::ntt::canonical(coeffs_int((#[trigger] out.v[i]).coeffs)),
{
    let mut out = PolyVecNTT::<M>::zero();
    for i in 0..M
        invariant
            forall|k: int|
                0 <= k < i ==> coeffs_int((#[trigger] out.v[k]).coeffs) == ntt_spec(
                    coeffs_int(v.v[k].coeffs),
                ),
            forall|k: int|
                0 <= k < i ==> crate::ntt::canonical(coeffs_int((#[trigger] out.v[k]).coeffs)),
    {
        out.v[i] = ntt_fast(&v.v[i]);
    }
    out
}

/// [`inv_ntt_vec`] on the improved (division-free) component.
pub fn inv_ntt_vec_fast<const M: usize>(v: &PolyVecNTT<M>) -> (out: PolyVec<M>)
    ensures
        forall|i: int|
            0 <= i < M ==> coeffs_int((#[trigger] out.v[i]).coeffs) == inv_ntt_spec(
                coeffs_int(v.v[i].coeffs),
            ),
        forall|i: int|
            0 <= i < M ==> crate::ntt::canonical(coeffs_int((#[trigger] out.v[i]).coeffs)),
{
    let mut out = PolyVec::<M>::zero();
    for i in 0..M
        invariant
            forall|k: int|
                0 <= k < i ==> coeffs_int((#[trigger] out.v[k]).coeffs) == inv_ntt_spec(
                    coeffs_int(v.v[k].coeffs),
                ),
            forall|k: int|
                0 <= k < i ==> crate::ntt::canonical(coeffs_int((#[trigger] out.v[k]).coeffs)),
    {
        out.v[i] = inv_ntt_fast(&v.v[i]);
    }
    out
}

/// Componentwise `a + b` in `R^M` (reduced to `[0, q)`).
pub fn add_vec<const M: usize>(a: &PolyVec<M>, b: &PolyVec<M>) -> (out: PolyVec<M>)
    ensures
        forall|i: int, j: int|
            0 <= i < M && 0 <= j < N ==> (#[trigger] out.v[i].coeffs[j]) == mod_q(
                vc(*a, i, j) + vc(*b, i, j),
            ),
{
    let mut out = PolyVec::<M>::zero();
    for i in 0..M
        invariant
            forall|r: int, j: int|
                0 <= r < i && 0 <= j < N ==> (#[trigger] out.v[r].coeffs[j]) == mod_q(
                    vc(*a, r, j) + vc(*b, r, j),
                ),
    {
        for j in 0..N
            invariant
                i < M,
                forall|r: int, k: int|
                    0 <= r < i && 0 <= k < N ==> (#[trigger] out.v[r].coeffs[k]) == mod_q(
                        vc(*a, r, k) + vc(*b, r, k),
                    ),
                forall|k: int|
                    0 <= k < j ==> (#[trigger] out.v[i as int].coeffs[k]) == mod_q(
                        vc(*a, i as int, k) + vc(*b, i as int, k),
                    ),
        {
            out.v[i].coeffs[j] = reduce_q(a.v[i].coeffs[j] as i64 + b.v[i].coeffs[j] as i64);
        }
    }
    out
}

/// Componentwise `a - b` in `R^M` (reduced to `[0, q)`).
pub fn sub_vec<const M: usize>(a: &PolyVec<M>, b: &PolyVec<M>) -> (out: PolyVec<M>)
    ensures
        forall|i: int, j: int|
            0 <= i < M && 0 <= j < N ==> (#[trigger] out.v[i].coeffs[j]) == mod_q(
                vc(*a, i, j) - vc(*b, i, j),
            ),
{
    let mut out = PolyVec::<M>::zero();
    for i in 0..M
        invariant
            forall|r: int, j: int|
                0 <= r < i && 0 <= j < N ==> (#[trigger] out.v[r].coeffs[j]) == mod_q(
                    vc(*a, r, j) - vc(*b, r, j),
                ),
    {
        for j in 0..N
            invariant
                i < M,
                forall|r: int, k: int|
                    0 <= r < i && 0 <= k < N ==> (#[trigger] out.v[r].coeffs[k]) == mod_q(
                        vc(*a, r, k) - vc(*b, r, k),
                    ),
                forall|k: int|
                    0 <= k < j ==> (#[trigger] out.v[i as int].coeffs[k]) == mod_q(
                        vc(*a, i as int, k) - vc(*b, i as int, k),
                    ),
        {
            out.v[i].coeffs[j] = reduce_q(a.v[i].coeffs[j] as i64 - b.v[i].coeffs[j] as i64);
        }
    }
    out
}

/// Componentwise negation `-a` in `R^M` (reduced to `[0, q)`).
pub fn neg_vec<const M: usize>(a: &PolyVec<M>) -> (out: PolyVec<M>)
    ensures
        forall|i: int, j: int|
            0 <= i < M && 0 <= j < N ==> (#[trigger] out.v[i].coeffs[j]) == mod_q(-vc(*a, i, j)),
{
    let mut out = PolyVec::<M>::zero();
    for i in 0..M
        invariant
            forall|r: int, j: int|
                0 <= r < i && 0 <= j < N ==> (#[trigger] out.v[r].coeffs[j]) == mod_q(
                    -vc(*a, r, j),
                ),
    {
        for j in 0..N
            invariant
                i < M,
                forall|r: int, k: int|
                    0 <= r < i && 0 <= k < N ==> (#[trigger] out.v[r].coeffs[k]) == mod_q(
                        -vc(*a, r, k),
                    ),
                forall|k: int|
                    0 <= k < j ==> (#[trigger] out.v[i as int].coeffs[k]) == mod_q(
                        -vc(*a, i as int, k),
                    ),
        {
            out.v[i].coeffs[j] = reduce_q(-(a.v[i].coeffs[j] as i64));
        }
    }
    out
}

/// `x mod± q` always fits an `i32` and `mod_pm` accepts it.
pub proof fn lemma_mod_pm_q(x: int)
    ensures
        -(Q as int) / 2 < mod_pm_spec(x, Q as int) <= (Q as int) / 2,
        mod_q(mod_pm_spec(x, Q as int)) == mod_q(x),
{
    let r = x % (Q as int);
    vstd::arithmetic::div_mod::lemma_mod_twice(x, Q as int);
    if r > (Q as int) / 2 {
        vstd::arithmetic::div_mod::lemma_mod_sub_multiples_vanish(r, Q as int);
    }
}

/// Map each coefficient to its centred representative `mod± q` (in `(-q/2, q/2]`).
pub fn center_vec<const M: usize>(a: &PolyVec<M>) -> (out: PolyVec<M>)
    ensures
        forall|i: int, j: int|
            0 <= i < M && 0 <= j < N ==> (#[trigger] out.v[i].coeffs[j]) == mod_pm_spec(
                vc(*a, i, j),
                Q as int,
            ),
{
    let mut out = PolyVec::<M>::zero();
    for i in 0..M
        invariant
            forall|r: int, j: int|
                0 <= r < i && 0 <= j < N ==> (#[trigger] out.v[r].coeffs[j]) == mod_pm_spec(
                    vc(*a, r, j),
                    Q as int,
                ),
    {
        for j in 0..N
            invariant
                i < M,
                forall|r: int, k: int|
                    0 <= r < i && 0 <= k < N ==> (#[trigger] out.v[r].coeffs[k]) == mod_pm_spec(
                        vc(*a, r, k),
                        Q as int,
                    ),
                forall|k: int|
                    0 <= k < j ==> (#[trigger] out.v[i as int].coeffs[k]) == mod_pm_spec(
                        vc(*a, i as int, k),
                        Q as int,
                    ),
        {
            proof {
                lemma_mod_pm_q(a.v[i as int].coeffs[j as int] as int);
            }
            out.v[i].coeffs[j] = mod_pm(a.v[i].coeffs[j], Q);
        }
    }
    out
}

/// Power2Round over a vector; returns `(t1, t0)`.
pub fn power2round_vec<const M: usize>(v: &PolyVec<M>) -> (res: (PolyVec<M>, PolyVec<M>))
    ensures
        forall|i: int, j: int|
            0 <= i < M && 0 <= j < N ==> (#[trigger] res.0.v[i].coeffs[j]) == power2round_spec(
                vc(*v, i, j),
            ).0,
        forall|i: int, j: int|
            0 <= i < M && 0 <= j < N ==> (#[trigger] res.1.v[i].coeffs[j]) == power2round_spec(
                vc(*v, i, j),
            ).1,
{
    let mut t1 = PolyVec::<M>::zero();
    let mut t0 = PolyVec::<M>::zero();
    for i in 0..M
        invariant
            forall|r: int, j: int|
                0 <= r < i && 0 <= j < N ==> (#[trigger] t1.v[r].coeffs[j]) == power2round_spec(
                    vc(*v, r, j),
                ).0,
            forall|r: int, j: int|
                0 <= r < i && 0 <= j < N ==> (#[trigger] t0.v[r].coeffs[j]) == power2round_spec(
                    vc(*v, r, j),
                ).1,
    {
        let (a, b) = power2round_poly(&v.v[i]);
        t1.v[i] = a;
        t0.v[i] = b;
    }
    (t1, t0)
}

/// HighBits over a vector.
pub fn high_bits_vec<P: ParameterSet, const M: usize>(v: &PolyVec<M>) -> (out: PolyVec<M>)
    ensures
        forall|i: int, j: int|
            0 <= i < M && 0 <= j < N ==> (#[trigger] out.v[i].coeffs[j]) == high_bits_spec(
                vc(*v, i, j),
                P::GAMMA2 as int,
            ),
{
    let mut out = PolyVec::<M>::zero();
    for i in 0..M
        invariant
            forall|r: int, j: int|
                0 <= r < i && 0 <= j < N ==> (#[trigger] out.v[r].coeffs[j]) == high_bits_spec(
                    vc(*v, r, j),
                    P::GAMMA2 as int,
                ),
    {
        out.v[i] = high_bits_poly::<P>(&v.v[i]);
    }
    out
}

/// LowBits over a vector.
pub fn low_bits_vec<P: ParameterSet, const M: usize>(v: &PolyVec<M>) -> (out: PolyVec<M>)
    ensures
        forall|i: int, j: int|
            0 <= i < M && 0 <= j < N ==> (#[trigger] out.v[i].coeffs[j]) == low_bits_spec(
                vc(*v, i, j),
                P::GAMMA2 as int,
            ),
{
    let mut out = PolyVec::<M>::zero();
    for i in 0..M
        invariant
            forall|r: int, j: int|
                0 <= r < i && 0 <= j < N ==> (#[trigger] out.v[r].coeffs[j]) == low_bits_spec(
                    vc(*v, r, j),
                    P::GAMMA2 as int,
                ),
    {
        out.v[i] = low_bits_poly::<P>(&v.v[i]);
    }
    out
}

/// Every coefficient sum `r + z` of two vectors fits an `i32`.
pub open spec fn vec_sums_fit<const M: usize>(z: PolyVec<M>, r: PolyVec<M>) -> bool {
    forall|i: int| 0 <= i < M ==> sums_fit(#[trigger] z.v[i], r.v[i])
}

/// MakeHint over vectors (componentwise), giving a 0/1 hint vector.
pub fn make_hint_vec<P: ParameterSet, const M: usize>(z: &PolyVec<M>, r: &PolyVec<M>) -> (out:
    PolyVec<M>)
    requires
        vec_sums_fit(*z, *r),
    ensures
        forall|i: int, j: int|
            0 <= i < M && 0 <= j < N ==> (#[trigger] out.v[i].coeffs[j]) == bool_to_int(
                make_hint_spec(vc(*z, i, j), vc(*r, i, j), P::GAMMA2 as int),
            ),
{
    let mut out = PolyVec::<M>::zero();
    for i in 0..M
        invariant
            vec_sums_fit(*z, *r),
            forall|k: int, j: int|
                0 <= k < i && 0 <= j < N ==> (#[trigger] out.v[k].coeffs[j]) == bool_to_int(
                    make_hint_spec(vc(*z, k, j), vc(*r, k, j), P::GAMMA2 as int),
                ),
    {
        assert(sums_fit(z.v[i as int], r.v[i as int]));
        out.v[i] = make_hint_poly::<P>(&z.v[i], &r.v[i]);
    }
    out
}

/// UseHint over vectors (componentwise).
pub fn use_hint_vec<P: ParameterSet, const M: usize>(h: &PolyVec<M>, r: &PolyVec<M>) -> (out:
    PolyVec<M>)
    ensures
        forall|i: int, j: int|
            0 <= i < M && 0 <= j < N ==> (#[trigger] out.v[i].coeffs[j]) == use_hint_spec(
                vc(*h, i, j) != 0,
                vc(*r, i, j),
                P::GAMMA2 as int,
            ),
{
    let mut out = PolyVec::<M>::zero();
    for i in 0..M
        invariant
            forall|k: int, j: int|
                0 <= k < i && 0 <= j < N ==> (#[trigger] out.v[k].coeffs[j]) == use_hint_spec(
                    vc(*h, k, j) != 0,
                    vc(*r, k, j),
                    P::GAMMA2 as int,
                ),
    {
        out.v[i] = use_hint_poly::<P>(&h.v[i], &r.v[i]);
    }
    out
}

/// `|x mod± q|`, the centred magnitude of a coefficient.
pub open spec fn centered_abs(x: int) -> int {
    abs_int(mod_pm_spec(x, Q as int))
}

/// `n` is the centred infinity norm of `v`: no coefficient exceeds it, and it is
/// attained (or `0` when every magnitude is `0`).
pub open spec fn is_inf_norm<const M: usize>(v: PolyVec<M>, n: int) -> bool {
    &&& n >= 0
    &&& forall|i: int, j: int| 0 <= i < M && 0 <= j < N ==> centered_abs(#[trigger] vc(v, i, j)) <= n
    &&& (n == 0 || exists|i: int, j: int|
        0 <= i < M && 0 <= j < N && centered_abs(#[trigger] vc(v, i, j)) == n)
}

/// Centred infinity norm `‖v‖∞` (each coefficient reduced `mod± q` first).
pub fn inf_norm<const M: usize>(v: &PolyVec<M>) -> (m: i32)
    ensures
        is_inf_norm(*v, m as int),
{
    let mut m: i32 = 0;
    for i in 0..M
        invariant
            0 <= m <= Q / 2,
            forall|r: int, j: int| 0 <= r < i && 0 <= j < N ==> centered_abs(#[trigger] vc(*v, r, j)) <= m,
            (m == 0 || exists|r: int, j: int|
                0 <= r < M && 0 <= j < N && centered_abs(#[trigger] vc(*v, r, j)) == m),
    {
        for j in 0..N
            invariant
                i < M,
                0 <= m <= Q / 2,
                forall|r: int, k: int|
                    0 <= r < i && 0 <= k < N ==> centered_abs(#[trigger] vc(*v, r, k)) <= m,
                forall|k: int| 0 <= k < j ==> centered_abs(#[trigger] vc(*v, i as int, k)) <= m,
                (m == 0 || exists|r: int, k: int|
                    0 <= r < M && 0 <= k < N && centered_abs(#[trigger] vc(*v, r, k)) == m),
        {
            proof {
                lemma_mod_pm_q(v.v[i as int].coeffs[j as int] as int);
            }
            let c = mod_pm(v.v[i].coeffs[j], Q);
            let a = if c < 0 { -c } else { c };
            assert(a == centered_abs(vc(*v, i as int, j as int)));
            if a > m {
                m = a;
            }
        }
    }
    m
}

/// Number of nonzero coefficients among the first `n` (row-major) of `v`.
pub open spec fn count_nonzero<const M: usize>(v: PolyVec<M>, n: int) -> int
    decreases n,
{
    if n <= 0 {
        0
    } else {
        count_nonzero(v, n - 1) + if vc(v, (n - 1) / (N as int), (n - 1) % (N as int)) != 0 {
            1int
        } else {
            0int
        }
    }
}

/// Position `i·256 + j` is row `i`, column `j`.
pub proof fn lemma_flat_index(i: int, j: int)
    requires
        0 <= j < N,
    ensures
        (i * (N as int) + j) / (N as int) == i,
        (i * (N as int) + j) % (N as int) == j,
{
    vstd::arithmetic::div_mod::lemma_fundamental_div_mod_converse(i * (N as int) + j, N as int, i, j);
}

/// The count never exceeds the number of positions counted.
proof fn lemma_count_bound<const M: usize>(v: PolyVec<M>, n: int)
    ensures
        0 <= count_nonzero(v, n) <= if n < 0 { 0 } else { n },
    decreases n,
{
    if n > 0 {
        lemma_count_bound(v, n - 1);
    }
}

/// Number of nonzero (`1`) coefficients across a hint vector.
pub fn count_ones<const M: usize>(v: &PolyVec<M>) -> (c: usize)
    requires
        M * N <= usize::MAX,
    ensures
        c == count_nonzero(*v, M * N),
{
    let mut c: usize = 0;
    for i in 0..M
        invariant
            M * N <= usize::MAX,
            c == count_nonzero(*v, i * N),
    {
        for j in 0..N
            invariant
                M * N <= usize::MAX,
                i < M,
                c == count_nonzero(*v, i * N + j),
        {
            proof {
                lemma_flat_index(i as int, j as int);
                lemma_count_bound(*v, i * N + j);
                assert(i * N + j + 1 <= M * N) by (nonlinear_arith)
                    requires
                        i < M,
                        j < N,
                ;
            }
            if v.v[i].coeffs[j] != 0 {
                c += 1;
            }
        }
        assert((i + 1) * N == i * N + N) by (nonlinear_arith);
    }
    c
}

/// Some coefficient has centred magnitude at least `bound`.
pub open spec fn exceeds_spec<const M: usize>(v: PolyVec<M>, bound: int) -> bool {
    exists|i: int, j: int| 0 <= i < M && 0 <= j < N && centered_abs(#[trigger] vc(v, i, j)) >= bound
}

/// The bound comparisons of the branchless check do not overflow.
pub open spec fn bound_fits<const M: usize>(v: PolyVec<M>, bound: int) -> bool {
    &&& bound > i32::MIN
    &&& forall|i: int, j: int|
        0 <= i < M && 0 <= j < N ==> bound - 1 - centered_abs(#[trigger] vc(v, i, j)) >= i32::MIN
}

/// Branchless `‖v‖∞ >= bound`: a violation mask is OR-accumulated over all
/// coefficients with no per-coefficient branch.
pub fn exceeds_bound_ct<const M: usize>(v: &PolyVec<M>, bound: i32) -> (r: bool)
    requires
        bound_fits(*v, bound as int),
    ensures
        r == exceeds_spec(*v, bound as int),
{
    let half = (Q - 1) / 2;
    let mut violation = 0i32;
    for i in 0..M
        invariant
            half == (Q - 1) / 2,
            bound_fits(*v, bound as int),
            violation == 0 || violation == -1,
            violation == 0 <==> !(exists|r: int, j: int|
                0 <= r < i && 0 <= j < N && centered_abs(#[trigger] vc(*v, r, j)) >= bound),
    {
        for j in 0..N
            invariant
                half == (Q - 1) / 2,
                i < M,
                bound_fits(*v, bound as int),
                violation == 0 || violation == -1,
                violation == 0 <==> !((exists|r: int, k: int|
                    0 <= r < i && 0 <= k < N && centered_abs(#[trigger] vc(*v, r, k)) >= bound)
                    || (exists|k: int| 0 <= k < j && centered_abs(#[trigger] vc(*v, i as int, k)) >= bound)),
        {
            let x = crate::field::to_canonical(v.v[i].coeffs[j]);
            let m = crate::ct::gt_mask(x, half);
            let ax = (x & !m) | ((Q - x) & m);
            assert(ax == if x > 4190208 { 8380417 - x } else { x as int }) by (bit_vector)
                requires
                    0 <= x < 8380417,
                    m == if x > 4190208 { -1i32 } else { 0i32 },
                    ax == (x & !m) | ((8380417 - x) as i32 & m),
            ;
            proof {
                vstd::arithmetic::div_mod::lemma_mod_twice(vc(*v, i as int, j as int), Q as int);
                assert(ax == centered_abs(vc(*v, i as int, j as int)));
                assert(bound - 1 - ax >= i32::MIN);
            }
            let g = crate::ct::gt_mask(ax, bound - 1);
            let ghost old_v = violation;
            violation |= g;
            assert(violation == if old_v == -1 || g == -1 { -1i32 } else { 0i32 }) by (bit_vector)
                requires
                    old_v == 0 || old_v == -1,
                    g == 0 || g == -1,
                    violation == old_v | g,
            ;
        }
    }
    violation != 0
}

/// Branchless [`count_ones`] for a vector whose coefficients are all `0`/`1`
/// (true of every hint vector): counting is plain summation.
pub fn count_ones_ct<const M: usize>(v: &PolyVec<M>) -> (c: usize)
    requires
        M * N <= usize::MAX,
        forall|i: int, j: int|
            0 <= i < M && 0 <= j < N ==> #[trigger] vc(*v, i, j) == 0 || vc(*v, i, j) == 1,
    ensures
        c == count_nonzero(*v, M * N),
{
    let mut c: usize = 0;
    for i in 0..M
        invariant
            M * N <= usize::MAX,
            forall|i: int, j: int|
                0 <= i < M && 0 <= j < N ==> #[trigger] vc(*v, i, j) == 0 || vc(*v, i, j) == 1,
            c == count_nonzero(*v, i * N),
    {
        for j in 0..N
            invariant
                M * N <= usize::MAX,
                forall|i: int, j: int|
                    0 <= i < M && 0 <= j < N ==> #[trigger] vc(*v, i, j) == 0 || vc(*v, i, j) == 1,
                i < M,
                c == count_nonzero(*v, i * N + j),
        {
            proof {
                lemma_flat_index(i as int, j as int);
                lemma_count_bound(*v, i * N + j);
                assert(i * N + j + 1 <= M * N) by (nonlinear_arith)
                    requires
                        i < M,
                        j < N,
                ;
                assert(vc(*v, i as int, j as int) == 0 || vc(*v, i as int, j as int) == 1);
            }
            c += v.v[i].coeffs[j] as usize;
        }
        assert((i + 1) * N == i * N + N) by (nonlinear_arith);
    }
    c
}

/// With `n` the infinity norm, `n >= bound` exactly when some coefficient reaches
/// `bound` (for a positive bound): the branchless check agrees with the norm.
pub proof fn lemma_exceeds_matches_inf_norm<const M: usize>(v: PolyVec<M>, n: int, bound: int)
    requires
        is_inf_norm(v, n),
        bound >= 1,
    ensures
        (n >= bound) == exceeds_spec(v, bound),
{
    if n >= bound {
        let (i, j) = choose|i: int, j: int|
            0 <= i < M && 0 <= j < N && centered_abs(#[trigger] vc(v, i, j)) == n;
        assert(centered_abs(vc(v, i, j)) >= bound);
    }
}

/// Branchless HighBits over a vector.
pub fn high_bits_vec_ct<P: ParameterSet, const M: usize>(v: &PolyVec<M>) -> (out: PolyVec<M>)
    ensures
        forall|i: int, j: int|
            0 <= i < M && 0 <= j < N ==> (#[trigger] out.v[i].coeffs[j]) == high_bits_spec(
                vc(*v, i, j),
                P::GAMMA2 as int,
            ),
{
    let mut out = PolyVec::<M>::zero();
    for i in 0..M
        invariant
            forall|r: int, j: int|
                0 <= r < i && 0 <= j < N ==> (#[trigger] out.v[r].coeffs[j]) == high_bits_spec(
                    vc(*v, r, j),
                    P::GAMMA2 as int,
                ),
    {
        out.v[i] = crate::rounding::high_bits_poly_ct::<P>(&v.v[i]);
    }
    out
}

/// Branchless LowBits over a vector.
pub fn low_bits_vec_ct<P: ParameterSet, const M: usize>(v: &PolyVec<M>) -> (out: PolyVec<M>)
    ensures
        forall|i: int, j: int|
            0 <= i < M && 0 <= j < N ==> (#[trigger] out.v[i].coeffs[j]) == low_bits_spec(
                vc(*v, i, j),
                P::GAMMA2 as int,
            ),
{
    let mut out = PolyVec::<M>::zero();
    for i in 0..M
        invariant
            forall|r: int, j: int|
                0 <= r < i && 0 <= j < N ==> (#[trigger] out.v[r].coeffs[j]) == low_bits_spec(
                    vc(*v, r, j),
                    P::GAMMA2 as int,
                ),
    {
        out.v[i] = crate::rounding::low_bits_poly_ct::<P>(&v.v[i]);
    }
    out
}

/// Branchless MakeHint over vectors.
pub fn make_hint_vec_ct<P: ParameterSet, const M: usize>(z: &PolyVec<M>, r: &PolyVec<M>) -> (out:
    PolyVec<M>)
    requires
        vec_sums_fit(*z, *r),
    ensures
        forall|i: int, j: int|
            0 <= i < M && 0 <= j < N ==> (#[trigger] out.v[i].coeffs[j]) == bool_to_int(
                make_hint_spec(vc(*z, i, j), vc(*r, i, j), P::GAMMA2 as int),
            ),
{
    let mut out = PolyVec::<M>::zero();
    for i in 0..M
        invariant
            vec_sums_fit(*z, *r),
            forall|k: int, j: int|
                0 <= k < i && 0 <= j < N ==> (#[trigger] out.v[k].coeffs[j]) == bool_to_int(
                    make_hint_spec(vc(*z, k, j), vc(*r, k, j), P::GAMMA2 as int),
                ),
    {
        assert(sums_fit(z.v[i as int], r.v[i as int]));
        out.v[i] = crate::rounding::make_hint_poly_ct::<P>(&z.v[i], &r.v[i]);
    }
    out
}

} // verus!
