//! Leakage-analysis targets: the branchy baseline primitives and their branchless `_ct`
//! counterparts over a batch of coefficients (ML-DSA-65), folded into one accumulator so
//! a whole polynomial's worth of work is done per measurement.
use crate::field::{montgomery_reduce, montgomery_spec};
use crate::params::{lemma_mldsa65_values, MlDsa65, ParameterSet, Q};
use crate::rounding::{
    decompose, decompose_ct, decompose_spec, make_hint, make_hint_ct, make_hint_spec,
};
use vstd::prelude::*;

verus! {

/// Coefficients per measurement batch (one polynomial).
pub const BATCH: usize = 256;

/// `Σ (r1 + r0)` over `coeffs[0..n]` of Decompose (γ2 of ML-DSA-65), in wrapping `i32`
/// arithmetic.
pub open spec fn decompose_fold(coeffs: Seq<i32>, n: int) -> i32
    decreases n,
{
    if n <= 0 {
        0
    } else {
        let d = decompose_spec(coeffs[n - 1] as int, 261888);
        decompose_fold(coeffs, n - 1).wrapping_add(d.0 as i32).wrapping_add(d.1 as i32)
    }
}

/// The number of coefficients `r` among `coeffs[0..n]` for which MakeHint(1, r) (γ2 of
/// ML-DSA-65) is set, in wrapping `i32` arithmetic.
pub open spec fn make_hint_fold(coeffs: Seq<i32>, n: int) -> i32
    decreases n,
{
    if n <= 0 {
        0
    } else {
        let h: i32 = if make_hint_spec(1, coeffs[n - 1] as int, 261888) {
            1
        } else {
            0
        };
        make_hint_fold(coeffs, n - 1).wrapping_add(h)
    }
}

/// Baseline (branchy) Decompose over a batch; the accumulator keeps the work from being
/// optimized away.
pub fn decompose_baseline_batch(coeffs: &[i32]) -> (acc: i32)
    ensures
        acc == decompose_fold(coeffs@, coeffs@.len() as int),
{
    proof {
        lemma_mldsa65_values();
    }
    let mut acc = 0i32;
    for k in 0..coeffs.len()
        invariant
            MlDsa65::GAMMA2 == 261888,
            acc == decompose_fold(coeffs@, k as int),
    {
        let (r1, r0) = decompose::<MlDsa65>(coeffs[k]);
        acc = acc.wrapping_add(r1).wrapping_add(r0);
    }
    acc
}

/// Branchless Decompose over a batch: the same accumulator.
pub fn decompose_ct_batch(coeffs: &[i32]) -> (acc: i32)
    ensures
        acc == decompose_fold(coeffs@, coeffs@.len() as int),
{
    proof {
        lemma_mldsa65_values();
    }
    let mut acc = 0i32;
    for k in 0..coeffs.len()
        invariant
            MlDsa65::GAMMA2 == 261888,
            acc == decompose_fold(coeffs@, k as int),
    {
        let (r1, r0) = decompose_ct::<MlDsa65>(coeffs[k]);
        acc = acc.wrapping_add(r1).wrapping_add(r0);
    }
    acc
}

/// A batch whose coefficients all take the baseline's `q − 1` special branch.
pub fn batch_special() -> (v: Vec<i32>)
    ensures
        v@ == seq![(Q - 1) as i32; 256],
{
    let v = vec![Q - 1; BATCH];
    assert(v@ =~= seq![(Q - 1) as i32; 256]);
    v
}

/// A batch of ordinary coefficients (the baseline takes the common branch).
pub fn batch_common() -> (v: Vec<i32>)
    ensures
        v@ == seq![1_234_567i32; 256],
{
    let v = vec![1_234_567i32; BATCH];
    assert(v@ =~= seq![1_234_567i32; 256]);
    v
}

/// Baseline (branchy) MakeHint over a batch, with `z = 1`.
pub fn make_hint_baseline_batch(coeffs: &[i32]) -> (acc: i32)
    requires
        forall|k: int| 0 <= k < coeffs@.len() ==> #[trigger] coeffs@[k] < i32::MAX,
    ensures
        acc == make_hint_fold(coeffs@, coeffs@.len() as int),
{
    proof {
        lemma_mldsa65_values();
    }
    let mut acc = 0i32;
    for k in 0..coeffs.len()
        invariant
            MlDsa65::GAMMA2 == 261888,
            forall|t: int| 0 <= t < coeffs@.len() ==> #[trigger] coeffs@[t] < i32::MAX,
            acc == make_hint_fold(coeffs@, k as int),
    {
        let h = make_hint::<MlDsa65>(1, coeffs[k]);
        acc = acc.wrapping_add(h as i32);
    }
    acc
}

/// Branchless MakeHint over a batch: the same accumulator.
pub fn make_hint_ct_batch(coeffs: &[i32]) -> (acc: i32)
    requires
        forall|k: int| 0 <= k < coeffs@.len() ==> #[trigger] coeffs@[k] < i32::MAX,
    ensures
        acc == make_hint_fold(coeffs@, coeffs@.len() as int),
{
    proof {
        lemma_mldsa65_values();
    }
    let mut acc = 0i32;
    for k in 0..coeffs.len()
        invariant
            MlDsa65::GAMMA2 == 261888,
            forall|t: int| 0 <= t < coeffs@.len() ==> #[trigger] coeffs@[t] < i32::MAX,
            acc == make_hint_fold(coeffs@, k as int),
    {
        acc = acc.wrapping_add(make_hint_ct::<MlDsa65>(1, coeffs[k]));
    }
    acc
}

/// `Σ MontgomeryReduce(vals[k])` over `vals[0..n]`, in wrapping `i32` arithmetic.
pub open spec fn montgomery_fold(vals: Seq<i64>, n: int) -> i32
    decreases n,
{
    if n <= 0 {
        0
    } else {
        montgomery_fold(vals, n - 1).wrapping_add(montgomery_spec(vals[n - 1] as int) as i32)
    }
}

/// MontgomeryReduce over a batch of wide products (branchless arithmetic).
pub fn montgomery_batch(vals: &[i64]) -> (acc: i32)
    requires
        forall|k: int|
            0 <= k < vals@.len() ==> -0x8000_0000 * (Q as int) < #[trigger] vals@[k] < 0x8000_0000
                * (Q as int),
    ensures
        acc == montgomery_fold(vals@, vals@.len() as int),
{
    let mut acc = 0i32;
    for k in 0..vals.len()
        invariant
            forall|t: int|
                0 <= t < vals@.len() ==> -0x8000_0000 * (Q as int) < #[trigger] vals@[t] < 0x8000_0000
                    * (Q as int),
            acc == montgomery_fold(vals@, k as int),
    {
        let r = montgomery_reduce(vals[k]);
        acc = acc.wrapping_add(r);
    }
    acc
}

/// A batch of "wide product" inputs for Montgomery reduction.
pub fn wide_fixed(v: i64) -> (r: Vec<i64>)
    ensures
        r@ == seq![v; 256],
{
    let r = vec![v; BATCH];
    assert(r@ =~= seq![v; 256]);
    r
}

} // verus!
