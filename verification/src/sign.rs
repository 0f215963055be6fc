//! FIPS 204 §6.2 / §5.2 — signing (Algorithms 7 and 2).
//!
//! `sign_internal` is the rejection-sampling loop (Fiat–Shamir with Aborts). The
//! number of iterations is secret-dependent and leaks; the loop body must not leak
//! beyond that.
use crate::error::{Error, Result};
use crate::expand::{expand_a, expand_mask, mask_coeff};
use crate::field::mod_q;
use crate::hash::{h_reader_input, h_reader_pos, shake256, H};
use crate::hint::{hint_positions, lemma_hint_positions_len};
use crate::keygen::expand_a_m;
use crate::model::{
    build, lemma_add_model, lemma_center_model, lemma_high_bits_model, lemma_inv_ntt_model,
    lemma_low_bits_model, lemma_make_hint_model, lemma_matvec_model, lemma_model_eq,
    lemma_neg_model, lemma_ntt_model, lemma_scalar_model, lemma_sub_model, m_add, m_center,
    m_high_bits, m_inv_ntt, m_low_bits, m_make_hint, m_matvec, m_neg, m_norm_below, m_ntt,
    m_scalar, m_sub, pmn, pv, pvn,
};
use crate::ntt::{coeffs_int, ntt, ntt_fast, ntt_spec};
use crate::ntt_arith::{
    cf, matrix_vector_ntt, matrix_vector_ntt_fast, scalar_vector_ntt, scalar_vector_ntt_fast,
};
use crate::params::{lemma_valid, ParameterSet, N, Q};
use crate::prehash::{digest_spec, oid_last, PreHash};
use crate::poly::{PolyMatNTT, PolyVec, PolyVecNTT};
use crate::sample::{ball_coeffs, sample_in_ball};
use crate::serdes::{
    lemma_sig_bytes, lemma_sizes, lemma_w1_bytes, sig_bytes, sig_encode, sk_decode, sk_decoded,
    sk_s1_coeff, sk_s2_coeff, sk_t0_coeff, w1_bytes, w1_encode,
};
use crate::verify::{shake256_of, shake256_of2};
use crate::vecops::{
    add_vec, center_vec, centered_abs, count_ones, count_ones_ct, exceeds_bound_ct, exceeds_spec,
    high_bits_vec, high_bits_vec_ct, inf_norm, inv_ntt_vec, inv_ntt_vec_fast, is_inf_norm,
    lemma_mod_pm_q, low_bits_vec, low_bits_vec_ct, make_hint_vec, make_hint_vec_ct, neg_vec,
    ntt_vec, ntt_vec_fast, sub_vec, vc,
};
use vstd::prelude::*;

verus! {

/// `M'` for the pure (non-prehash) variant:
/// `IntegerToBytes(0, 1) ‖ IntegerToBytes(|ctx|, 1) ‖ ctx ‖ M`.
pub open spec fn m_prime_spec(ctx: Seq<u8>, m: Seq<u8>) -> Seq<u8> {
    seq![0u8, ctx.len() as u8] + ctx + m
}

/// Append every byte of `src` to `out`.
pub(crate) fn extend_bytes(out: &mut Vec<u8>, src: &[u8])
    ensures
        final(out)@ == old(out)@ + src@,
{
    let ghost start = out@;
    for k in 0..src.len()
        invariant
            out@ == start + src@.subrange(0, k as int),
    {
        out.push(src[k]);
        assert(start + src@.subrange(0, k + 1) =~= (start + src@.subrange(0, k as int)).push(
            src@[k as int],
        ));
    }
    assert(src@.subrange(0, src@.len() as int) =~= src@);
}

/// Format `M'` for the pure (non-prehash) variant:
/// `IntegerToBytes(0, 1) ‖ IntegerToBytes(|ctx|, 1) ‖ ctx ‖ M`.
pub fn format_m_prime(ctx: &[u8], m: &[u8]) -> (mp: Vec<u8>)
    ensures
        mp@ == m_prime_spec(ctx@, m@),
{
    let mut mp: Vec<u8> = Vec::new();
    mp.push(0);
    mp.push(ctx.len() as u8);
    extend_bytes(&mut mp, ctx);
    extend_bytes(&mut mp, m);
    assert(mp@ =~= m_prime_spec(ctx@, m@));
    mp
}

/// One iteration of Sign_internal's loop (lines 11–32) with counter `κ`: the signature
/// if the candidate passes both checks, `None` if it is rejected.
pub open spec fn sign_attempt_spec<P: ParameterSet>(
    a: Seq<Seq<Seq<int>>>,
    s1_hat: Seq<Seq<int>>,
    s2_hat: Seq<Seq<int>>,
    t0_hat: Seq<Seq<int>>,
    mu: Seq<u8>,
    rho_pp: Seq<u8>,
    kappa: int,
) -> Option<Seq<u8>> {
    let y = build(P::L as nat, |r: int, j: int| mask_coeff::<P>(rho_pp, kappa, r, j));
    let w = m_inv_ntt(m_matvec(a, m_ntt(y)));
    let w1 = m_high_bits(w, P::GAMMA2 as int);
    let c_tilde = shake256(mu + w1_bytes::<P>(w1), P::C_TILDE_BYTES as nat);
    let c_hat = ntt_spec(ball_coeffs::<P>(c_tilde));
    let cs1 = m_inv_ntt(m_scalar(c_hat, s1_hat));
    let cs2 = m_inv_ntt(m_scalar(c_hat, s2_hat));
    let z = m_add(y, cs1);
    let r0 = m_low_bits(m_sub(w, cs2), P::GAMMA2 as int);
    if !m_norm_below(z, P::GAMMA1 - P::BETA) || !m_norm_below(r0, P::GAMMA2 - P::BETA) {
        None
    } else {
        let ct0 = m_inv_ntt(m_scalar(c_hat, t0_hat));
        let h = m_make_hint(m_neg(ct0), m_add(m_sub(w, cs2), ct0), P::GAMMA2 as int);
        if !m_norm_below(ct0, P::GAMMA2 as int) || hint_positions(h, P::K as nat).len() > P::OMEGA {
            None
        } else {
            Some(sig_bytes::<P>(c_tilde, m_center(z), h))
        }
    }
}

/// Sign_internal's loop from counter value `κ` on, with `att` attempts made so far: the
/// first accepted signature with the number of attempts made, or an empty signature once
/// `κ + L` would leave the 32-bit counter range.
#[verifier::opaque]
pub open spec fn sign_loop_spec<P: ParameterSet>(
    a: Seq<Seq<Seq<int>>>,
    s1_hat: Seq<Seq<int>>,
    s2_hat: Seq<Seq<int>>,
    t0_hat: Seq<Seq<int>>,
    mu: Seq<u8>,
    rho_pp: Seq<u8>,
    att: nat,
    kappa: nat,
) -> (Seq<u8>, nat)
    decreases u32::MAX - kappa,
{
    if P::L == 0 || kappa + P::L > u32::MAX {
        (Seq::empty(), att)
    } else {
        match sign_attempt_spec::<P>(a, s1_hat, s2_hat, t0_hat, mu, rho_pp, kappa as int) {
            Some(sig) => (sig, att + 1),
            None => sign_loop_spec::<P>(
                a,
                s1_hat,
                s2_hat,
                t0_hat,
                mu,
                rho_pp,
                att + 1,
                (kappa + P::L) as nat,
            ),
        }
    }
}

/// One step of the signing loop.
pub(crate) proof fn lemma_sign_loop_step<P: ParameterSet>(
    a: Seq<Seq<Seq<int>>>,
    s1_hat: Seq<Seq<int>>,
    s2_hat: Seq<Seq<int>>,
    t0_hat: Seq<Seq<int>>,
    mu: Seq<u8>,
    rho_pp: Seq<u8>,
    att: nat,
    kappa: nat,
)
    requires
        P::L > 0,
    ensures
        kappa + P::L > u32::MAX ==> sign_loop_spec::<P>(a, s1_hat, s2_hat, t0_hat, mu, rho_pp, att, kappa)
            == (Seq::<u8>::empty(), att),
        kappa + P::L <= u32::MAX ==> sign_loop_spec::<P>(
            a,
            s1_hat,
            s2_hat,
            t0_hat,
            mu,
            rho_pp,
            att,
            kappa,
        ) == match sign_attempt_spec::<P>(a, s1_hat, s2_hat, t0_hat, mu, rho_pp, kappa as int) {
            Some(sig) => (sig, att + 1),
            None => sign_loop_spec::<P>(
                a,
                s1_hat,
                s2_hat,
                t0_hat,
                mu,
                rho_pp,
                att + 1,
                (kappa + P::L) as nat,
            ),
        },
{
    reveal_with_fuel(sign_loop_spec, 1);
}

/// The entries of an NTT-domain vector are in `[0, q)`.
pub open spec fn canonical_vec<const M: usize>(v: PolyVecNTT<M>) -> bool {
    forall|j: int, k: int| 0 <= j < M && 0 <= k < N ==> 0 <= #[trigger] cf(v.v[j], k) < Q
}

/// Canonical polynomials have every coefficient in `[0, q)`.
pub(crate) proof fn lemma_canonical_vec<const M: usize>(v: PolyVecNTT<M>)
    requires
        forall|i: int|
            0 <= i < M ==> crate::ntt::canonical(coeffs_int((#[trigger] v.v[i]).coeffs)),
    ensures
        canonical_vec(v),
{
    assert forall|j: int, k: int| 0 <= j < M && 0 <= k < N implies 0 <= #[trigger] cf(v.v[j], k)
        < Q by {
        assert(crate::ntt::canonical(coeffs_int(v.v[j].coeffs)));
        assert(coeffs_int(v.v[j].coeffs)[k] == cf(v.v[j], k));
    }
}

/// `‖v‖∞ ≥ bound` exactly when some centred magnitude reaches `bound`.
pub(crate) proof fn lemma_norm_at_least<const M: usize>(v: PolyVec<M>, n: int, bound: int)
    requires
        is_inf_norm(v, n),
        bound > 0,
    ensures
        (n >= bound) == !m_norm_below(pv(v), bound),
{
    if n < bound {
        assert forall|i: int, k: int| 0 <= i < M && 0 <= k < N implies centered_abs(
            #[trigger] pv(v)[i][k],
        ) < bound by {
            assert(pv(v)[i][k] == vc(v, i, k));
        }
    } else {
        let (i, k) = choose|i: int, k: int|
            0 <= i < M && 0 <= k < N && centered_abs(#[trigger] vc(v, i, k)) == n;
        assert(pv(v)[i][k] == vc(v, i, k));
    }
}

/// The branchless bound check is the model's.
proof fn lemma_exceeds_model<const M: usize>(v: PolyVec<M>, bound: int)
    ensures
        exceeds_spec(v, bound) == !m_norm_below(pv(v), bound),
{
    if exceeds_spec(v, bound) {
        let (i, k) = choose|i: int, k: int|
            0 <= i < M && 0 <= k < N && centered_abs(#[trigger] vc(v, i, k)) >= bound;
        assert(pv(v)[i][k] == vc(v, i, k));
    } else {
        assert forall|i: int, k: int| 0 <= i < M && 0 <= k < N implies centered_abs(
            #[trigger] pv(v)[i][k],
        ) < bound by {
            assert(pv(v)[i][k] == vc(v, i, k));
        }
    }
}

/// Centred magnitudes are at most `(q − 1)/2`, so the branchless checks cannot overflow.
proof fn lemma_bound_fits<const M: usize>(v: PolyVec<M>, bound: int)
    requires
        0 < bound <= Q,
    ensures
        crate::vecops::bound_fits(v, bound),
{
    assert forall|i: int, j: int| 0 <= i < M && 0 <= j < N implies bound - 1 - centered_abs(
        #[trigger] vc(v, i, j),
    ) >= i32::MIN by {
        lemma_mod_pm_q(vc(v, i, j));
    }
}

/// Sums of coefficients in `[0, q)` fit an `i32`.
pub(crate) proof fn lemma_sums_fit<const M: usize>(z: PolyVec<M>, r: PolyVec<M>)
    requires
        forall|i: int, j: int| 0 <= i < M && 0 <= j < N ==> 0 <= #[trigger] vc(z, i, j) < Q,
        forall|i: int, j: int| 0 <= i < M && 0 <= j < N ==> 0 <= #[trigger] vc(r, i, j) < Q,
    ensures
        crate::vecops::vec_sums_fit(z, r),
{
    assert forall|i: int| 0 <= i < M implies crate::rounding::sums_fit(#[trigger] z.v[i], r.v[i]) by {
        assert forall|k: int| 0 <= k < N implies i32::MIN <= #[trigger] r.v[i].coeffs[k]
            + z.v[i].coeffs[k] <= i32::MAX by {
            assert(vc(z, i, k) == z.v[i].coeffs[k]);
            assert(vc(r, i, k) == r.v[i].coeffs[k]);
        }
    }
}

/// One iteration of Sign_internal's loop (lines 11–32) on the baseline components.
fn sign_attempt<P: ParameterSet, const K: usize, const L: usize>(
    a_hat: &PolyMatNTT<K, L>,
    s1_hat: &PolyVecNTT<L>,
    s2_hat: &PolyVecNTT<K>,
    t0_hat: &PolyVecNTT<K>,
    mu: &[u8; 64],
    rho_pp: &[u8; 64],
    kappa: u32,
) -> (r: Option<Vec<u8>>)
    requires
        K == P::K,
        L == P::L,
        kappa + L <= u32::MAX,
    ensures
        match r {
            Some(sig) => sign_attempt_spec::<P>(
                pmn(*a_hat),
                pvn(*s1_hat),
                pvn(*s2_hat),
                pvn(*t0_hat),
                mu@,
                rho_pp@,
                kappa as int,
            ) == Some(sig@),
            None => sign_attempt_spec::<P>(
                pmn(*a_hat),
                pvn(*s1_hat),
                pvn(*s2_hat),
                pvn(*t0_hat),
                mu@,
                rho_pp@,
                kappa as int,
            ) is None,
        },
{
    proof {
        lemma_valid::<P>();
        lemma_sizes::<P>();
    }
    let ghost a = pmn(*a_hat);
    let ghost s1m = pvn(*s1_hat);
    let ghost s2m = pvn(*s2_hat);
    let ghost t0m = pvn(*t0_hat);
    proof {
        reveal(sign_attempt_spec);
    }
    // lines 11–13
    let y = expand_mask::<P, L>(rho_pp, kappa);
    let ghost ym = build(P::L as nat, |r: int, j: int| mask_coeff::<P>(rho_pp@, kappa as int, r, j));
    proof {
        assert forall|r: int, j: int| 0 <= r < L && 0 <= j < N implies #[trigger] pv(y)[r][j] == ym[r][j] by {
            assert(y.v[r].coeffs@[j] == mask_coeff::<P>(rho_pp@, kappa as int, r, j));
        }
        lemma_model_eq(pv(y), ym);
    }
    let y_hat = ntt_vec(&y);
        let ay = matrix_vector_ntt(a_hat, &y_hat);
    let w = inv_ntt_vec(&ay);
    let w1 = high_bits_vec::<P, K>(&w);
    proof {
        lemma_ntt_model(y, y_hat);
        lemma_matvec_model(*a_hat, y_hat, ay);
        lemma_inv_ntt_model(ay, w);
        lemma_high_bits_model(w, P::GAMMA2 as int, w1);
    }
    // lines 15–17
    let w1e = w1_encode::<P, K>(&w1);
    proof {
        lemma_w1_bytes::<P, K>(w1);
    }
    let c_tilde = shake256_of2(mu.as_slice(), w1e.as_slice(), P::C_TILDE_BYTES);
    let c = sample_in_ball::<P>(c_tilde.as_slice());
    let c_hat = ntt(&c);
    proof {
        assert(coeffs_int(c.coeffs) =~= ball_coeffs::<P>(c_tilde@));
        assert forall|k: int| 0 <= k < N implies 0 <= #[trigger] cf(c_hat, k) < Q by {
            assert(coeffs_int(c_hat.coeffs)[k] == cf(c_hat, k));
        }
    }
    // lines 18–21
    let cs1_hat = scalar_vector_ntt(&c_hat, s1_hat);
    let cs1 = inv_ntt_vec(&cs1_hat);
    let cs2_hat = scalar_vector_ntt(&c_hat, s2_hat);
    let cs2 = inv_ntt_vec(&cs2_hat);
    let z = add_vec(&y, &cs1);
    let w_cs2 = sub_vec(&w, &cs2);
    let r0 = low_bits_vec::<P, K>(&w_cs2);
    proof {
        lemma_scalar_model(c_hat, *s1_hat, cs1_hat);
        lemma_inv_ntt_model(cs1_hat, cs1);
        lemma_scalar_model(c_hat, *s2_hat, cs2_hat);
        lemma_inv_ntt_model(cs2_hat, cs2);
        lemma_add_model(y, cs1, z);
        lemma_sub_model(w, cs2, w_cs2);
        lemma_low_bits_model(w_cs2, P::GAMMA2 as int, r0);
    }
    // line 23
    let zn = inf_norm(&z);
    let rn = inf_norm(&r0);
    proof {
        lemma_norm_at_least(z, zn as int, P::GAMMA1 - P::BETA);
        lemma_norm_at_least(r0, rn as int, P::GAMMA2 - P::BETA);
    }
    if zn >= P::GAMMA1 - P::BETA || rn >= P::GAMMA2 - P::BETA {
        return None;
    }
    // lines 25–26
    let ct0_hat = scalar_vector_ntt(&c_hat, t0_hat);
    let ct0 = inv_ntt_vec(&ct0_hat);
    let r_arg = add_vec(&w_cs2, &ct0);
    let nct0 = neg_vec(&ct0);
    proof {
        lemma_scalar_model(c_hat, *t0_hat, ct0_hat);
        lemma_inv_ntt_model(ct0_hat, ct0);
        lemma_add_model(w_cs2, ct0, r_arg);
        lemma_neg_model(ct0, nct0);
        lemma_sums_fit(nct0, r_arg);
    }
    let h = make_hint_vec::<P, K>(&nct0, &r_arg);
    proof {
        lemma_make_hint_model(nct0, r_arg, P::GAMMA2 as int, h);
        lemma_hint_positions_len(h);
    }
    // line 28
    let cn = inf_norm(&ct0);
    proof {
        lemma_norm_at_least(ct0, cn as int, P::GAMMA2 as int);
    }
    if cn >= P::GAMMA2 || count_ones(&h) > P::OMEGA {
        return None;
    }
    // line 33
    let zc = center_vec(&z);
    proof {
        lemma_center_model(z, zc);
    }
    let sig = sig_encode::<P, K, L>(c_tilde.as_slice(), &zc, &h);
    proof {
        lemma_sig_bytes::<P, K, L>(c_tilde@, zc, h);
    }
    Some(sig)
}

/// One iteration of Sign_internal's loop on the division-free, branchless components.
pub(crate) fn sign_attempt_fast<P: ParameterSet, const K: usize, const L: usize>(
    a_hat: &PolyMatNTT<K, L>,
    s1_hat: &PolyVecNTT<L>,
    s2_hat: &PolyVecNTT<K>,
    t0_hat: &PolyVecNTT<K>,
    mu: &[u8; 64],
    rho_pp: &[u8; 64],
    kappa: u32,
) -> (r: Option<Vec<u8>>)
    requires
        K == P::K,
        L == P::L,
        kappa + L <= u32::MAX,
        forall|r: int, s: int, k: int|
            0 <= r < K && 0 <= s < L && 0 <= k < N ==> 0 <= #[trigger] cf(a_hat.rows[r].v[s], k) < Q,
        canonical_vec(*s1_hat),
        canonical_vec(*s2_hat),
        canonical_vec(*t0_hat),
    ensures
        match r {
            Some(sig) => sign_attempt_spec::<P>(
                pmn(*a_hat),
                pvn(*s1_hat),
                pvn(*s2_hat),
                pvn(*t0_hat),
                mu@,
                rho_pp@,
                kappa as int,
            ) == Some(sig@),
            None => sign_attempt_spec::<P>(
                pmn(*a_hat),
                pvn(*s1_hat),
                pvn(*s2_hat),
                pvn(*t0_hat),
                mu@,
                rho_pp@,
                kappa as int,
            ) is None,
        },
{
    proof {
        lemma_valid::<P>();
        lemma_sizes::<P>();
    }
    let ghost a = pmn(*a_hat);
    let ghost s1m = pvn(*s1_hat);
    let ghost s2m = pvn(*s2_hat);
    let ghost t0m = pvn(*t0_hat);
    proof {
        reveal(sign_attempt_spec);
    }
    // lines 11–13
    let y = expand_mask::<P, L>(rho_pp, kappa);
    let ghost ym = build(P::L as nat, |r: int, j: int| mask_coeff::<P>(rho_pp@, kappa as int, r, j));
    proof {
        assert forall|r: int, j: int| 0 <= r < L && 0 <= j < N implies #[trigger] pv(y)[r][j] == ym[r][j] by {
            assert(y.v[r].coeffs@[j] == mask_coeff::<P>(rho_pp@, kappa as int, r, j));
        }
        lemma_model_eq(pv(y), ym);
    }
    let y_hat = ntt_vec_fast(&y);
    proof {
        lemma_canonical_vec(y_hat);
    }
    let ay = matrix_vector_ntt_fast(a_hat, &y_hat);
    let w = inv_ntt_vec_fast(&ay);
    let w1 = high_bits_vec_ct::<P, K>(&w);
    proof {
        lemma_ntt_model(y, y_hat);
        lemma_matvec_model(*a_hat, y_hat, ay);
        lemma_inv_ntt_model(ay, w);
        lemma_high_bits_model(w, P::GAMMA2 as int, w1);
    }
    // lines 15–17
    let w1e = w1_encode::<P, K>(&w1);
    proof {
        lemma_w1_bytes::<P, K>(w1);
    }
    let c_tilde = shake256_of2(mu.as_slice(), w1e.as_slice(), P::C_TILDE_BYTES);
    let c = sample_in_ball::<P>(c_tilde.as_slice());
    let c_hat = ntt_fast(&c);
    proof {
        assert(coeffs_int(c.coeffs) =~= ball_coeffs::<P>(c_tilde@));
        assert forall|k: int| 0 <= k < N implies 0 <= #[trigger] cf(c_hat, k) < Q by {
            assert(coeffs_int(c_hat.coeffs)[k] == cf(c_hat, k));
        }
    }
    // lines 18–21
    let cs1_hat = scalar_vector_ntt_fast(&c_hat, s1_hat);
    let cs1 = inv_ntt_vec_fast(&cs1_hat);
    let cs2_hat = scalar_vector_ntt_fast(&c_hat, s2_hat);
    let cs2 = inv_ntt_vec_fast(&cs2_hat);
    let z = add_vec(&y, &cs1);
    let w_cs2 = sub_vec(&w, &cs2);
    let r0 = low_bits_vec_ct::<P, K>(&w_cs2);
    proof {
        lemma_scalar_model(c_hat, *s1_hat, cs1_hat);
        lemma_inv_ntt_model(cs1_hat, cs1);
        lemma_scalar_model(c_hat, *s2_hat, cs2_hat);
        lemma_inv_ntt_model(cs2_hat, cs2);
        lemma_add_model(y, cs1, z);
        lemma_sub_model(w, cs2, w_cs2);
        lemma_low_bits_model(w_cs2, P::GAMMA2 as int, r0);
    }
    // line 23
    proof {
        lemma_bound_fits(z, P::GAMMA1 - P::BETA);
        lemma_bound_fits(r0, P::GAMMA2 - P::BETA);
        lemma_exceeds_model(z, P::GAMMA1 - P::BETA);
        lemma_exceeds_model(r0, P::GAMMA2 - P::BETA);
    }
    if exceeds_bound_ct(&z, P::GAMMA1 - P::BETA) || exceeds_bound_ct(&r0, P::GAMMA2 - P::BETA) {
        return None;
    }
    // lines 25–26
    let ct0_hat = scalar_vector_ntt_fast(&c_hat, t0_hat);
    let ct0 = inv_ntt_vec_fast(&ct0_hat);
    let r_arg = add_vec(&w_cs2, &ct0);
    let nct0 = neg_vec(&ct0);
    proof {
        lemma_scalar_model(c_hat, *t0_hat, ct0_hat);
        lemma_inv_ntt_model(ct0_hat, ct0);
        lemma_add_model(w_cs2, ct0, r_arg);
        lemma_neg_model(ct0, nct0);
        lemma_sums_fit(nct0, r_arg);
    }
    let h = make_hint_vec_ct::<P, K>(&nct0, &r_arg);
    proof {
        lemma_make_hint_model(nct0, r_arg, P::GAMMA2 as int, h);
        lemma_hint_positions_len(h);
    }
    // line 28
    proof {
        lemma_bound_fits(ct0, P::GAMMA2 as int);
        lemma_exceeds_model(ct0, P::GAMMA2 as int);
    }
    if exceeds_bound_ct(&ct0, P::GAMMA2) || count_ones_ct(&h) > P::OMEGA {
        return None;
    }
    // line 33
    let zc = center_vec(&z);
    proof {
        lemma_center_model(z, zc);
    }
    let sig = sig_encode::<P, K, L>(c_tilde.as_slice(), &zc, &h);
    proof {
        lemma_sig_bytes::<P, K, L>(c_tilde@, zc, h);
    }
    Some(sig)
}

/// The secret key's `s1`, as a model.
pub open spec fn sk_s1_m<P: ParameterSet>(sk: Seq<u8>) -> Seq<Seq<int>> {
    build(P::L as nat, |i: int, j: int| sk_s1_coeff::<P>(sk, i, j))
}

/// The secret key's `s2`, as a model.
pub open spec fn sk_s2_m<P: ParameterSet>(sk: Seq<u8>) -> Seq<Seq<int>> {
    build(P::K as nat, |i: int, j: int| sk_s2_coeff::<P>(sk, i, j))
}

/// The secret key's `t0`, as a model.
pub open spec fn sk_t0_m<P: ParameterSet>(sk: Seq<u8>) -> Seq<Seq<int>> {
    build(P::K as nat, |i: int, j: int| sk_t0_coeff::<P>(sk, i, j))
}

/// `μ ← H(tr ‖ M', 64)` (Sign_internal line 6), `tr` read from the secret key.
pub open spec fn sign_mu(sk: Seq<u8>, m_prime: Seq<u8>) -> Seq<u8> {
    shake256(sk.subrange(64, 128) + m_prime, 64)
}

/// `ρ'' ← H(K ‖ rnd ‖ μ, 64)` (Sign_internal line 7).
pub open spec fn sign_rho_pp(sk: Seq<u8>, m_prime: Seq<u8>, rnd: Seq<u8>) -> Seq<u8> {
    shake256(sk.subrange(32, 64) + rnd + sign_mu(sk, m_prime), 64)
}

/// FIPS 204 Algorithm 7 — ML-DSA.Sign_internal as a function of the secret key, `M'` and
/// `rnd`: the signature and the number of loop iterations made.
pub open spec fn sign_internal_spec<P: ParameterSet>(sk: Seq<u8>, m_prime: Seq<u8>, rnd: Seq<u8>) -> (
    Seq<u8>,
    nat,
) {
    sign_loop_spec::<P>(
        expand_a_m(sk.subrange(0, 32), P::K as nat, P::L as nat),
        m_ntt(sk_s1_m::<P>(sk)),
        m_ntt(sk_s2_m::<P>(sk)),
        m_ntt(sk_t0_m::<P>(sk)),
        sign_mu(sk, m_prime),
        sign_rho_pp(sk, m_prime, rnd),
        0,
        0,
    )
}

/// The decoded secret vectors, as models.
pub(crate) proof fn lemma_sk_models<P: ParameterSet, const K: usize, const L: usize>(
    sk: Seq<u8>,
    s1: PolyVec<L>,
    s2: PolyVec<K>,
    t0: PolyVec<K>,
)
    requires
        K == P::K,
        L == P::L,
        forall|i: int, j: int|
            0 <= i < L && 0 <= j < N ==> #[trigger] s1.v[i].coeffs@[j] == sk_s1_coeff::<P>(sk, i, j),
        forall|i: int, j: int|
            0 <= i < K && 0 <= j < N ==> #[trigger] s2.v[i].coeffs@[j] == sk_s2_coeff::<P>(sk, i, j),
        forall|i: int, j: int|
            0 <= i < K && 0 <= j < N ==> #[trigger] t0.v[i].coeffs@[j] == sk_t0_coeff::<P>(sk, i, j),
    ensures
        pv(s1) == sk_s1_m::<P>(sk),
        pv(s2) == sk_s2_m::<P>(sk),
        pv(t0) == sk_t0_m::<P>(sk),
{
    lemma_model_eq(pv(s1), sk_s1_m::<P>(sk));
    lemma_model_eq(pv(s2), sk_s2_m::<P>(sk));
    lemma_model_eq(pv(t0), sk_t0_m::<P>(sk));
}

/// ExpandA's result, as a model.
pub(crate) proof fn lemma_expand_a_model<const K: usize, const L: usize>(rho: Seq<u8>, a_hat: PolyMatNTT<K, L>)
    requires
        forall|r: int, s: int, k: int|
            0 <= r < K && 0 <= s < L && 0 <= k < N ==> #[trigger] a_hat.rows[r].v[s].coeffs@[k]
                == crate::sample::rej_ntt_coeffs(crate::expand::expand_a_seed(rho, r, s))[k],
    ensures
        pmn(a_hat) == expand_a_m(rho, K as nat, L as nat),
{
    let am = expand_a_m(rho, K as nat, L as nat);
    assert forall|r: int| 0 <= r < K implies #[trigger] pmn(a_hat)[r] == am[r] by {
        assert forall|s: int| 0 <= s < L implies #[trigger] pmn(a_hat)[r][s] == am[r][s] by {
            assert(pmn(a_hat)[r][s] =~= am[r][s]);
        }
        assert(pmn(a_hat)[r] =~= am[r]);
    }
    assert(pmn(a_hat) =~= am);
}

/// Lines 6–7 of Sign_internal: `μ` and `ρ''`.
pub(crate) fn sign_seeds(tr: &[u8; 64], k_seed: &[u8; 32], m_prime: &[u8], rnd: &[u8; 32]) -> (r: (
    [u8; 64],
    [u8; 64],
))
    ensures
        r.0@ == shake256(tr@ + m_prime@, 64),
        r.1@ == shake256(k_seed@ + rnd@ + r.0@, 64),
{
    let mut hm = H::init();
    hm.absorb(tr.as_slice());
    hm.absorb(m_prime);
    let mut mu = [0u8; 64];
    let mut hmr = hm.finalize();
    hmr.squeeze(&mut mu);
    assert(mu@ =~= shake256(tr@ + m_prime@, 64));
    let mut hr = H::init();
    hr.absorb(k_seed.as_slice());
    hr.absorb(rnd.as_slice());
    hr.absorb(mu.as_slice());
    let mut rho_pp = [0u8; 64];
    let mut hrr = hr.finalize();
    hrr.squeeze(&mut rho_pp);
    assert(rho_pp@ =~= shake256(k_seed@ + rnd@ + mu@, 64));
    (mu, rho_pp)
}

/// Like [`sign_internal`], but also returns the number of rejection-loop iterations
/// (attempts until acceptance).
pub fn sign_internal_traced<P: ParameterSet, const K: usize, const L: usize>(
    sk: &[u8],
    m_prime: &[u8],
    rnd: &[u8; 32],
) -> (r: (Vec<u8>, u32))
    requires
        K == P::K,
        L == P::L,
        sk@.len() == P::SK_BYTES,
    ensures
        (r.0@, r.1 as nat) == sign_internal_spec::<P>(sk@, m_prime@, rnd@),
{
    proof {
        lemma_valid::<P>();
    }
    let (rho, k_seed, tr, s1, s2, t0) = match sk_decode::<P, K, L>(sk) {
        Ok(d) => d,
        Err(_) => {
            return (Vec::new(), 0);
        },
    };
    proof {
        lemma_sk_models::<P, K, L>(sk@, s1, s2, t0);
    }
    // lines 2–5
    let s1_hat = ntt_vec(&s1);
    let s2_hat = ntt_vec(&s2);
    let t0_hat = ntt_vec(&t0);
    let a_hat = expand_a::<K, L>(&rho);
    proof {
        lemma_ntt_model(s1, s1_hat);
        lemma_ntt_model(s2, s2_hat);
        lemma_ntt_model(t0, t0_hat);
        lemma_expand_a_model(rho@, a_hat);
    }
    // lines 6–7
    let (mu, rho_pp) = sign_seeds(&tr, &k_seed, m_prime, rnd);
    let ghost am = pmn(a_hat);
    let ghost s1m = pvn(s1_hat);
    let ghost s2m = pvn(s2_hat);
    let ghost t0m = pvn(t0_hat);
    let ghost target = sign_internal_spec::<P>(sk@, m_prime@, rnd@);
    assert(sign_loop_spec::<P>(am, s1m, s2m, t0m, mu@, rho_pp@, 0, 0) == target);
    // line 8 onwards
    let l = L as u32;
    let mut kappa: u32 = 0;
    let mut attempts: u32 = 0;
    loop
        invariant
            K == P::K,
            L == P::L,
            4 <= L <= 7,
            l == L,
            attempts <= kappa,
            am == pmn(a_hat),
            s1m == pvn(s1_hat),
            s2m == pvn(s2_hat),
            t0m == pvn(t0_hat),
            sign_loop_spec::<P>(am, s1m, s2m, t0m, mu@, rho_pp@, attempts as nat, kappa as nat)
                == target,
            target == sign_internal_spec::<P>(sk@, m_prime@, rnd@),
        decreases u32::MAX - kappa,
    {
        proof {
            lemma_sign_loop_step::<P>(am, s1m, s2m, t0m, mu@, rho_pp@, attempts as nat, kappa as nat);
        }
        if kappa > u32::MAX - l {
            return (Vec::new(), attempts);
        }
        attempts += 1;
        match sign_attempt::<P, K, L>(&a_hat, &s1_hat, &s2_hat, &t0_hat, &mu, &rho_pp, kappa) {
            Some(sig) => {
                return (sig, attempts);
            },
            None => {
                kappa += l;
            },
        }
    }
}

/// FIPS 204, Algorithm 7 — ML-DSA.Sign_internal: signature for a formatted message `M'`.
pub fn sign_internal<P: ParameterSet, const K: usize, const L: usize>(
    sk: &[u8],
    m_prime: &[u8],
    rnd: &[u8; 32],
) -> (sig: Vec<u8>)
    requires
        K == P::K,
        L == P::L,
        sk@.len() == P::SK_BYTES,
    ensures
        sig@ == sign_internal_spec::<P>(sk@, m_prime@, rnd@).0,
{
    sign_internal_traced::<P, K, L>(sk, m_prime, rnd).0
}

/// The result of ML-DSA.Sign with per-signature randomness `rnd`: `ContextTooLong` for
/// a context over 255 bytes, else the signature of `M'` with its iteration count.
pub open spec fn sign_traced_spec<P: ParameterSet>(
    sk: Seq<u8>,
    m: Seq<u8>,
    ctx: Seq<u8>,
    rnd: Seq<u8>,
) -> core::result::Result<(Seq<u8>, nat), Error> {
    if ctx.len() > 255 {
        Err(Error::ContextTooLong)
    } else {
        Ok(sign_internal_spec::<P>(sk, m_prime_spec(ctx, m), rnd))
    }
}

/// Deterministic signing that also returns the rejection-loop iteration count.
pub fn sign_deterministic_traced<P: ParameterSet, const K: usize, const L: usize>(
    sk: &[u8],
    m: &[u8],
    ctx: &[u8],
) -> (r: Result<(Vec<u8>, u32)>)
    requires
        K == P::K,
        L == P::L,
        sk@.len() == P::SK_BYTES,
    ensures
        match r {
            Ok((sig, n)) => sign_traced_spec::<P>(sk@, m@, ctx@, seq![0u8; 32]) == Ok::<
                (Seq<u8>, nat),
                Error,
            >((sig@, n as nat)),
            Err(e) => sign_traced_spec::<P>(sk@, m@, ctx@, seq![0u8; 32]) == Err::<
                (Seq<u8>, nat),
                Error,
            >(e),
        },
{
    if ctx.len() > 255 {
        return Err(Error::ContextTooLong);
    }
    let zero = [0u8; 32];
    assert(zero@ =~= seq![0u8; 32]);
    Ok(sign_internal_traced::<P, K, L>(sk, &format_m_prime(ctx, m), &zero))
}

/// Deterministic variant (FIPS 204 §3.4): `rnd = {0}^32`. Not recommended where
/// side-channel attacks are a concern.
pub fn sign_deterministic<P: ParameterSet, const K: usize, const L: usize>(
    sk: &[u8],
    m: &[u8],
    ctx: &[u8],
) -> (r: Result<Vec<u8>>)
    requires
        K == P::K,
        L == P::L,
        sk@.len() == P::SK_BYTES,
    ensures
        match r {
            Ok(sig) => sign_traced_spec::<P>(sk@, m@, ctx@, seq![0u8; 32]) matches Ok((s, _))
                && s == sig@,
            Err(e) => e == Error::ContextTooLong && ctx@.len() > 255,
        },
        ctx@.len() <= 255 <==> r is Ok,
{
    match sign_deterministic_traced::<P, K, L>(sk, m, ctx) {
        Ok((sig, _n)) => Ok(sig),
        Err(e) => Err(e),
    }
}

/// FIPS 204, Algorithm 2 — ML-DSA.Sign (hedged), given the 32 random bytes `rnd` that
/// the caller drew for this signature.
pub fn sign_with_rnd<P: ParameterSet, const K: usize, const L: usize>(
    sk: &[u8],
    m: &[u8],
    ctx: &[u8],
    rnd: &[u8; 32],
) -> (r: Result<Vec<u8>>)
    requires
        K == P::K,
        L == P::L,
        sk@.len() == P::SK_BYTES,
    ensures
        match r {
            Ok(sig) => sign_traced_spec::<P>(sk@, m@, ctx@, rnd@) matches Ok((s, _)) && s == sig@,
            Err(e) => e == Error::ContextTooLong && ctx@.len() > 255,
        },
        ctx@.len() <= 255 <==> r is Ok,
{
    if ctx.len() > 255 {
        return Err(Error::ContextTooLong);
    }
    Ok(sign_internal::<P, K, L>(sk, &format_m_prime(ctx, m), rnd))
}

/// `M'` for HashML-DSA (Algorithms 4–5):
/// `IntegerToBytes(1, 1) ‖ IntegerToBytes(|ctx|, 1) ‖ ctx ‖ OID ‖ PH(M)`.
pub open spec fn m_prime_prehash_spec(ctx: Seq<u8>, m: Seq<u8>, ph: PreHash) -> Seq<u8> {
    seq![1u8, ctx.len() as u8] + ctx + seq![
        0x06u8,
        0x09,
        0x60,
        0x86,
        0x48,
        0x01,
        0x65,
        0x03,
        0x04,
        0x02,
        oid_last(ph),
    ] + digest_spec(ph, m)
}

/// Format `M'` for HashML-DSA: `IntegerToBytes(1, 1) ‖ IntegerToBytes(|ctx|, 1) ‖ ctx ‖ OID ‖ PH(M)`.
pub fn format_m_prime_prehash(ctx: &[u8], m: &[u8], ph: PreHash) -> (mp: Vec<u8>)
    ensures
        mp@ == m_prime_prehash_spec(ctx@, m@, ph),
{
    let mut mp: Vec<u8> = Vec::new();
    mp.push(1);
    mp.push(ctx.len() as u8);
    extend_bytes(&mut mp, ctx);
    let oid = ph.oid();
    extend_bytes(&mut mp, oid.as_slice());
    let d = ph.digest(m);
    extend_bytes(&mut mp, d.as_slice());
    assert(mp@ =~= m_prime_prehash_spec(ctx@, m@, ph));
    mp
}

/// FIPS 204, Algorithm 4 — HashML-DSA.Sign, given the 32 random bytes `rnd` drawn for
/// this signature (all zero for the deterministic variant).
pub fn hash_sign_with_rnd<P: ParameterSet, const K: usize, const L: usize>(
    sk: &[u8],
    m: &[u8],
    ctx: &[u8],
    ph: PreHash,
    rnd: &[u8; 32],
) -> (r: Result<Vec<u8>>)
    requires
        K == P::K,
        L == P::L,
        sk@.len() == P::SK_BYTES,
    ensures
        match r {
            Ok(sig) => sig@ == sign_internal_spec::<P>(sk@, m_prime_prehash_spec(ctx@, m@, ph), rnd@).0,
            Err(e) => e == Error::ContextTooLong && ctx@.len() > 255,
        },
        ctx@.len() <= 255 <==> r is Ok,
{
    if ctx.len() > 255 {
        return Err(Error::ContextTooLong);
    }
    Ok(sign_internal::<P, K, L>(sk, &format_m_prime_prehash(ctx, m, ph), rnd))
}

/// [`sign_internal`] on the division-free, branchless components (through a prepared
/// [`crate::signer::Signer`]): the same signature.
pub fn sign_internal_fast<P: ParameterSet, const K: usize, const L: usize>(
    sk: &[u8],
    m_prime: &[u8],
    rnd: &[u8; 32],
) -> (sig: Vec<u8>)
    requires
        K == P::K,
        L == P::L,
        sk@.len() == P::SK_BYTES,
    ensures
        sig@ == sign_internal_spec::<P>(sk@, m_prime@, rnd@).0,
{
    match crate::signer::Signer::<P, K, L>::from_sk(sk) {
        Ok(signer) => signer.sign_internal(m_prime, rnd),
        Err(_) => Vec::new(),
    }
}

} // verus!
