//! Correctness of ML-DSA: every signature that Sign_internal produces under a key pair of
//! KeyGen_internal is accepted by Verify_internal under that key pair's public key.
use crate::model::{lemma_polyvec_of, polyvec_of, pv};
use crate::params::{lemma_valid, ParameterSet, N};
use crate::serdes::{
    lemma_pk_bytes, lemma_pk_decode_of_encode, lemma_sig_bytes, lemma_sig_decode_of_encode,
    lemma_sk_bytes, lemma_sk_decode_of_encode, pk_bytes, pk_t1_coeff, sig_bytes, sig_hint_bytes,
    sig_z_coeff, sk_bytes, sk_s1_coeff, sk_s2_coeff, sk_t0_coeff, T0_A, T0_B,
};
use crate::hint::{hint_coeff, hint_positions, hint_well_formed};
use crate::field::{mod_pm_spec, mod_q};
use crate::model::{
    build, m_add, m_center, m_dot, m_inv_ntt, m_matvec, m_ntt, m_power2round_hi, m_power2round_lo,
    m_scalar, m_sub,
};
use crate::ntt::{canonical, inv_ntt_spec, ntt_spec};
use crate::ntt_algebra::{
    lemma_inv_ntt_congruent, lemma_inv_ntt_linear, lemma_ntt_canonical, lemma_ntt_congruent,
    lemma_ntt_linear, lemma_ntt_of_inv_ntt,
};
use crate::params::Q;
use crate::field::abs_int;
use crate::rounding::{
    gamma2_ok, high_bits_spec, lemma_decompose, lemma_decompose_congruent, lemma_gamma2_m,
    lemma_high_bits_stable, lemma_mod_pm_q_congruent, lemma_power2round, lemma_use_hint_signer,
    low_bits_spec, make_hint_spec, power2round_spec, use_hint_spec,
};
use crate::vecops::centered_abs;
use crate::sign::{
    lemma_sign_loop_step, sign_attempt_spec, sign_internal_spec, sign_loop_spec, sign_mu,
    sign_rho_pp, sk_s1_m, sk_s2_m, sk_t0_m,
};
use crate::expand::mask_coeff;
use crate::hash::shake256;
use crate::keygen::{expand_a_m, expand_s1_m, expand_s2_m, keygen_seed, keygen_spec, keygen_t};
use crate::model::{
    lemma_model_eq, m_high_bits, m_low_bits, m_make_hint, m_neg, m_norm_below,
};
use crate::sample::{ball_coeffs, lemma_ball_coeffs_shape, lemma_rej_bounded_coeffs_range};
use crate::serdes::w1_bytes;
use crate::signer::{sign_verified_spec, sk_public_key, sk_t};
use crate::sign::m_prime_spec;
use crate::error::Error;
use crate::verify::{message_rep, sig_h_m, sig_z_m, verify_internal_spec, verify_w1};
use vstd::arithmetic::div_mod::{
    lemma_add_mod_noop, lemma_mod_twice, lemma_mul_mod_noop_right, lemma_sub_mod_noop,
};
use vstd::prelude::*;

verus! {

/// Rows of 256 entries each, all within `[lo, hi]`.
pub open spec fn rows_within(v: Seq<Seq<int>>, rows: nat, lo: int, hi: int) -> bool {
    &&& v.len() == rows
    &&& forall|i: int| 0 <= i < rows ==> (#[trigger] v[i]).len() == N
    &&& forall|i: int, k: int| 0 <= i < rows && 0 <= k < N ==> lo <= #[trigger] v[i][k] <= hi
}

/// pkDecode of pkEncode over models.
proof fn lemma_pk_model<P: ParameterSet, const K: usize>(rho: Seq<u8>, t1: Seq<Seq<int>>)
    requires
        K == P::K,
        rho.len() == 32,
        rows_within(t1, K as nat, 0, 1023),
    ensures
        pk_bytes(rho, t1).len() == P::PK_BYTES,
        pk_bytes(rho, t1).subrange(0, 32) == rho,
        forall|i: int, j: int|
            0 <= i < K && 0 <= j < N ==> #[trigger] pk_t1_coeff(pk_bytes(rho, t1), i, j) == t1[i][j],
{
    lemma_polyvec_of::<K>(t1);
    let t = polyvec_of::<K>(t1);
    lemma_pk_bytes(rho, t);
    assert forall|i: int, j: int| 0 <= i < K && 0 <= j < N implies 0 <= #[trigger] crate::vecops::vc(
        t,
        i,
        j,
    ) <= crate::serdes::T1_TOP by {
        assert(pv(t)[i][j] == t1[i][j]);
    }
    lemma_pk_decode_of_encode::<P, K>(rho, t);
    assert forall|i: int, j: int| 0 <= i < K && 0 <= j < N implies #[trigger] pk_t1_coeff(
        pk_bytes(rho, t1),
        i,
        j,
    ) == t1[i][j] by {
        assert(pv(t)[i][j] == t.v[i].coeffs@[j]);
    }
}

/// skDecode of skEncode over models.
proof fn lemma_sk_model<P: ParameterSet, const K: usize, const L: usize>(
    rho: Seq<u8>,
    k_seed: Seq<u8>,
    tr: Seq<u8>,
    s1: Seq<Seq<int>>,
    s2: Seq<Seq<int>>,
    t0: Seq<Seq<int>>,
)
    requires
        K == P::K,
        L == P::L,
        rho.len() == 32,
        k_seed.len() == 32,
        tr.len() == 64,
        rows_within(s1, L as nat, -P::ETA, P::ETA as int),
        rows_within(s2, K as nat, -P::ETA, P::ETA as int),
        rows_within(t0, K as nat, -T0_A, T0_B as int),
    ensures
        ({
            let sk = sk_bytes::<P>(rho, k_seed, tr, s1, s2, t0);
            &&& sk.len() == P::SK_BYTES
            &&& sk.subrange(0, 32) == rho
            &&& sk.subrange(32, 64) == k_seed
            &&& sk.subrange(64, 128) == tr
            &&& forall|i: int, j: int|
                0 <= i < L && 0 <= j < N ==> #[trigger] sk_s1_coeff::<P>(sk, i, j) == s1[i][j]
            &&& forall|i: int, j: int|
                0 <= i < K && 0 <= j < N ==> #[trigger] sk_s2_coeff::<P>(sk, i, j) == s2[i][j]
            &&& forall|i: int, j: int|
                0 <= i < K && 0 <= j < N ==> #[trigger] sk_t0_coeff::<P>(sk, i, j) == t0[i][j]
        }),
{
    lemma_valid::<P>();
    lemma_polyvec_of::<L>(s1);
    lemma_polyvec_of::<K>(s2);
    lemma_polyvec_of::<K>(t0);
    let v1 = polyvec_of::<L>(s1);
    let v2 = polyvec_of::<K>(s2);
    let v0 = polyvec_of::<K>(t0);
    lemma_sk_bytes::<P, K, L>(rho, k_seed, tr, v1, v2, v0);
    assert forall|i: int, j: int| 0 <= i < L && 0 <= j < N implies -P::ETA <= #[trigger] crate::vecops::vc(
        v1,
        i,
        j,
    ) <= P::ETA by {
        assert(pv(v1)[i][j] == s1[i][j]);
    }
    assert forall|i: int, j: int| 0 <= i < K && 0 <= j < N implies -P::ETA <= #[trigger] crate::vecops::vc(
        v2,
        i,
        j,
    ) <= P::ETA by {
        assert(pv(v2)[i][j] == s2[i][j]);
    }
    assert forall|i: int, j: int| 0 <= i < K && 0 <= j < N implies -T0_A <= #[trigger] crate::vecops::vc(
        v0,
        i,
        j,
    ) <= T0_B by {
        assert(pv(v0)[i][j] == t0[i][j]);
    }
    lemma_sk_decode_of_encode::<P, K, L>(rho, k_seed, tr, v1, v2, v0);
    let sk = sk_bytes::<P>(rho, k_seed, tr, s1, s2, t0);
    assert forall|i: int, j: int| 0 <= i < L && 0 <= j < N implies #[trigger] sk_s1_coeff::<P>(
        sk,
        i,
        j,
    ) == s1[i][j] by {
        assert(pv(v1)[i][j] == v1.v[i].coeffs@[j]);
    }
    assert forall|i: int, j: int| 0 <= i < K && 0 <= j < N implies #[trigger] sk_s2_coeff::<P>(
        sk,
        i,
        j,
    ) == s2[i][j] by {
        assert(pv(v2)[i][j] == v2.v[i].coeffs@[j]);
    }
    assert forall|i: int, j: int| 0 <= i < K && 0 <= j < N implies #[trigger] sk_t0_coeff::<P>(
        sk,
        i,
        j,
    ) == t0[i][j] by {
        assert(pv(v0)[i][j] == v0.v[i].coeffs@[j]);
    }
}

/// sigDecode of sigEncode over models.
proof fn lemma_sig_model<P: ParameterSet, const K: usize, const L: usize>(
    c_tilde: Seq<u8>,
    z: Seq<Seq<int>>,
    h: Seq<Seq<int>>,
)
    requires
        K == P::K,
        L == P::L,
        c_tilde.len() == P::C_TILDE_BYTES,
        rows_within(z, L as nat, -(P::GAMMA1 - 1), P::GAMMA1 as int),
        rows_within(h, K as nat, 0, 1),
        hint_positions(h, K as nat).len() <= P::OMEGA,
    ensures
        ({
            let sig = sig_bytes::<P>(c_tilde, z, h);
            &&& sig.len() == P::SIG_BYTES
            &&& hint_well_formed(sig_hint_bytes::<P>(sig), P::OMEGA as nat, K as nat)
            &&& sig.subrange(0, P::C_TILDE_BYTES as int) == c_tilde
            &&& forall|i: int, j: int|
                0 <= i < L && 0 <= j < N ==> #[trigger] sig_z_coeff::<P>(sig, i, j) == z[i][j]
            &&& forall|i: int, j: int|
                0 <= i < K && 0 <= j < N ==> #[trigger] hint_coeff(
                    sig_hint_bytes::<P>(sig),
                    P::OMEGA as nat,
                    i,
                    j,
                ) == h[i][j]
        }),
{
    lemma_valid::<P>();
    lemma_polyvec_of::<L>(z);
    lemma_polyvec_of::<K>(h);
    let vz = polyvec_of::<L>(z);
    let vh = polyvec_of::<K>(h);
    lemma_sig_bytes::<P, K, L>(c_tilde, vz, vh);
    assert forall|i: int, j: int| 0 <= i < L && 0 <= j < N implies -(P::GAMMA1 - 1) <= #[trigger] crate::vecops::vc(
        vz,
        i,
        j,
    ) <= P::GAMMA1 by {
        assert(pv(vz)[i][j] == z[i][j]);
    }
    assert forall|i: int, j: int| 0 <= i < K && 0 <= j < N implies #[trigger] crate::vecops::vc(
        vh,
        i,
        j,
    ) == 0 || crate::vecops::vc(vh, i, j) == 1 by {
        assert(pv(vh)[i][j] == h[i][j]);
    }
    lemma_sig_decode_of_encode::<P, K, L>(c_tilde, vz, vh);
    let sig = sig_bytes::<P>(c_tilde, z, h);
    assert forall|i: int, j: int| 0 <= i < L && 0 <= j < N implies #[trigger] sig_z_coeff::<P>(
        sig,
        i,
        j,
    ) == z[i][j] by {
        assert(pv(vz)[i][j] == vz.v[i].coeffs@[j]);
    }
    assert forall|i: int, j: int| 0 <= i < K && 0 <= j < N implies #[trigger] hint_coeff(
        sig_hint_bytes::<P>(sig),
        P::OMEGA as nat,
        i,
        j,
    ) == h[i][j] by {
        assert(pv(vh)[i][j] == vh.v[i].coeffs@[j]);
    }
}


/// The pointwise product `c ∘ v mod q` of two NTT-domain polynomials.
pub open spec fn pmul(c: Seq<int>, v: Seq<int>) -> Seq<int> {
    Seq::new(N as nat, |k: int| mod_q(c[k] * v[k]))
}

/// `z = y + c·s1` (centred) has `NTT(z) = NTT(y) + ĉ ∘ ŝ1`.
proof fn lemma_z_ntt(y: Seq<int>, ch: Seq<int>, s1h: Seq<int>)
    requires
        y.len() == N,
    ensures
        ({
            let cs1 = inv_ntt_spec(pmul(ch, s1h));
            let zc = Seq::new(N as nat, |k: int| mod_pm_spec(mod_q(y[k] + cs1[k]), Q as int));
            ntt_spec(zc) == Seq::new(N as nat, |k: int| mod_q(ntt_spec(y)[k] + ch[k] * s1h[k]))
        }),
{
    let q = Q as int;
    let p = pmul(ch, s1h);
    assert(canonical(p));
    let cs1 = inv_ntt_spec(p);
    lemma_ntt_canonical(p);
    let zc = Seq::new(N as nat, |k: int| mod_pm_spec(mod_q(y[k] + cs1[k]), q));
    let u = Seq::new(N as nat, |k: int| y[k] + 1 * cs1[k]);
    assert forall|k: int| 0 <= k < N implies #[trigger] mod_q(zc[k]) == mod_q(u[k]) by {
        lemma_mod_pm_q_congruent(mod_q(y[k] + cs1[k]));
        lemma_mod_twice(y[k] + cs1[k], q);
    }
    lemma_ntt_congruent(zc, u);
    lemma_ntt_linear(y, cs1, 1);
    lemma_ntt_of_inv_ntt(p);
    assert forall|k: int| 0 <= k < N implies ntt_spec(zc)[k] == mod_q(ntt_spec(y)[k] + ch[k] * s1h[k]) by {
        lemma_add_mod_noop(ntt_spec(y)[k], ch[k] * s1h[k], q);
        lemma_add_mod_noop(ntt_spec(y)[k], mod_q(ch[k] * s1h[k]), q);
        lemma_mod_twice(ch[k] * s1h[k], q);
        lemma_mod_twice(ntt_spec(y)[k], q);
    }
    assert(ntt_spec(zc) =~= Seq::new(N as nat, |k: int| mod_q(ntt_spec(y)[k] + ch[k] * s1h[k])));
}

/// A row of `Â ∘ w` is linear in `w`, slot by slot.
proof fn lemma_dot_linear(
    a: Seq<Seq<int>>,
    w: Seq<Seq<int>>,
    u: Seq<Seq<int>>,
    v: Seq<Seq<int>>,
    c: int,
    k: int,
    n: int,
)
    requires
        forall|j: int| 0 <= j < n ==> #[trigger] mod_q(w[j][k]) == mod_q(u[j][k] + c * v[j][k]),
    ensures
        mod_q(m_dot(a, w, k, n)) == mod_q(m_dot(a, u, k, n) + c * m_dot(a, v, k, n)),
    decreases n,
{
    let q = Q as int;
    if n > 0 {
        lemma_dot_linear(a, w, u, v, c, k, n - 1);
        let d = m_dot(a, w, k, n - 1);
        let du = m_dot(a, u, k, n - 1);
        let dv = m_dot(a, v, k, n - 1);
        let aa = a[n - 1][k];
        let ww = w[n - 1][k];
        let uu = u[n - 1][k];
        let vv = v[n - 1][k];
        assert(mod_q(ww) == mod_q(uu + c * vv));
        lemma_add_mod_noop(d, aa * ww, q);
        lemma_mul_mod_noop_right(aa, ww, q);
        lemma_mul_mod_noop_right(aa, uu + c * vv, q);
        lemma_add_mod_noop(du + c * dv, aa * (uu + c * vv), q);
        assert(du + c * dv + aa * (uu + c * vv) == (du + aa * uu) + c * (dv + aa * vv)) by (nonlinear_arith);
    }
}

/// `t1·2^d` from `t = NTT⁻¹(m) + s2`: its NTT is `m + ŝ2 − t̂0`.
proof fn lemma_t1_ntt(m: Seq<int>, s2: Seq<int>)
    requires
        canonical(m),
        s2.len() == N,
    ensures
        ({
            let t = Seq::new(N as nat, |k: int| mod_q(inv_ntt_spec(m)[k] + s2[k]));
            let t1s = Seq::new(N as nat, |k: int| power2round_spec(t[k]).0 * 8192);
            let t0 = Seq::new(N as nat, |k: int| power2round_spec(t[k]).1);
            ntt_spec(t1s) == Seq::new(
                N as nat,
                |k: int| mod_q(m[k] + ntt_spec(s2)[k] - ntt_spec(t0)[k]),
            )
        }),
{
    let q = Q as int;
    lemma_ntt_canonical(m);
    let im = inv_ntt_spec(m);
    let t = Seq::new(N as nat, |k: int| mod_q(im[k] + s2[k]));
    let t1s = Seq::new(N as nat, |k: int| power2round_spec(t[k]).0 * 8192);
    let t0 = Seq::new(N as nat, |k: int| power2round_spec(t[k]).1);
    assert forall|k: int| 0 <= k < N implies #[trigger] t1s[k] == t[k] + (-1) * t0[k] by {
        lemma_power2round(t[k]);
        lemma_mod_twice(im[k] + s2[k], q);
    }
    assert(t1s =~= Seq::new(N as nat, |k: int| t[k] + (-1) * t0[k]));
    lemma_ntt_linear(t, t0, -1);
    let u = Seq::new(N as nat, |k: int| im[k] + 1 * s2[k]);
    assert forall|k: int| 0 <= k < N implies #[trigger] mod_q(t[k]) == mod_q(u[k]) by {
        lemma_mod_twice(im[k] + s2[k], q);
    }
    lemma_ntt_congruent(t, u);
    lemma_ntt_linear(im, s2, 1);
    lemma_ntt_of_inv_ntt(m);
    assert forall|k: int| 0 <= k < N implies ntt_spec(t1s)[k] == mod_q(m[k] + ntt_spec(s2)[k] - ntt_spec(t0)[k]) by {
        let a = m[k] + ntt_spec(s2)[k];
        lemma_sub_mod_noop(mod_q(m[k] + 1 * ntt_spec(s2)[k]), ntt_spec(t0)[k], q);
        lemma_sub_mod_noop(a, ntt_spec(t0)[k], q);
        lemma_mod_twice(a, q);
        assert(mod_q(m[k] + 1 * ntt_spec(s2)[k]) + (-1) * ntt_spec(t0)[k] == mod_q(a) - ntt_spec(t0)[k]);
    }
    assert(ntt_spec(t1s) =~= Seq::new(N as nat, |k: int| mod_q(m[k] + ntt_spec(s2)[k] - ntt_spec(t0)[k])));
}

/// The verification equation at one NTT slot, modulo `q`.
proof fn lemma_slot_combine(ay: int, as1: int, s2h: int, t0h: int, ch: int, az: int, t1v: int)
    requires
        mod_q(az) == mod_q(ay + ch * as1),
        mod_q(t1v) == mod_q(as1 + s2h - t0h),
    ensures
        mod_q(az + (-1) * mod_q(ch * t1v)) == mod_q((ay + (-1) * mod_q(ch * s2h)) + 1 * mod_q(ch * t0h)),
{
    let q = Q as int;
    lemma_mul_mod_noop_right(ch, t1v, q);
    lemma_mul_mod_noop_right(ch, as1 + s2h - t0h, q);
    lemma_sub_mod_noop(az, mod_q(ch * t1v), q);
    lemma_sub_mod_noop(ay + ch * as1, ch * (as1 + s2h - t0h), q);
    lemma_sub_mod_noop(ay + ch * as1, mod_q(ch * (as1 + s2h - t0h)), q);
    lemma_mod_twice(ch * (as1 + s2h - t0h), q);
    assert((ay + ch * as1) - ch * (as1 + s2h - t0h) == ay - ch * s2h + ch * t0h) by (nonlinear_arith);
    lemma_sub_mod_noop(ay, ch * s2h, q);
    lemma_add_mod_noop(ay - ch * s2h, ch * t0h, q);
    lemma_sub_mod_noop(ay, mod_q(ch * s2h), q);
    lemma_mod_twice(ch * s2h, q);
    lemma_mod_twice(ch * t0h, q);
    lemma_add_mod_noop(ay + (-1) * mod_q(ch * s2h), mod_q(ch * t0h), q);
    lemma_add_mod_noop(ay - mod_q(ch * s2h), ch * t0h, q);
    lemma_sub_mod_noop(ay, ch * s2h, q);
}


/// A row of `Â ∘ NTT(z)` with `z = y + c·s1`: `Â_i ∘ ŷ + ĉ ∘ (Â_i ∘ ŝ1)`, slot by slot.
proof fn lemma_az(arow: Seq<Seq<int>>, y: Seq<Seq<int>>, s1h: Seq<Seq<int>>, ch: Seq<int>, l: nat)
    requires
        y.len() == l,
        s1h.len() == l,
        forall|j: int| 0 <= j < l ==> (#[trigger] y[j]).len() == N,
    ensures
        ({
            let zc = Seq::new(
                l,
                |j: int|
                    Seq::new(
                        N as nat,
                        |k: int| mod_pm_spec(mod_q(y[j][k] + inv_ntt_spec(pmul(ch, s1h[j]))[k]), Q as int),
                    ),
            );
            let zh = Seq::new(l, |j: int| ntt_spec(zc[j]));
            let yh = Seq::new(l, |j: int| ntt_spec(y[j]));
            forall|k: int|
                0 <= k < N ==> #[trigger] mod_q(m_dot(arow, zh, k, l as int)) == mod_q(
                    m_dot(arow, yh, k, l as int) + ch[k] * m_dot(arow, s1h, k, l as int),
                )
        }),
{
    let zc = Seq::new(
        l,
        |j: int|
            Seq::new(
                N as nat,
                |k: int| mod_pm_spec(mod_q(y[j][k] + inv_ntt_spec(pmul(ch, s1h[j]))[k]), Q as int),
            ),
    );
    let zh = Seq::new(l, |j: int| ntt_spec(zc[j]));
    let yh = Seq::new(l, |j: int| ntt_spec(y[j]));
    assert forall|j: int| 0 <= j < l implies (#[trigger] zh[j]) == Seq::new(
        N as nat,
        |k: int| mod_q(yh[j][k] + ch[k] * s1h[j][k]),
    ) by {
        lemma_z_ntt(y[j], ch, s1h[j]);
    }
    assert forall|k: int| 0 <= k < N implies #[trigger] mod_q(m_dot(arow, zh, k, l as int)) == mod_q(
        m_dot(arow, yh, k, l as int) + ch[k] * m_dot(arow, s1h, k, l as int),
    ) by {
        assert forall|j: int| 0 <= j < l implies #[trigger] mod_q(zh[j][k]) == mod_q(
            yh[j][k] + ch[k] * s1h[j][k],
        ) by {
            lemma_mod_twice(yh[j][k] + ch[k] * s1h[j][k], Q as int);
        }
        lemma_dot_linear(arow, zh, yh, s1h, ch[k], k, l as int);
    }
}

/// The verification equation for one row: `NTT⁻¹(Â_i ∘ ẑ) − NTT⁻¹(ĉ ∘ t̂1_i·2^d)` is
/// `w_i − cs2_i + ct0_i`.
proof fn lemma_row_identity(
    azr: Seq<int>,
    ayr: Seq<int>,
    as1r: Seq<int>,
    ch: Seq<int>,
    t1h: Seq<int>,
    s2h: Seq<int>,
    t0h: Seq<int>,
)
    requires
        azr.len() == N,
        ayr.len() == N,
        forall|k: int| 0 <= k < N ==> #[trigger] mod_q(azr[k]) == mod_q(ayr[k] + ch[k] * as1r[k]),
        forall|k: int| 0 <= k < N ==> #[trigger] t1h[k] == mod_q(as1r[k] + s2h[k] - t0h[k]),
    ensures
        Seq::new(
            N as nat,
            |k: int| mod_q(inv_ntt_spec(azr)[k] - inv_ntt_spec(pmul(ch, t1h))[k]),
        ) == Seq::new(
            N as nat,
            |k: int|
                mod_q(
                    mod_q(inv_ntt_spec(ayr)[k] - inv_ntt_spec(pmul(ch, s2h))[k]) + inv_ntt_spec(
                        pmul(ch, t0h),
                    )[k],
                ),
        ),
{
    let q = Q as int;
    let pt1 = pmul(ch, t1h);
    let p2 = pmul(ch, s2h);
    let p0 = pmul(ch, t0h);
    let d = Seq::new(N as nat, |k: int| azr[k] + (-1) * pt1[k]);
    let e1 = Seq::new(N as nat, |k: int| ayr[k] + (-1) * p2[k]);
    let e = Seq::new(N as nat, |k: int| e1[k] + 1 * p0[k]);
    lemma_inv_ntt_linear(azr, pt1, -1);
    lemma_inv_ntt_linear(ayr, p2, -1);
    lemma_inv_ntt_linear(e1, p0, 1);
    assert forall|k: int| 0 <= k < N implies #[trigger] mod_q(d[k]) == mod_q(e[k]) by {
        lemma_mod_twice(as1r[k] + s2h[k] - t0h[k], q);
        lemma_slot_combine(ayr[k], as1r[k], s2h[k], t0h[k], ch[k], azr[k], t1h[k]);
    }
    lemma_inv_ntt_congruent(d, e);
    let lhs = Seq::new(N as nat, |k: int| mod_q(inv_ntt_spec(azr)[k] - inv_ntt_spec(pt1)[k]));
    let rhs = Seq::new(
        N as nat,
        |k: int| mod_q(mod_q(inv_ntt_spec(ayr)[k] - inv_ntt_spec(p2)[k]) + inv_ntt_spec(p0)[k]),
    );
    assert forall|k: int| 0 <= k < N implies lhs[k] == inv_ntt_spec(d)[k] by {
        assert(inv_ntt_spec(azr)[k] + (-1) * inv_ntt_spec(pt1)[k] == inv_ntt_spec(azr)[k]
            - inv_ntt_spec(pt1)[k]);
    }
    assert forall|k: int| 0 <= k < N implies rhs[k] == inv_ntt_spec(e)[k] by {
        assert(inv_ntt_spec(ayr)[k] + (-1) * inv_ntt_spec(p2)[k] == inv_ntt_spec(ayr)[k]
            - inv_ntt_spec(p2)[k]);
        assert(inv_ntt_spec(e1)[k] + 1 * inv_ntt_spec(p0)[k] == inv_ntt_spec(e1)[k] + inv_ntt_spec(p0)[k]);
    }
    lemma_ntt_canonical(d);
    lemma_ntt_canonical(e);
    assert(lhs =~= inv_ntt_spec(d));
    assert(rhs =~= inv_ntt_spec(e));
}


/// Values of magnitude at most `(q − 1)/2` are their own centred representative.
proof fn lemma_mod_pm_small(x: int)
    requires
        -(Q - 1) / 2 <= x <= (Q - 1) / 2,
    ensures
        mod_pm_spec(x, Q as int) == x,
{
    let q = Q as int;
    if x >= 0 {
        vstd::arithmetic::div_mod::lemma_small_mod(x as nat, q as nat);
    } else {
        vstd::arithmetic::div_mod::lemma_mod_add_multiples_vanish(x, q);
        vstd::arithmetic::div_mod::lemma_small_mod((x + q) as nat, q as nat);
    }
}

/// The centred magnitude of a centred representative is that of the value.
proof fn lemma_centered_abs_center(x: int)
    ensures
        centered_abs(mod_pm_spec(x, Q as int)) == centered_abs(x),
        abs_int(mod_pm_spec(x, Q as int)) == centered_abs(x),
{
    lemma_mod_pm_q_congruent(x);
    lemma_mod_pm_small(mod_pm_spec(x, Q as int));
}

/// One coefficient of the hint check: with `‖ct0‖ < γ2`, `‖cs2‖ ≤ β` and
/// `‖LowBits(w − cs2)‖ < γ2 − β`, UseHint of the signer's hint on (anything congruent to)
/// `w − cs2 + ct0` gives `HighBits(w)`.
proof fn lemma_coeff_hint(w: int, cs2v: int, nv: int, ct0v: int, wv: int, gamma2: int, beta: int)
    requires
        gamma2_ok(gamma2),
        0 <= beta < gamma2,
        -beta <= nv <= beta,
        mod_q(cs2v) == mod_q(nv),
        centered_abs(ct0v) < gamma2,
        centered_abs(low_bits_spec(mod_q(w - cs2v), gamma2)) < gamma2 - beta,
        mod_q(wv) == mod_q(mod_q(mod_q(w - cs2v) + ct0v)),
    ensures
        use_hint_spec(
            make_hint_spec(mod_q(-ct0v), mod_q(mod_q(w - cs2v) + ct0v), gamma2),
            wv,
            gamma2,
        ) == high_bits_spec(w, gamma2),
{
    let q = Q as int;
    let r = mod_q(w - cs2v);
    let big_r = mod_q(r + ct0v);
    lemma_mod_twice(r + ct0v, q);
    lemma_use_hint_signer(ct0v, big_r, wv, gamma2);
    // R − ct0 ≡ w − cs2
    lemma_sub_mod_noop(r + ct0v, ct0v, q);
    lemma_sub_mod_noop(big_r, ct0v, q);
    lemma_mod_twice(w - cs2v, q);
    lemma_decompose_congruent(big_r - ct0v, r, gamma2);
    // the low bits of r are small
    lemma_decompose(r, gamma2);
    lemma_gamma2_m(gamma2);
    lemma_mod_pm_small(low_bits_spec(r, gamma2));
    lemma_high_bits_stable(r, nv, gamma2, beta);
    // r + nv ≡ w
    lemma_add_mod_noop(r, nv, q);
    lemma_add_mod_noop(w - cs2v, nv, q);
    lemma_sub_mod_noop(w, cs2v, q);
    lemma_add_mod_noop(w - cs2v, cs2v, q);
    assert(mod_q(r + nv) == mod_q(w)) by {
        assert(mod_q(r + nv) == mod_q(mod_q(w - cs2v) + mod_q(nv)));
        assert(mod_q(w - cs2v + cs2v) == mod_q(mod_q(w - cs2v) + mod_q(cs2v)));
        assert(w - cs2v + cs2v == w);
    }
    lemma_decompose_congruent(r + nv, w, gamma2);
}


/// A nonempty signature from the signing loop is the output of one of its attempts.
proof fn lemma_sign_loop_result<P: ParameterSet>(
    a: Seq<Seq<Seq<int>>>,
    s1_hat: Seq<Seq<int>>,
    s2_hat: Seq<Seq<int>>,
    t0_hat: Seq<Seq<int>>,
    mu: Seq<u8>,
    rho_pp: Seq<u8>,
    att: nat,
    kappa: nat,
)
    requires
        P::L > 0,
        sign_loop_spec::<P>(a, s1_hat, s2_hat, t0_hat, mu, rho_pp, att, kappa).0.len() > 0,
    ensures
        exists|k: int|
            sign_attempt_spec::<P>(a, s1_hat, s2_hat, t0_hat, mu, rho_pp, k) == Some(
                sign_loop_spec::<P>(a, s1_hat, s2_hat, t0_hat, mu, rho_pp, att, kappa).0,
            ),
    decreases u32::MAX - kappa,
{
    lemma_sign_loop_step::<P>(a, s1_hat, s2_hat, t0_hat, mu, rho_pp, att, kappa);
    if kappa + P::L <= u32::MAX {
        match sign_attempt_spec::<P>(a, s1_hat, s2_hat, t0_hat, mu, rho_pp, kappa as int) {
            Some(sig) => {
                assert(sign_attempt_spec::<P>(a, s1_hat, s2_hat, t0_hat, mu, rho_pp, kappa as int)
                    == Some(sign_loop_spec::<P>(a, s1_hat, s2_hat, t0_hat, mu, rho_pp, att, kappa).0));
            },
            None => {
                lemma_sign_loop_result::<P>(
                    a,
                    s1_hat,
                    s2_hat,
                    t0_hat,
                    mu,
                    rho_pp,
                    att + 1,
                    (kappa + P::L) as nat,
                );
            },
        }
    }
}


/// `NTT⁻¹(Â ∘ NTT(z mod± q)) − NTT⁻¹(ĉ ∘ NTT(t1·2^d))`, the verifier's `w'` before UseHint.
pub open spec fn w_approx<const K: usize>(
    a: Seq<Seq<Seq<int>>>,
    s1: Seq<Seq<int>>,
    s2: Seq<Seq<int>>,
    y: Seq<Seq<int>>,
    c: Seq<int>,
) -> Seq<Seq<int>> {
    let ch = ntt_spec(c);
    let t = m_add(m_inv_ntt(m_matvec(a, m_ntt(s1))), s2);
    let t1s = build(K as nat, |i: int, k: int| m_power2round_hi(t)[i][k] * 8192);
    let cs1 = m_inv_ntt(m_scalar(ch, m_ntt(s1)));
    m_sub(
        m_inv_ntt(m_matvec(a, m_ntt(m_center(m_add(y, cs1))))),
        m_inv_ntt(m_scalar(ch, m_ntt(t1s))),
    )
}

/// `w − c·s2 + c·t0`, with `w = NTT⁻¹(Â ∘ ŷ)`.
pub open spec fn w_signed(
    a: Seq<Seq<Seq<int>>>,
    s1: Seq<Seq<int>>,
    s2: Seq<Seq<int>>,
    y: Seq<Seq<int>>,
    c: Seq<int>,
) -> Seq<Seq<int>> {
    let ch = ntt_spec(c);
    let t = m_add(m_inv_ntt(m_matvec(a, m_ntt(s1))), s2);
    let cs2 = m_inv_ntt(m_scalar(ch, m_ntt(s2)));
    let ct0 = m_inv_ntt(m_scalar(ch, m_ntt(m_power2round_lo(t))));
    let w = m_inv_ntt(m_matvec(a, m_ntt(y)));
    m_add(m_sub(w, cs2), ct0)
}

/// One row of `Â ∘ NTT(z mod± q)`, slot by slot.
proof fn lemma_az_row<const L: usize>(
    a: Seq<Seq<Seq<int>>>,
    s1: Seq<Seq<int>>,
    y: Seq<Seq<int>>,
    c: Seq<int>,
    i: int,
)
    requires
        0 <= i < a.len(),
        a[i].len() == L,
        s1.len() == L,
        y.len() == L,
        forall|j: int| 0 <= j < L ==> (#[trigger] y[j]).len() == N,
    ensures
        ({
            let ch = ntt_spec(c);
            let s1h = m_ntt(s1);
            let cs1 = m_inv_ntt(m_scalar(ch, s1h));
            let az = m_matvec(a, m_ntt(m_center(m_add(y, cs1))));
            let ay = m_matvec(a, m_ntt(y));
            let as1 = m_matvec(a, s1h);
            forall|k: int|
                0 <= k < N ==> #[trigger] mod_q(az[i][k]) == mod_q(ay[i][k] + ch[k] * as1[i][k])
        }),
{
    let q = Q as int;
    let ch = ntt_spec(c);
    let s1h = m_ntt(s1);
    let yh = m_ntt(y);
    let cs1 = m_inv_ntt(m_scalar(ch, s1h));
    let zc = m_center(m_add(y, cs1));
    let zh = m_ntt(zc);
    let zform = Seq::new(
        L as nat,
        |j: int|
            Seq::new(
                N as nat,
                |k: int| mod_pm_spec(mod_q(y[j][k] + inv_ntt_spec(pmul(ch, s1h[j]))[k]), Q as int),
            ),
    );
    assert forall|j: int| 0 <= j < L implies #[trigger] zc[j] == zform[j] by {
        assert(m_scalar(ch, s1h)[j] =~= pmul(ch, s1h[j]));
        assert(zc[j] =~= zform[j]);
    }
    assert(zc =~= zform);
    lemma_az(a[i], y, s1h, ch, L as nat);
    assert(zh =~= Seq::new(L as nat, |j: int| ntt_spec(zform[j])));
    assert forall|k: int| 0 <= k < N implies #[trigger] mod_q(m_matvec(a, zh)[i][k]) == mod_q(
        m_matvec(a, yh)[i][k] + ch[k] * m_matvec(a, s1h)[i][k],
    ) by {
        let dz = m_dot(a[i], zh, k, L as int);
        let dy = m_dot(a[i], yh, k, L as int);
        let ds = m_dot(a[i], s1h, k, L as int);
        lemma_mod_twice(dz, q);
        lemma_mul_mod_noop_right(ch[k], ds, q);
        lemma_add_mod_noop(dy, ch[k] * ds, q);
        lemma_add_mod_noop(mod_q(dy), ch[k] * mod_q(ds), q);
        lemma_mod_twice(dy, q);
    }
}

/// One row of the verification equation.
#[verifier::rlimit(40)]
proof fn lemma_w_prime_row<const K: usize, const L: usize>(
    a: Seq<Seq<Seq<int>>>,
    s1: Seq<Seq<int>>,
    s2: Seq<Seq<int>>,
    y: Seq<Seq<int>>,
    c: Seq<int>,
    i: int,
)
    requires
        a.len() == K,
        0 <= i < K,
        forall|r: int| 0 <= r < K ==> (#[trigger] a[r]).len() == L,
        s1.len() == L,
        s2.len() == K,
        forall|r: int| 0 <= r < K ==> (#[trigger] s2[r]).len() == N,
        y.len() == L,
        forall|j: int| 0 <= j < L ==> (#[trigger] y[j]).len() == N,
    ensures
        w_approx::<K>(a, s1, s2, y, c)[i] == w_signed(a, s1, s2, y, c)[i],
{
    let ch = ntt_spec(c);
    let s1h = m_ntt(s1);
    let s2h = m_ntt(s2);
    let as1 = m_matvec(a, s1h);
    let t = m_add(m_inv_ntt(as1), s2);
    let t1 = m_power2round_hi(t);
    let t0 = m_power2round_lo(t);
    let t0h = m_ntt(t0);
    let t1s = build(K as nat, |r: int, k: int| t1[r][k] * 8192);
    let cs1 = m_inv_ntt(m_scalar(ch, s1h));
    let az = m_matvec(a, m_ntt(m_center(m_add(y, cs1))));
    let ay = m_matvec(a, m_ntt(y));
    lemma_az_row::<L>(a, s1, y, c, i);
    assert(canonical(as1[i]));
    lemma_t1_ntt(as1[i], s2[i]);
    assert(t[i] =~= Seq::new(N as nat, |kk: int| mod_q(inv_ntt_spec(as1[i])[kk] + s2[i][kk])));
    assert(t1s[i] =~= Seq::new(N as nat, |kk: int| power2round_spec(t[i][kk]).0 * 8192));
    assert(t0[i] =~= Seq::new(N as nat, |kk: int| power2round_spec(t[i][kk]).1));
    let t1h = ntt_spec(t1s[i]);
    lemma_row_identity(az[i], ay[i], as1[i], ch, t1h, s2h[i], t0h[i]);
    assert(m_scalar(ch, m_ntt(t1s))[i] =~= pmul(ch, t1h));
    assert(m_scalar(ch, s2h)[i] =~= pmul(ch, s2h[i]));
    assert(m_scalar(ch, t0h)[i] =~= pmul(ch, t0h[i]));
    let lhs_row = Seq::new(
        N as nat,
        |k: int| mod_q(inv_ntt_spec(az[i])[k] - inv_ntt_spec(pmul(ch, t1h))[k]),
    );
    let rhs_row = Seq::new(
        N as nat,
        |k: int|
            mod_q(
                mod_q(inv_ntt_spec(ay[i])[k] - inv_ntt_spec(pmul(ch, s2h[i]))[k]) + inv_ntt_spec(
                    pmul(ch, t0h[i]),
                )[k],
            ),
    );
    assert(lhs_row == rhs_row);
    let wa = w_approx::<K>(a, s1, s2, y, c);
    let ws = w_signed(a, s1, s2, y, c);
    assert(m_inv_ntt(m_scalar(ch, m_ntt(t1s)))[i] == inv_ntt_spec(pmul(ch, t1h)));
    assert(wa[i] =~= lhs_row);
    assert(m_inv_ntt(m_scalar(ch, s2h))[i] == inv_ntt_spec(pmul(ch, s2h[i])));
    assert(m_inv_ntt(m_scalar(ch, t0h))[i] == inv_ntt_spec(pmul(ch, t0h[i])));
    assert(ws[i] =~= rhs_row);
}


/// The verification equation over models, for every row.
proof fn lemma_w_prime<const K: usize, const L: usize>(
    a: Seq<Seq<Seq<int>>>,
    s1: Seq<Seq<int>>,
    s2: Seq<Seq<int>>,
    y: Seq<Seq<int>>,
    c: Seq<int>,
)
    requires
        a.len() == K,
        forall|r: int| 0 <= r < K ==> (#[trigger] a[r]).len() == L,
        s1.len() == L,
        s2.len() == K,
        forall|r: int| 0 <= r < K ==> (#[trigger] s2[r]).len() == N,
        y.len() == L,
        forall|j: int| 0 <= j < L ==> (#[trigger] y[j]).len() == N,
    ensures
        w_approx::<K>(a, s1, s2, y, c) == w_signed(a, s1, s2, y, c),
{
    assert forall|i: int| 0 <= i < K implies #[trigger] w_approx::<K>(a, s1, s2, y, c)[i] == w_signed(
        a,
        s1,
        s2,
        y,
        c,
    )[i] by {
        lemma_w_prime_row::<K, L>(a, s1, s2, y, c, i);
    }
    assert(w_approx::<K>(a, s1, s2, y, c) =~= w_signed(a, s1, s2, y, c));
}

/// UseHint with the signer's hint on `w − c·s2 + c·t0` recovers `HighBits(w)`, when the
/// signer's checks passed.
#[verifier::rlimit(40)]
proof fn lemma_use_hint_rows<P: ParameterSet, const K: usize>(
    w: Seq<Seq<int>>,
    s2: Seq<Seq<int>>,
    t0: Seq<Seq<int>>,
    c: Seq<int>,
)
    requires
        K == P::K,
        w.len() == K,
        rows_within(s2, K as nat, -P::ETA, P::ETA as int),
        t0.len() == K,
        c.len() == N,
        forall|x: int| 0 <= x < N ==> -1 <= #[trigger] c[x] <= 1,
        crate::sample::nonzero_count(c, N as int) == P::TAU,
        ({
            let ch = ntt_spec(c);
            let cs2 = m_inv_ntt(m_scalar(ch, m_ntt(s2)));
            let ct0 = m_inv_ntt(m_scalar(ch, m_ntt(t0)));
            &&& crate::model::m_norm_below(
                crate::model::m_low_bits(m_sub(w, cs2), P::GAMMA2 as int),
                P::GAMMA2 - P::BETA,
            )
            &&& crate::model::m_norm_below(ct0, P::GAMMA2 as int)
        }),
    ensures
        ({
            let ch = ntt_spec(c);
            let cs2 = m_inv_ntt(m_scalar(ch, m_ntt(s2)));
            let ct0 = m_inv_ntt(m_scalar(ch, m_ntt(t0)));
            let r = m_add(m_sub(w, cs2), ct0);
            crate::model::m_use_hint(
                crate::model::m_make_hint(crate::model::m_neg(ct0), r, P::GAMMA2 as int),
                r,
                P::GAMMA2 as int,
            ) == crate::model::m_high_bits(w, P::GAMMA2 as int)
        }),
{
    lemma_valid::<P>();
    let g2 = P::GAMMA2 as int;
    let ch = ntt_spec(c);
    let cs2 = m_inv_ntt(m_scalar(ch, m_ntt(s2)));
    let ct0 = m_inv_ntt(m_scalar(ch, m_ntt(t0)));
    let r = m_add(m_sub(w, cs2), ct0);
    let h = crate::model::m_make_hint(crate::model::m_neg(ct0), r, g2);
    let lhs = crate::model::m_use_hint(h, r, g2);
    let rhs = crate::model::m_high_bits(w, g2);
    assert forall|i: int, k: int| 0 <= i < K && 0 <= k < N implies #[trigger] lhs[i][k] == rhs[i][k] by {
        crate::ntt_algebra::lemma_ntt_multiply_is_negacyclic(c, s2[i]);
        assert(m_scalar(ch, m_ntt(s2))[i] =~= Seq::new(
            N as nat,
            |j: int| mod_q(ntt_spec(c)[j] * ntt_spec(s2[i])[j]),
        ));
        crate::ntt_algebra::lemma_negacyclic_bound(c, s2[i], P::TAU as int, P::ETA as int);
        let nv = crate::ntt_algebra::negacyclic(c, s2[i])[k];
        assert(cs2[i][k] == mod_q(nv));
        lemma_mod_twice(nv, Q as int);
        assert(P::TAU * P::ETA == P::BETA);
        assert(crate::model::m_low_bits(m_sub(w, cs2), g2)[i][k] == low_bits_spec(
            mod_q(w[i][k] - cs2[i][k]),
            g2,
        ));
        lemma_coeff_hint(w[i][k], cs2[i][k], nv, ct0[i][k], r[i][k], g2, P::BETA as int);
        assert(h[i][k] != 0 <==> make_hint_spec(mod_q(-ct0[i][k]), r[i][k], g2));
    }
    assert forall|i: int| 0 <= i < K implies (#[trigger] lhs[i]).len() == rhs[i].len() by {}
    crate::model::lemma_model_eq(lhs, rhs);
}


/// `t = NTT⁻¹(Â ∘ NTT(s1)) + s2` over models.
pub open spec fn key_t(a: Seq<Seq<Seq<int>>>, s1: Seq<Seq<int>>, s2: Seq<Seq<int>>) -> Seq<Seq<int>> {
    m_add(m_inv_ntt(m_matvec(a, m_ntt(s1))), s2)
}

/// One accepted attempt of the signing loop verifies under the public key of the key
/// pair that made it.
#[verifier::rlimit(80)]
#[verifier::spinoff_prover]
proof fn lemma_attempt_verifies<P: ParameterSet, const K: usize, const L: usize>(
    rho: Seq<u8>,
    s1: Seq<Seq<int>>,
    s2: Seq<Seq<int>>,
    m_prime: Seq<u8>,
    rho_pp: Seq<u8>,
    kappa: int,
    sig: Seq<u8>,
)
    requires
        K == P::K,
        L == P::L,
        rho.len() == 32,
        rows_within(s1, L as nat, -P::ETA, P::ETA as int),
        rows_within(s2, K as nat, -P::ETA, P::ETA as int),
        ({
            let a = expand_a_m(rho, K as nat, L as nat);
            let t = key_t(a, s1, s2);
            let pk = pk_bytes(rho, m_power2round_hi(t));
            sign_attempt_spec::<P>(
                a,
                m_ntt(s1),
                m_ntt(s2),
                m_ntt(m_power2round_lo(t)),
                message_rep(pk, m_prime),
                rho_pp,
                kappa,
            ) == Some(sig)
        }),
    ensures
        verify_internal_spec::<P>(
            pk_bytes(rho, m_power2round_hi(key_t(expand_a_m(rho, K as nat, L as nat), s1, s2))),
            m_prime,
            sig,
        ),
{
    lemma_valid::<P>();
    crate::serdes::lemma_sizes::<P>();
    let g2 = P::GAMMA2 as int;
    let a = expand_a_m(rho, K as nat, L as nat);
    let t = key_t(a, s1, s2);
    let t1 = m_power2round_hi(t);
    let t0 = m_power2round_lo(t);
    let pk = pk_bytes(rho, t1);
    let mu = message_rep(pk, m_prime);
    assert(rows_within(t1, K as nat, 0, 1023)) by {
        assert forall|i: int, k: int| 0 <= i < K && 0 <= k < N implies 0 <= #[trigger] t1[i][k] <= 1023 by {
            lemma_power2round(t[i][k]);
        }
    }
    lemma_pk_model::<P, K>(rho, t1);
    // the attempt
    let y = build(P::L as nat, |r: int, j: int| mask_coeff::<P>(rho_pp, kappa, r, j));
    let w = m_inv_ntt(m_matvec(a, m_ntt(y)));
    let w1 = m_high_bits(w, g2);
    let c_tilde = shake256(mu + w1_bytes::<P>(w1), P::C_TILDE_BYTES as nat);
    let c = ball_coeffs::<P>(c_tilde);
    let ch = ntt_spec(c);
    let cs1 = m_inv_ntt(m_scalar(ch, m_ntt(s1)));
    let cs2 = m_inv_ntt(m_scalar(ch, m_ntt(s2)));
    let z = m_add(y, cs1);
    let r0 = m_low_bits(m_sub(w, cs2), g2);
    let ct0 = m_inv_ntt(m_scalar(ch, m_ntt(t0)));
    let r = m_add(m_sub(w, cs2), ct0);
    let h = m_make_hint(m_neg(ct0), r, g2);
    assert(m_norm_below(z, P::GAMMA1 - P::BETA));
    assert(m_norm_below(r0, P::GAMMA2 - P::BETA));
    assert(m_norm_below(ct0, g2));
    assert(hint_positions(h, P::K as nat).len() <= P::OMEGA);
    assert(sig == sig_bytes::<P>(c_tilde, m_center(z), h));
    lemma_ball_coeffs_shape::<P>(c_tilde);
    // decoding the signature
    let zc = m_center(z);
    assert(rows_within(zc, L as nat, -(P::GAMMA1 - 1), P::GAMMA1 as int)) by {
        assert forall|i: int, k: int| 0 <= i < L && 0 <= k < N implies -(P::GAMMA1 - 1) <= #[trigger] zc[i][k]
            <= P::GAMMA1 by {
            lemma_centered_abs_center(z[i][k]);
        }
    }
    assert(rows_within(h, K as nat, 0, 1));
    lemma_sig_model::<P, K, L>(c_tilde, zc, h);
    assert(m_norm_below(sig_z_m::<P>(sig), P::GAMMA1 - P::BETA)) by {
        assert forall|i: int, k: int| 0 <= i < sig_z_m::<P>(sig).len() && 0 <= k < N implies centered_abs(
            #[trigger] sig_z_m::<P>(sig)[i][k],
        ) < P::GAMMA1 - P::BETA by {
            assert(sig_z_m::<P>(sig)[i][k] == zc[i][k]);
            lemma_centered_abs_center(z[i][k]);
        }
    }
    // the verifier's w1
    assert(pk.subrange(0, 32) == rho);
    assert(sig.subrange(0, P::C_TILDE_BYTES as int) == c_tilde);
    let t1s_v = build(P::K as nat, |i: int, j: int| pk_t1_coeff(pk, i, j) * 8192);
    let t1s = build(K as nat, |i: int, k: int| m_power2round_hi(t)[i][k] * 8192);
    assert forall|i: int, k: int| 0 <= i < K && 0 <= k < N implies #[trigger] t1s_v[i][k] == t1s[i][k] by {}
    assert forall|i: int| 0 <= i < K implies (#[trigger] t1s_v[i]).len() == t1s[i].len() by {}
    lemma_model_eq(t1s_v, t1s);
    assert forall|i: int, k: int| 0 <= i < L && 0 <= k < N implies #[trigger] sig_z_m::<P>(sig)[i][k] == zc[i][k] by {}
    assert forall|i: int| 0 <= i < L implies (#[trigger] sig_z_m::<P>(sig)[i]).len() == zc[i].len() by {}
    lemma_model_eq(sig_z_m::<P>(sig), zc);
    assert forall|i: int, k: int| 0 <= i < K && 0 <= k < N implies #[trigger] sig_h_m::<P>(sig)[i][k] == h[i][k] by {}
    assert forall|i: int| 0 <= i < K implies (#[trigger] sig_h_m::<P>(sig)[i]).len() == h[i].len() by {}
    lemma_model_eq(sig_h_m::<P>(sig), h);
    lemma_w_prime::<K, L>(a, s1, s2, y, c);
    assert(w_approx::<K>(a, s1, s2, y, c) == r);
    lemma_use_hint_rows::<P, K>(w, s2, t0, c);
    assert(verify_w1::<P>(pk, sig) == w1);
}

/// The secret key of KeyGen_internal(ξ) reads back the `ρ`, `s1`, `s2` and `t0` that
/// KeyGen made, and its public key is `pkEncode(ρ, Power2Round(t).1)`.
proof fn lemma_keygen_reads_back<P: ParameterSet, const K: usize, const L: usize>(xi: Seq<u8>)
    requires
        K == P::K,
        L == P::L,
    ensures
        ({
            let seed = keygen_seed::<P>(xi);
            let rho = seed.subrange(0, 32);
            let rho_p = seed.subrange(32, 96);
            let s1 = expand_s1_m::<P>(rho_p, P::L as nat);
            let s2 = expand_s2_m::<P>(rho_p, P::K as nat, P::L as nat);
            let t = key_t(expand_a_m(rho, P::K as nat, P::L as nat), s1, s2);
            let sk = keygen_spec::<P>(xi).1;
            &&& keygen_spec::<P>(xi).0 == pk_bytes(rho, m_power2round_hi(t))
            &&& sk == sk_bytes::<P>(
                rho,
                seed.subrange(96, 128),
                shake256(keygen_spec::<P>(xi).0, 64),
                s1,
                s2,
                m_power2round_lo(t),
            )
            &&& t == keygen_t::<P>(xi)
            &&& rows_within(s1, L as nat, -P::ETA, P::ETA as int)
            &&& rows_within(s2, K as nat, -P::ETA, P::ETA as int)
            &&& sk.len() == P::SK_BYTES
            &&& sk.subrange(0, 32) == rho
            &&& sk.subrange(32, 64) == seed.subrange(96, 128)
            &&& sk.subrange(64, 128) == shake256(keygen_spec::<P>(xi).0, 64)
            &&& sk_s1_m::<P>(sk) == s1
            &&& sk_s2_m::<P>(sk) == s2
            &&& sk_t0_m::<P>(sk) == m_power2round_lo(t)
        }),
{
    lemma_valid::<P>();
    crate::serdes::lemma_sizes::<P>();
    let seed = keygen_seed::<P>(xi);
    let rho = seed.subrange(0, 32);
    let rho_p = seed.subrange(32, 96);
    let k_seed = seed.subrange(96, 128);
    let s1 = expand_s1_m::<P>(rho_p, P::L as nat);
    let s2 = expand_s2_m::<P>(rho_p, P::K as nat, P::L as nat);
    let a = expand_a_m(rho, P::K as nat, P::L as nat);
    let t = key_t(a, s1, s2);
    assert(t == keygen_t::<P>(xi));
    let t1 = m_power2round_hi(t);
    let t0 = m_power2round_lo(t);
    let pk = pk_bytes(rho, t1);
    let tr = shake256(pk, 64);
    let sk = sk_bytes::<P>(rho, k_seed, tr, s1, s2, t0);
    assert(keygen_spec::<P>(xi) == (pk, sk));
    assert(rows_within(s1, L as nat, -P::ETA, P::ETA as int)) by {
        assert forall|i: int| 0 <= i < L implies (#[trigger] s1[i]).len() == N by {
            lemma_rej_bounded_coeffs_range::<P>(crate::expand::bounded_seed_spec(rho_p, i as nat));
        }
        assert forall|i: int, k: int| 0 <= i < L && 0 <= k < N implies -P::ETA <= #[trigger] s1[i][k]
            <= P::ETA by {
            lemma_rej_bounded_coeffs_range::<P>(crate::expand::bounded_seed_spec(rho_p, i as nat));
        }
    }
    assert(rows_within(s2, K as nat, -P::ETA, P::ETA as int)) by {
        assert forall|i: int| 0 <= i < K implies (#[trigger] s2[i]).len() == N by {
            lemma_rej_bounded_coeffs_range::<P>(
                crate::expand::bounded_seed_spec(rho_p, (i + P::L) as nat),
            );
        }
        assert forall|i: int, k: int| 0 <= i < K && 0 <= k < N implies -P::ETA <= #[trigger] s2[i][k]
            <= P::ETA by {
            lemma_rej_bounded_coeffs_range::<P>(
                crate::expand::bounded_seed_spec(rho_p, (i + P::L) as nat),
            );
        }
    }
    assert(rows_within(t0, K as nat, -T0_A, T0_B as int)) by {
        assert forall|i: int, k: int| 0 <= i < K && 0 <= k < N implies -T0_A <= #[trigger] t0[i][k]
            <= T0_B by {
            lemma_power2round(t[i][k]);
        }
    }
    lemma_sk_model::<P, K, L>(rho, k_seed, tr, s1, s2, t0);
    // the signer reads back the key it was given
    assert forall|i: int, k: int| 0 <= i < L && 0 <= k < N implies #[trigger] sk_s1_m::<P>(sk)[i][k]
        == s1[i][k] by {}
    assert forall|i: int| 0 <= i < L implies (#[trigger] sk_s1_m::<P>(sk)[i]).len() == s1[i].len() by {}
    lemma_model_eq(sk_s1_m::<P>(sk), s1);
    assert forall|i: int, k: int| 0 <= i < K && 0 <= k < N implies #[trigger] sk_s2_m::<P>(sk)[i][k]
        == s2[i][k] by {}
    assert forall|i: int| 0 <= i < K implies (#[trigger] sk_s2_m::<P>(sk)[i]).len() == s2[i].len() by {}
    lemma_model_eq(sk_s2_m::<P>(sk), s2);
    assert forall|i: int, k: int| 0 <= i < K && 0 <= k < N implies #[trigger] sk_t0_m::<P>(sk)[i][k]
        == t0[i][k] by {}
    assert forall|i: int| 0 <= i < K implies (#[trigger] sk_t0_m::<P>(sk)[i]).len() == t0[i].len() by {}
    lemma_model_eq(sk_t0_m::<P>(sk), t0);
}

/// Correctness of ML-DSA: for every seed `ξ`, formatted message `M'` and randomness `rnd`,
/// the signature that Sign_internal makes with the secret key of KeyGen_internal(ξ) is
/// accepted by Verify_internal under the public key of KeyGen_internal(ξ) — unless the
/// signing loop ran out of 32-bit counter values and returned no signature.
pub proof fn lemma_sign_then_verify<P: ParameterSet, const K: usize, const L: usize>(
    xi: Seq<u8>,
    m_prime: Seq<u8>,
    rnd: Seq<u8>,
)
    requires
        K == P::K,
        L == P::L,
        sign_internal_spec::<P>(keygen_spec::<P>(xi).1, m_prime, rnd).0.len() > 0,
    ensures
        verify_internal_spec::<P>(
            keygen_spec::<P>(xi).0,
            m_prime,
            sign_internal_spec::<P>(keygen_spec::<P>(xi).1, m_prime, rnd).0,
        ),
{
    lemma_valid::<P>();
    crate::serdes::lemma_sizes::<P>();
    lemma_keygen_reads_back::<P, K, L>(xi);
    let seed = keygen_seed::<P>(xi);
    let rho = seed.subrange(0, 32);
    let rho_p = seed.subrange(32, 96);
    let s1 = expand_s1_m::<P>(rho_p, P::L as nat);
    let s2 = expand_s2_m::<P>(rho_p, P::K as nat, P::L as nat);
    let a = expand_a_m(rho, P::K as nat, P::L as nat);
    let t = key_t(a, s1, s2);
    let t0 = m_power2round_lo(t);
    let pk = keygen_spec::<P>(xi).0;
    let sk = keygen_spec::<P>(xi).1;
    assert(sign_mu(sk, m_prime) == message_rep(pk, m_prime));
    let rho_pp = sign_rho_pp(sk, m_prime, rnd);
    let sig = sign_internal_spec::<P>(sk, m_prime, rnd).0;
    lemma_sign_loop_result::<P>(
        a,
        m_ntt(s1),
        m_ntt(s2),
        m_ntt(t0),
        message_rep(pk, m_prime),
        rho_pp,
        0,
        0,
    );
    let kappa = choose|k: int|
        sign_attempt_spec::<P>(a, m_ntt(s1), m_ntt(s2), m_ntt(t0), message_rep(pk, m_prime), rho_pp, k)
            == Some(sig);
    lemma_attempt_verifies::<P, K, L>(rho, s1, s2, m_prime, rho_pp, kappa, sig);
}

/// The public key that a secret key of KeyGen_internal(ξ) determines — the key that a
/// `Signer` made from it verifies against — is KeyGen_internal(ξ)'s public key.
pub proof fn lemma_keygen_public_key_of_secret_key<P: ParameterSet, const K: usize, const L: usize>(
    xi: Seq<u8>,
)
    requires
        K == P::K,
        L == P::L,
    ensures
        sk_public_key::<P>(keygen_spec::<P>(xi).1) == keygen_spec::<P>(xi).0,
{
    lemma_keygen_reads_back::<P, K, L>(xi);
    let sk = keygen_spec::<P>(xi).1;
    assert(sk_t::<P>(sk) == keygen_t::<P>(xi));
}

/// Verify-after-sign never withholds an honest signature: with the secret key of
/// KeyGen_internal(ξ), it releases exactly the signature that ML-DSA.Sign makes (for a
/// context of at most 255 bytes, whenever the signing loop returned one).
pub proof fn lemma_sign_verified_releases_honest_signature<
    P: ParameterSet,
    const K: usize,
    const L: usize,
>(xi: Seq<u8>, m: Seq<u8>, ctx: Seq<u8>, rnd: Seq<u8>)
    requires
        K == P::K,
        L == P::L,
        ctx.len() <= 255,
        sign_internal_spec::<P>(keygen_spec::<P>(xi).1, m_prime_spec(ctx, m), rnd).0.len() > 0,
    ensures
        sign_verified_spec::<P>(keygen_spec::<P>(xi).1, m, ctx, rnd) == Ok::<Seq<u8>, Error>(
            sign_internal_spec::<P>(keygen_spec::<P>(xi).1, m_prime_spec(ctx, m), rnd).0,
        ),
{
    lemma_keygen_public_key_of_secret_key::<P, K, L>(xi);
    lemma_sign_then_verify::<P, K, L>(xi, m_prime_spec(ctx, m), rnd);
}

} // verus!
