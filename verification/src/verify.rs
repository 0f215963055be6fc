//! FIPS 204 §6.3 / §5.3 — verification (Algorithms 8 and 3).
use crate::encoding::lemma_read_value_lt;
use crate::expand::expand_a;
use crate::hash::{h_reader_input, h_reader_pos, shake256, H};
use crate::hint::hint_coeff;
use crate::keygen::expand_a_m;
use crate::model::{
    build, lemma_inv_ntt_model, lemma_matvec_model, lemma_model_eq, lemma_ntt_model,
    lemma_scalar_model, lemma_sub_model, lemma_use_hint_model, m_inv_ntt, m_matvec, m_norm_below,
    m_ntt, m_scalar, m_sub, m_use_hint, pmn, pv, pvn,
};
use crate::ntt::{coeffs_int, ntt, ntt_fast, ntt_spec};
use crate::ntt_arith::{
    matrix_vector_ntt, matrix_vector_ntt_fast, scalar_vector_ntt, scalar_vector_ntt_fast,
};
use crate::params::{lemma_valid, ParameterSet, D, N};
use crate::poly::PolyVec;
use crate::sample::{ball_coeffs, sample_in_ball};
use crate::serdes::{
    lemma_sizes, lemma_w1_bytes, pk_decode, pk_t1_coeff, sig_decode, sig_hint_bytes, sig_z_coeff,
    w1_bytes, w1_encode,
};
use crate::sign::{format_m_prime, m_prime_spec};
use crate::vecops::{centered_abs, inf_norm, inv_ntt_vec, inv_ntt_vec_fast, ntt_vec, ntt_vec_fast, sub_vec, use_hint_vec, vc};
use vstd::arithmetic::power2::pow2;
use vstd::prelude::*;

verus! {

/// `μ ← H(H(pk, 64) ‖ M', 64)`: the message representative.
pub open spec fn message_rep(pk: Seq<u8>, m_prime: Seq<u8>) -> Seq<u8> {
    shake256(shake256(pk, 64) + m_prime, 64)
}

/// pkDecode's `t1`, as a model.
pub open spec fn pk_t1_m<P: ParameterSet>(pk: Seq<u8>) -> Seq<Seq<int>> {
    build(P::K as nat, |i: int, j: int| pk_t1_coeff(pk, i, j) as int)
}

/// sigDecode's `z`, as a model.
pub open spec fn sig_z_m<P: ParameterSet>(sig: Seq<u8>) -> Seq<Seq<int>> {
    build(P::L as nat, |i: int, j: int| sig_z_coeff::<P>(sig, i, j))
}

/// sigDecode's `h`, as a model.
pub open spec fn sig_h_m<P: ParameterSet>(sig: Seq<u8>) -> Seq<Seq<int>> {
    build(
        P::K as nat,
        |i: int, j: int| hint_coeff(sig_hint_bytes::<P>(sig), P::OMEGA as nat, i, j) as int,
    )
}

/// Verify_internal lines 9–10: `w1' = UseHint(h, NTT⁻¹(Â ∘ NTT(z)) − NTT⁻¹(NTT(c) ∘ NTT(t1·2^d)))`.
pub open spec fn verify_w1<P: ParameterSet>(pk: Seq<u8>, sig: Seq<u8>) -> Seq<Seq<int>> {
    let a = expand_a_m(pk.subrange(0, 32), P::K as nat, P::L as nat);
    let c = ball_coeffs::<P>(sig.subrange(0, P::C_TILDE_BYTES as int));
    let t1s = build(P::K as nat, |i: int, j: int| pk_t1_coeff(pk, i, j) * 8192);
    let w = m_sub(
        m_inv_ntt(m_matvec(a, m_ntt(sig_z_m::<P>(sig)))),
        m_inv_ntt(m_scalar(ntt_spec(c), m_ntt(t1s))),
    );
    m_use_hint(sig_h_m::<P>(sig), w, P::GAMMA2 as int)
}

/// FIPS 204 Algorithm 8 — ML-DSA.Verify_internal, as a predicate on the bytes: the key and
/// signature decode, `‖z‖∞ < γ1 − β`, and `c~ = H(μ ‖ w1Encode(w1'), λ/4)`.
pub open spec fn verify_internal_spec<P: ParameterSet>(
    pk: Seq<u8>,
    m_prime: Seq<u8>,
    sig: Seq<u8>,
) -> bool {
    &&& pk.len() == P::PK_BYTES
    &&& sig.len() == P::SIG_BYTES
    &&& crate::hint::hint_well_formed(sig_hint_bytes::<P>(sig), P::OMEGA as nat, P::K as nat)
    &&& m_norm_below(sig_z_m::<P>(sig), P::GAMMA1 - P::BETA)
    &&& sig.subrange(0, P::C_TILDE_BYTES as int) == shake256(
        message_rep(pk, m_prime) + w1_bytes::<P>(verify_w1::<P>(pk, sig)),
        P::C_TILDE_BYTES as nat,
    )
}

/// Byte strings compared for equality.
pub(crate) fn bytes_eq(a: &[u8], b: &[u8]) -> (r: bool)
    ensures
        r == (a@ == b@),
{
    if a.len() != b.len() {
        return false;
    }
    for k in 0..a.len()
        invariant
            a@.len() == b@.len(),
            forall|t: int| 0 <= t < k ==> a@[t] == b@[t],
    {
        if a[k] != b[k] {
            return false;
        }
    }
    assert(a@ =~= b@);
    true
}

/// `H(data, n)`.
pub(crate) fn shake256_of(data: &[u8], n: usize) -> (r: Vec<u8>)
    ensures
        r@ == shake256(data@, n as nat),
{
    let mut h = H::init();
    h.absorb(data);
    let mut rd = h.finalize();
    let r = rd.squeeze_vec(n);
    assert(r@ =~= shake256(data@, n as nat));
    r
}

/// `H(a ‖ b, n)`.
pub(crate) fn shake256_of2(a: &[u8], b: &[u8], n: usize) -> (r: Vec<u8>)
    ensures
        r@ == shake256(a@ + b@, n as nat),
{
    let mut h = H::init();
    h.absorb(a);
    h.absorb(b);
    let mut rd = h.finalize();
    let r = rd.squeeze_vec(n);
    assert(r@ =~= shake256(a@ + b@, n as nat));
    r
}

/// `t1 · 2^d`, coefficient by coefficient, for `t1` in `[0, 1023]`.
fn scale_t1<const K: usize>(t1: &PolyVec<K>) -> (out: PolyVec<K>)
    requires
        forall|i: int, j: int| 0 <= i < K && 0 <= j < N ==> 0 <= #[trigger] vc(*t1, i, j) < 1024,
    ensures
        forall|i: int, j: int|
            0 <= i < K && 0 <= j < N ==> #[trigger] vc(out, i, j) == vc(*t1, i, j) * 8192,
{
    let mut out = PolyVec::<K>::zero();
    for i in 0..K
        invariant
            forall|i: int, j: int| 0 <= i < K && 0 <= j < N ==> 0 <= #[trigger] vc(*t1, i, j) < 1024,
            forall|r: int, j: int| 0 <= r < i && 0 <= j < N ==> (#[trigger] out.v[r].coeffs[j]) == vc(*t1, r, j) * 8192,
    {
        for j in 0..N
            invariant
                i < K,
                forall|i: int, j: int|
                    0 <= i < K && 0 <= j < N ==> 0 <= #[trigger] vc(*t1, i, j) < 1024,
                forall|r: int, k: int|
                    0 <= r < i && 0 <= k < N ==> (#[trigger] out.v[r].coeffs[k]) == vc(*t1, r, k) * 8192,
                forall|k: int| 0 <= k < j ==> (#[trigger] out.v[i as int].coeffs[k]) == vc(*t1, i as int, k) * 8192,
        {
            let x = t1.v[i].coeffs[j];
            assert(vc(*t1, i as int, j as int) == x);
            assert(0 <= x < 1024);
            assert(x << 13usize == x * 8192) by (bit_vector)
                requires
                    0 <= x < 1024,
            ;
            out.v[i].coeffs[j] = x << D;
        }
    }
    out
}

/// The decoded key and signature, as models.
proof fn lemma_decoded_models<P: ParameterSet, const K: usize, const L: usize>(
    pk: Seq<u8>,
    sig: Seq<u8>,
    rho: [u8; 32],
    t1: PolyVec<K>,
    c_tilde: Seq<u8>,
    z: PolyVec<L>,
    h: PolyVec<K>,
)
    requires
        K == P::K,
        L == P::L,
        pk.len() == P::PK_BYTES,
        crate::serdes::pk_decoded(pk, rho, t1),
        crate::serdes::sig_decoded::<P, K, L>(sig, c_tilde, z, h),
    ensures
        rho@ == pk.subrange(0, 32),
        c_tilde == sig.subrange(0, P::C_TILDE_BYTES as int),
        pv(t1) == pk_t1_m::<P>(pk),
        pv(z) == sig_z_m::<P>(sig),
        pv(h) == sig_h_m::<P>(sig),
        forall|i: int, j: int| 0 <= i < K && 0 <= j < N ==> 0 <= #[trigger] vc(t1, i, j) < 1024,
{
    lemma_sizes::<P>();
    crate::params::lemma_bitlen_constants();
    vstd::arithmetic::power2::lemma2_to64();
    assert forall|i: int, j: int| 0 <= i < K && 0 <= j < N implies 0 <= #[trigger] vc(t1, i, j)
        < 1024 by {
        let f = crate::serdes::field(pk, 32, 320, i);
        assert(j * 10 + 10 <= 8 * 320) by (nonlinear_arith)
            requires
                0 <= j < N,
        ;
        assert(f.len() == 320);
        lemma_read_value_lt(f, 10, j);
        assert(vc(t1, i, j) == t1.v[i].coeffs@[j]);
    }
    lemma_model_eq(pv(t1), pk_t1_m::<P>(pk));
    lemma_model_eq(pv(z), sig_z_m::<P>(sig));
    lemma_model_eq(pv(h), sig_h_m::<P>(sig));
}

/// `‖v‖∞ < bound` exactly when every centred magnitude is below `bound`.
proof fn lemma_norm_below<const M: usize>(v: PolyVec<M>, n: int, bound: int)
    requires
        crate::vecops::is_inf_norm(v, n),
        bound > 0,
    ensures
        (n < bound) == m_norm_below(pv(v), bound),
{
    if n < bound {
        assert forall|i: int, k: int| 0 <= i < M && 0 <= k < N implies centered_abs(
            #[trigger] pv(v)[i][k],
        ) < bound by {
            assert(pv(v)[i][k] == vc(v, i, k));
        }
    } else {
        let (i, k) = choose|i: int, k: int|
            0 <= i < M && 0 <= k < N && centered_abs(#[trigger] vc(v, i, k)) == n;
        assert(pv(v)[i][k] == vc(v, i, k));
    }
}

/// FIPS 204, Algorithm 8 — ML-DSA.Verify_internal.
pub fn verify_internal<P: ParameterSet, const K: usize, const L: usize>(
    pk: &[u8],
    m_prime: &[u8],
    sig: &[u8],
) -> (ok: bool)
    requires
        K == P::K,
        L == P::L,
    ensures
        ok == verify_internal_spec::<P>(pk@, m_prime@, sig@),
{
    proof {
        lemma_valid::<P>();
        lemma_sizes::<P>();
    }
    // lines 1–3: decode; a malformed key or signature is invalid.
    let (rho, t1) = match pk_decode::<P, K>(pk) {
        Ok(v) => v,
        Err(_) => return false,
    };
    let (c_tilde, z, h) = match sig_decode::<P, K, L>(sig) {
        Ok(v) => v,
        Err(_) => return false,
    };
    proof {
        lemma_decoded_models::<P, K, L>(pk@, sig@, rho, t1, c_tilde@, z, h);
    }
    let a_hat = expand_a::<K, L>(&rho);
    proof {
        crate::sign::lemma_expand_a_model(rho@, a_hat);
    }
    // lines 6–7
    let tr = shake256_of(pk, 64);
    let mu = shake256_of2(tr.as_slice(), m_prime, 64);
    // line 8
    let c = sample_in_ball::<P>(c_tilde.as_slice());
    proof {
        assert(coeffs_int(c.coeffs) =~= ball_coeffs::<P>(c_tilde@));
    }
    // line 9
    let t1_scaled = scale_t1(&t1);
    proof {
        let t1m = build(P::K as nat, |i: int, j: int| pk_t1_coeff(pk@, i, j) * 8192);
        assert forall|i: int, j: int| 0 <= i < K && 0 <= j < N implies #[trigger] pv(t1_scaled)[i][j]
            == t1m[i][j] by {
            assert(vc(t1_scaled, i, j) == vc(t1, i, j) * 8192);
            assert(pv(t1)[i][j] == pk_t1_m::<P>(pk@)[i][j]);
        }
        lemma_model_eq(pv(t1_scaled), t1m);
    }
    let z_hat = ntt_vec(&z);
    let az = matrix_vector_ntt(&a_hat, &z_hat);
    let c_hat = ntt(&c);
    let t1_hat = ntt_vec(&t1_scaled);
    let ct1 = scalar_vector_ntt(&c_hat, &t1_hat);
    let az_inv = inv_ntt_vec(&az);
    let ct1_inv = inv_ntt_vec(&ct1);
    let w_prime = sub_vec(&az_inv, &ct1_inv);
    // line 10
    let w1_prime = use_hint_vec::<P, K>(&h, &w_prime);
    proof {
        lemma_ntt_model(z, z_hat);
        lemma_matvec_model(a_hat, z_hat, az);
        lemma_ntt_model(t1_scaled, t1_hat);
        lemma_scalar_model(c_hat, t1_hat, ct1);
        lemma_inv_ntt_model(az, az_inv);
        lemma_inv_ntt_model(ct1, ct1_inv);
        lemma_sub_model(az_inv, ct1_inv, w_prime);
        lemma_use_hint_model(h, w_prime, P::GAMMA2 as int, w1_prime);
        assert(pv(w1_prime) == verify_w1::<P>(pk@, sig@));
    }
    // line 12
    let w1e = w1_encode::<P, K>(&w1_prime);
    proof {
        lemma_w1_bytes::<P, K>(w1_prime);
    }
    let c_tilde_prime = shake256_of2(mu.as_slice(), w1e.as_slice(), P::C_TILDE_BYTES);
    // line 13
    let zn = inf_norm(&z);
    proof {
        lemma_norm_below(z, zn as int, P::GAMMA1 - P::BETA);
    }
    zn < P::GAMMA1 - P::BETA && bytes_eq(c_tilde.as_slice(), c_tilde_prime.as_slice())
}

/// [`verify_internal`] on the division-free NTT components: same result.
pub fn verify_internal_fast<P: ParameterSet, const K: usize, const L: usize>(
    pk: &[u8],
    m_prime: &[u8],
    sig: &[u8],
) -> (ok: bool)
    requires
        K == P::K,
        L == P::L,
    ensures
        ok == verify_internal_spec::<P>(pk@, m_prime@, sig@),
{
    proof {
        lemma_valid::<P>();
        lemma_sizes::<P>();
    }
    // lines 1–3: decode; a malformed key or signature is invalid.
    let (rho, t1) = match pk_decode::<P, K>(pk) {
        Ok(v) => v,
        Err(_) => return false,
    };
    let (c_tilde, z, h) = match sig_decode::<P, K, L>(sig) {
        Ok(v) => v,
        Err(_) => return false,
    };
    proof {
        lemma_decoded_models::<P, K, L>(pk@, sig@, rho, t1, c_tilde@, z, h);
    }
    let a_hat = expand_a::<K, L>(&rho);
    proof {
        crate::sign::lemma_expand_a_model(rho@, a_hat);
    }
    // lines 6–7
    let tr = shake256_of(pk, 64);
    let mu = shake256_of2(tr.as_slice(), m_prime, 64);
    // line 8
    let c = sample_in_ball::<P>(c_tilde.as_slice());
    proof {
        assert(coeffs_int(c.coeffs) =~= ball_coeffs::<P>(c_tilde@));
    }
    // line 9
    let t1_scaled = scale_t1(&t1);
    proof {
        let t1m = build(P::K as nat, |i: int, j: int| pk_t1_coeff(pk@, i, j) * 8192);
        assert forall|i: int, j: int| 0 <= i < K && 0 <= j < N implies #[trigger] pv(t1_scaled)[i][j]
            == t1m[i][j] by {
            assert(vc(t1_scaled, i, j) == vc(t1, i, j) * 8192);
            assert(pv(t1)[i][j] == pk_t1_m::<P>(pk@)[i][j]);
        }
        lemma_model_eq(pv(t1_scaled), t1m);
    }
    let z_hat = ntt_vec_fast(&z);
    proof {
        crate::sign::lemma_canonical_vec(z_hat);
    }
    let az = matrix_vector_ntt_fast(&a_hat, &z_hat);
    let c_hat = ntt_fast(&c);
    let t1_hat = ntt_vec_fast(&t1_scaled);
    proof {
        crate::sign::lemma_canonical_vec(t1_hat);
        assert forall|k: int| 0 <= k < N implies 0 <= #[trigger] crate::ntt_arith::cf(c_hat, k)
            < crate::params::Q by {
            assert(coeffs_int(c_hat.coeffs)[k] == crate::ntt_arith::cf(c_hat, k));
        }
    }
    let ct1 = scalar_vector_ntt_fast(&c_hat, &t1_hat);
    let az_inv = inv_ntt_vec_fast(&az);
    let ct1_inv = inv_ntt_vec_fast(&ct1);
    let w_prime = sub_vec(&az_inv, &ct1_inv);
    // line 10
    let w1_prime = use_hint_vec::<P, K>(&h, &w_prime);
    proof {
        lemma_ntt_model(z, z_hat);
        lemma_matvec_model(a_hat, z_hat, az);
        lemma_ntt_model(t1_scaled, t1_hat);
        lemma_scalar_model(c_hat, t1_hat, ct1);
        lemma_inv_ntt_model(az, az_inv);
        lemma_inv_ntt_model(ct1, ct1_inv);
        lemma_sub_model(az_inv, ct1_inv, w_prime);
        lemma_use_hint_model(h, w_prime, P::GAMMA2 as int, w1_prime);
        assert(pv(w1_prime) == verify_w1::<P>(pk@, sig@));
    }
    // line 12
    let w1e = w1_encode::<P, K>(&w1_prime);
    proof {
        lemma_w1_bytes::<P, K>(w1_prime);
    }
    let c_tilde_prime = shake256_of2(mu.as_slice(), w1e.as_slice(), P::C_TILDE_BYTES);
    // line 13
    let zn = inf_norm(&z);
    proof {
        lemma_norm_below(z, zn as int, P::GAMMA1 - P::BETA);
    }
    zn < P::GAMMA1 - P::BETA && bytes_eq(c_tilde.as_slice(), c_tilde_prime.as_slice())
}

/// FIPS 204 Algorithm 3 — ML-DSA.Verify: a context longer than 255 bytes is invalid.
pub open spec fn verify_spec<P: ParameterSet>(
    pk: Seq<u8>,
    m: Seq<u8>,
    sig: Seq<u8>,
    ctx: Seq<u8>,
) -> bool {
    ctx.len() <= 255 && verify_internal_spec::<P>(pk, m_prime_spec(ctx, m), sig)
}

/// FIPS 204, Algorithm 3 — ML-DSA.Verify.
pub fn verify<P: ParameterSet, const K: usize, const L: usize>(
    pk: &[u8],
    m: &[u8],
    sig: &[u8],
    ctx: &[u8],
) -> (ok: bool)
    requires
        K == P::K,
        L == P::L,
    ensures
        ok == verify_spec::<P>(pk@, m@, sig@, ctx@),
{
    if ctx.len() > 255 {
        return false;
    }
    verify_internal::<P, K, L>(pk, &format_m_prime(ctx, m), sig)
}

/// [`verify`] on the division-free NTT components: same result.
pub fn verify_fast<P: ParameterSet, const K: usize, const L: usize>(
    pk: &[u8],
    m: &[u8],
    sig: &[u8],
    ctx: &[u8],
) -> (ok: bool)
    requires
        K == P::K,
        L == P::L,
    ensures
        ok == verify_spec::<P>(pk@, m@, sig@, ctx@),
{
    if ctx.len() > 255 {
        return false;
    }
    verify_internal_fast::<P, K, L>(pk, &format_m_prime(ctx, m), sig)
}

/// FIPS 204, Algorithm 5 — HashML-DSA.Verify: `M'` is built as Algorithm 4 builds it,
/// then checked by Verify_internal; a context longer than 255 bytes is invalid.
pub fn hash_verify<P: ParameterSet, const K: usize, const L: usize>(
    pk: &[u8],
    m: &[u8],
    sig: &[u8],
    ctx: &[u8],
    ph: crate::prehash::PreHash,
) -> (ok: bool)
    requires
        K == P::K,
        L == P::L,
    ensures
        ok == (ctx@.len() <= 255 && verify_internal_spec::<P>(
            pk@,
            crate::sign::m_prime_prehash_spec(ctx@, m@, ph),
            sig@,
        )),
{
    if ctx.len() > 255 {
        return false;
    }
    verify_internal::<P, K, L>(pk, &crate::sign::format_m_prime_prehash(ctx, m, ph), sig)
}

} // verus!
