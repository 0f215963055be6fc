//! FIPS 204 §6.1 — key generation (Algorithm 6).
//!
//! `key_gen_internal` is deterministic in its 32-byte seed `ξ`. Drawing `ξ` from a
//! random number generator (Algorithm 1) is left to the caller.
use crate::expand::{bounded_seed_spec, expand_a, expand_a_seed, expand_s};
use crate::hash::{h_reader_input, h_reader_pos, shake256, H};
use crate::model::{
    lemma_add_model, lemma_inv_ntt_model, lemma_matvec_model, lemma_model_eq, lemma_ntt_model,
    lemma_p2r_hi_model, lemma_p2r_lo_model, m_add, m_inv_ntt, m_matvec, m_ntt,
    m_power2round_hi, m_power2round_lo, pmn, pv, pvn,
};
use crate::ntt_arith::{matrix_vector_ntt, matrix_vector_ntt_fast};
use crate::params::{lemma_valid, ParameterSet, N};
use crate::sample::{rej_bounded_coeffs, rej_ntt_coeffs};
use crate::serdes::{
    lemma_pk_bytes, lemma_sk_bytes, pk_bytes, pk_encode, sk_bytes, sk_encode, take_32, take_64,
};
use crate::rounding::{lemma_power2round, power2round_spec};
use crate::sign::lemma_sk_models;
use crate::signer::{sk_public_key, sk_t};
use crate::serdes::{lemma_sk_decode_of_encode, sk_encoding, T0_A, T0_B};
use crate::poly::PolyVec;
use crate::vecops::vc;
use crate::vecops::{add_vec, inv_ntt_vec, inv_ntt_vec_fast, ntt_vec, ntt_vec_fast, power2round_vec};
use vstd::prelude::*;

verus! {

/// KeyGen_internal line 1: `(ρ, ρ', K) ← H(ξ ‖ IntegerToBytes(k, 1) ‖ IntegerToBytes(l, 1), 128)`.
pub open spec fn keygen_seed<P: ParameterSet>(xi: Seq<u8>) -> Seq<u8> {
    shake256(xi + seq![P::K as u8, P::L as u8], 128)
}

/// ExpandA over models: entry `(r, s)` is RejNTTPoly of `ρ ‖ s ‖ r`.
pub open spec fn expand_a_m(rho: Seq<u8>, k: nat, l: nat) -> Seq<Seq<Seq<int>>> {
    Seq::new(k, |r: int| Seq::new(l, |s: int| rej_ntt_coeffs(expand_a_seed(rho, r, s))))
}

/// ExpandS over models: `s1` (`l` polynomials, nonces `0..l`).
pub open spec fn expand_s1_m<P: ParameterSet>(rho: Seq<u8>, l: nat) -> Seq<Seq<int>> {
    Seq::new(l, |i: int| rej_bounded_coeffs::<P>(bounded_seed_spec(rho, i as nat)))
}

/// ExpandS over models: `s2` (`k` polynomials, nonces `l..l + k`).
pub open spec fn expand_s2_m<P: ParameterSet>(rho: Seq<u8>, k: nat, l: nat) -> Seq<Seq<int>> {
    Seq::new(k, |i: int| rej_bounded_coeffs::<P>(bounded_seed_spec(rho, (i + l) as nat)))
}

/// `t = NTT⁻¹(Â ∘ NTT(s1)) + s2` (KeyGen_internal line 5).
pub open spec fn keygen_t<P: ParameterSet>(xi: Seq<u8>) -> Seq<Seq<int>> {
    let seed = keygen_seed::<P>(xi);
    let rho = seed.subrange(0, 32);
    let rho_p = seed.subrange(32, 96);
    let a = expand_a_m(rho, P::K as nat, P::L as nat);
    let s1 = expand_s1_m::<P>(rho_p, P::L as nat);
    let s2 = expand_s2_m::<P>(rho_p, P::K as nat, P::L as nat);
    m_add(m_inv_ntt(m_matvec(a, m_ntt(s1))), s2)
}

/// FIPS 204 Algorithm 6 — ML-DSA.KeyGen_internal, as a function of `ξ`: `(pk, sk)`.
pub open spec fn keygen_spec<P: ParameterSet>(xi: Seq<u8>) -> (Seq<u8>, Seq<u8>) {
    let seed = keygen_seed::<P>(xi);
    let rho = seed.subrange(0, 32);
    let rho_p = seed.subrange(32, 96);
    let k_seed = seed.subrange(96, 128);
    let s1 = expand_s1_m::<P>(rho_p, P::L as nat);
    let s2 = expand_s2_m::<P>(rho_p, P::K as nat, P::L as nat);
    let t = keygen_t::<P>(xi);
    let pk = pk_bytes(rho, m_power2round_hi(t));
    let sk = sk_bytes::<P>(rho, k_seed, shake256(pk, 64), s1, s2, m_power2round_lo(t));
    (pk, sk)
}

/// The public key that an encoded secret key determines is the one key generation
/// encoded beside it.
proof fn lemma_keygen_public_key<P: ParameterSet, const K: usize, const L: usize>(
    rho: Seq<u8>,
    k_seed: Seq<u8>,
    tr: Seq<u8>,
    s1: PolyVec<L>,
    s2: PolyVec<K>,
    t: PolyVec<K>,
    t1: PolyVec<K>,
    t0: PolyVec<K>,
)
    requires
        K == P::K,
        L == P::L,
        rho.len() == 32,
        k_seed.len() == 32,
        tr.len() == 64,
        forall|i: int, j: int| 0 <= i < L && 0 <= j < N ==> -P::ETA <= #[trigger] vc(s1, i, j) <= P::ETA,
        forall|i: int, j: int| 0 <= i < K && 0 <= j < N ==> -P::ETA <= #[trigger] vc(s2, i, j) <= P::ETA,
        pv(t) == m_add(m_inv_ntt(m_matvec(expand_a_m(rho, K as nat, L as nat), m_ntt(pv(s1)))), pv(s2)),
        pv(t1) == m_power2round_hi(pv(t)),
        forall|i: int, j: int|
            0 <= i < K && 0 <= j < N ==> (#[trigger] t0.v[i].coeffs[j]) == power2round_spec(vc(t, i, j)).1,
    ensures
        sk_public_key::<P>(sk_encoding::<P, K, L>(rho, k_seed, tr, s1, s2, t0)) == pk_bytes(rho, pv(t1)),
{
    assert forall|i: int, j: int| 0 <= i < K && 0 <= j < N implies -T0_A <= #[trigger] vc(t0, i, j)
        <= T0_B by {
        lemma_power2round(vc(t, i, j));
    }
    lemma_sk_decode_of_encode::<P, K, L>(rho, k_seed, tr, s1, s2, t0);
    let sk = sk_encoding::<P, K, L>(rho, k_seed, tr, s1, s2, t0);
    lemma_sk_models::<P, K, L>(sk, s1, s2, t0);
    assert(sk_t::<P>(sk) == pv(t));
}

/// FIPS 204, Algorithm 6 — ML-DSA.KeyGen_internal: encoded `(pk, sk)` from seed `ξ`.
pub fn key_gen_internal<P: ParameterSet, const K: usize, const L: usize>(xi: &[u8; 32]) -> (r: (
    Vec<u8>,
    Vec<u8>,
))
    requires
        K == P::K,
        L == P::L,
    ensures
        (r.0@, r.1@) == keygen_spec::<P>(xi@),
        r.0@.len() == P::PK_BYTES,
        r.1@.len() == P::SK_BYTES,
        sk_public_key::<P>(r.1@) == r.0@,
{
    proof {
        lemma_valid::<P>();
    }
    // line 1
    let mut h = H::init();
    h.absorb(xi.as_slice());
    let kl = [K as u8, L as u8];
    h.absorb(kl.as_slice());
    let mut rd = h.finalize();
    let seed = rd.squeeze_vec(128);
    let ghost sd = keygen_seed::<P>(xi@);
    assert(seed@ =~= sd) by {
        assert(xi@ + kl@ =~= xi@ + seq![P::K as u8, P::L as u8]);
    }
    let rho = take_32(seed.as_slice(), 0);
    let rho_prime = take_64(seed.as_slice(), 32);
    let k_seed = take_32(seed.as_slice(), 96);
    // lines 3–4
    let a_hat = expand_a::<K, L>(&rho);
    let (s1, s2) = expand_s::<P, K, L>(&rho_prime);
    proof {
        let am = expand_a_m(rho@, K as nat, L as nat);
        assert forall|r: int| 0 <= r < K implies #[trigger] pmn(a_hat)[r] == am[r] by {
            assert forall|s: int| 0 <= s < L implies #[trigger] pmn(a_hat)[r][s] == am[r][s] by {
                assert(pmn(a_hat)[r][s] =~= am[r][s]);
            }
            assert(pmn(a_hat)[r] =~= am[r]);
        }
        assert(pmn(a_hat) =~= am);
        lemma_model_eq(pv(s1), expand_s1_m::<P>(rho_prime@, L as nat));
        lemma_model_eq(pv(s2), expand_s2_m::<P>(rho_prime@, K as nat, L as nat));
    }
    // line 5
    let s1_hat = ntt_vec(&s1);
    let as1 = matrix_vector_ntt(&a_hat, &s1_hat);
    let as1_inv = inv_ntt_vec(&as1);
    let t = add_vec(&as1_inv, &s2);
    proof {
        lemma_ntt_model(s1, s1_hat);
        lemma_matvec_model(a_hat, s1_hat, as1);
        lemma_inv_ntt_model(as1, as1_inv);
        lemma_add_model(as1_inv, s2, t);
        assert(pv(t) == keygen_t::<P>(xi@));
    }
    // line 6
    let (t1, t0) = power2round_vec(&t);
    proof {
        lemma_p2r_hi_model(t, t1);
        lemma_p2r_lo_model(t, t0);
    }
    // line 8
    let pk = pk_encode::<P, K>(&rho, &t1);
    proof {
        lemma_pk_bytes(rho@, t1);
    }
    // line 9: tr ← H(pk, 64)
    let mut th = H::init();
    th.absorb(pk.as_slice());
    let mut tr = [0u8; 64];
    let mut trd = th.finalize();
    trd.squeeze(&mut tr);
    assert(tr@ =~= shake256(pk@, 64));
    // line 10
    let sk = sk_encode::<P, K, L>(&rho, &k_seed, &tr, &s1, &s2, &t0);
    proof {
        lemma_sk_bytes::<P, K, L>(rho@, k_seed@, tr@, s1, s2, t0);
        lemma_keygen_public_key::<P, K, L>(rho@, k_seed@, tr@, s1, s2, t, t1, t0);
    }
    (pk, sk)
}

/// [`key_gen_internal`] on the division-free NTT components: the same keys.
pub fn key_gen_internal_fast<P: ParameterSet, const K: usize, const L: usize>(xi: &[u8; 32]) -> (r: (
    Vec<u8>,
    Vec<u8>,
))
    requires
        K == P::K,
        L == P::L,
    ensures
        (r.0@, r.1@) == keygen_spec::<P>(xi@),
        r.0@.len() == P::PK_BYTES,
        r.1@.len() == P::SK_BYTES,
        sk_public_key::<P>(r.1@) == r.0@,
{
    proof {
        lemma_valid::<P>();
    }
    // line 1
    let mut h = H::init();
    h.absorb(xi.as_slice());
    let kl = [K as u8, L as u8];
    h.absorb(kl.as_slice());
    let mut rd = h.finalize();
    let seed = rd.squeeze_vec(128);
    let ghost sd = keygen_seed::<P>(xi@);
    assert(seed@ =~= sd) by {
        assert(xi@ + kl@ =~= xi@ + seq![P::K as u8, P::L as u8]);
    }
    let rho = take_32(seed.as_slice(), 0);
    let rho_prime = take_64(seed.as_slice(), 32);
    let k_seed = take_32(seed.as_slice(), 96);
    // lines 3–4
    let a_hat = expand_a::<K, L>(&rho);
    let (s1, s2) = expand_s::<P, K, L>(&rho_prime);
    proof {
        let am = expand_a_m(rho@, K as nat, L as nat);
        assert forall|r: int| 0 <= r < K implies #[trigger] pmn(a_hat)[r] == am[r] by {
            assert forall|s: int| 0 <= s < L implies #[trigger] pmn(a_hat)[r][s] == am[r][s] by {
                assert(pmn(a_hat)[r][s] =~= am[r][s]);
            }
            assert(pmn(a_hat)[r] =~= am[r]);
        }
        assert(pmn(a_hat) =~= am);
        lemma_model_eq(pv(s1), expand_s1_m::<P>(rho_prime@, L as nat));
        lemma_model_eq(pv(s2), expand_s2_m::<P>(rho_prime@, K as nat, L as nat));
    }
    // line 5
    let s1_hat = ntt_vec_fast(&s1);
    proof {
        crate::sign::lemma_canonical_vec(s1_hat);
        assert forall|r: int, s: int, k: int|
            0 <= r < K && 0 <= s < L && 0 <= k < N implies 0 <= #[trigger] crate::ntt_arith::cf(
            a_hat.rows[r].v[s],
            k,
        ) < crate::params::Q by {
            assert(a_hat.rows[r].v[s].coeffs@[k] == crate::ntt_arith::cf(a_hat.rows[r].v[s], k));
        }
    }
    let as1 = matrix_vector_ntt_fast(&a_hat, &s1_hat);
    let as1_inv = inv_ntt_vec_fast(&as1);
    let t = add_vec(&as1_inv, &s2);
    proof {
        lemma_ntt_model(s1, s1_hat);
        lemma_matvec_model(a_hat, s1_hat, as1);
        lemma_inv_ntt_model(as1, as1_inv);
        lemma_add_model(as1_inv, s2, t);
        assert(pv(t) == keygen_t::<P>(xi@));
    }
    // line 6
    let (t1, t0) = power2round_vec(&t);
    proof {
        lemma_p2r_hi_model(t, t1);
        lemma_p2r_lo_model(t, t0);
    }
    // line 8
    let pk = pk_encode::<P, K>(&rho, &t1);
    proof {
        lemma_pk_bytes(rho@, t1);
    }
    // line 9: tr ← H(pk, 64)
    let mut th = H::init();
    th.absorb(pk.as_slice());
    let mut tr = [0u8; 64];
    let mut trd = th.finalize();
    trd.squeeze(&mut tr);
    assert(tr@ =~= shake256(pk@, 64));
    // line 10
    let sk = sk_encode::<P, K, L>(&rho, &k_seed, &tr, &s1, &s2, &t0);
    proof {
        lemma_sk_bytes::<P, K, L>(rho@, k_seed@, tr@, s1, s2, t0);
        lemma_keygen_public_key::<P, K, L>(rho@, k_seed@, tr@, s1, s2, t, t1, t0);
    }
    (pk, sk)
}

/// KeyGen_internal line 1 separates the parameter sets by appending to `ξ` first the
/// number of rows `k` of `Â` — the number of `t1` polynomials, `(|pk| − 32) / 320` — and
/// then the number of columns `l`: `(ρ, ρ', K) = H(ξ ‖ k ‖ l, 128)`.
pub proof fn lemma_keygen_seed_rows_then_columns<P: ParameterSet>(xi: Seq<u8>)
    ensures
        keygen_seed::<P>(xi) == shake256(
            xi + seq![((P::PK_BYTES - 32) / 320) as u8, P::L as u8],
            128,
        ),
{
    lemma_valid::<P>();
    crate::params::lemma_bitlen_constants();
    assert((P::PK_BYTES - 32) / 320 == P::K);
    assert(xi + seq![((P::PK_BYTES - 32) / 320) as u8, P::L as u8] =~= xi + seq![
        P::K as u8,
        P::L as u8,
    ]);
}

/// The KeyGen_internal domain bytes of each parameter set: `(4, 4)` for ML-DSA-44,
/// `(6, 5)` for ML-DSA-65 and `(8, 7)` for ML-DSA-87.
pub proof fn lemma_keygen_seed_per_set(xi: Seq<u8>)
    ensures
        keygen_seed::<crate::params::MlDsa44>(xi) == shake256(xi + seq![4u8, 4u8], 128),
        keygen_seed::<crate::params::MlDsa65>(xi) == shake256(xi + seq![6u8, 5u8], 128),
        keygen_seed::<crate::params::MlDsa87>(xi) == shake256(xi + seq![8u8, 7u8], 128),
{
    crate::params::lemma_mldsa44_values();
    crate::params::lemma_mldsa65_values();
    crate::params::lemma_mldsa87_values();
    assert(xi + seq![crate::params::MlDsa44::K as u8, crate::params::MlDsa44::L as u8] =~= xi
        + seq![4u8, 4u8]);
    assert(xi + seq![crate::params::MlDsa65::K as u8, crate::params::MlDsa65::L as u8] =~= xi
        + seq![6u8, 5u8]);
    assert(xi + seq![crate::params::MlDsa87::K as u8, crate::params::MlDsa87::L as u8] =~= xi
        + seq![8u8, 7u8]);
}

} // verus!
