//! ML-DSA-44 (security category 2).
//!
//! The FIPS 204 interfaces for one parameter set, as plain (non-generic) functions.
use crate::error::{Error, Result};
use crate::keygen::keygen_spec;
use crate::params::{MlDsa44, ParameterSet};
use crate::prehash::PreHash;
use crate::sign::{m_prime_prehash_spec, sign_internal_spec, sign_traced_spec};
use crate::verify::{verify_internal_spec, verify_spec};
use vstd::prelude::*;

verus! {

/// The `ParameterSet` marker type of this module.
pub type Params = MlDsa44;

/// Rows of `A`.
const K: usize = 4;

/// Columns of `A`.
const L: usize = 4;

/// Encoded public key length, in bytes (FIPS 204 Table 2).
pub const PK_BYTES: usize = 1312;

/// Encoded secret key length, in bytes (FIPS 204 Table 2).
pub const SK_BYTES: usize = 2560;

/// Encoded signature length, in bytes (FIPS 204 Table 2).
pub const SIG_BYTES: usize = 2420;

/// The byte sizes above are the parameter set's.
pub proof fn lemma_sizes()
    ensures
        PK_BYTES == Params::PK_BYTES,
        SK_BYTES == Params::SK_BYTES,
        SIG_BYTES == Params::SIG_BYTES,
{
    crate::params::lemma_mldsa44_values();
}

/// FIPS 204, Algorithm 6 — ML-DSA.KeyGen_internal (deterministic in `ξ`).
pub fn key_gen_internal(xi: &[u8; 32]) -> (r: (Vec<u8>, Vec<u8>))
    ensures
        (r.0@, r.1@) == keygen_spec::<Params>(xi@),
        r.0@.len() == PK_BYTES,
        r.1@.len() == SK_BYTES,
        crate::signer::sk_public_key::<Params>(r.1@) == r.0@,
{
    proof {
        crate::params::lemma_mldsa44_values();
    }
    crate::keygen::key_gen_internal::<Params, K, L>(xi)
}

/// [`key_gen_internal`] on the division-free NTT components: the same keys.
pub fn key_gen_internal_fast(xi: &[u8; 32]) -> (r: (Vec<u8>, Vec<u8>))
    ensures
        (r.0@, r.1@) == keygen_spec::<Params>(xi@),
        r.0@.len() == PK_BYTES,
        r.1@.len() == SK_BYTES,
        crate::signer::sk_public_key::<Params>(r.1@) == r.0@,
{
    proof {
        crate::params::lemma_mldsa44_values();
    }
    crate::keygen::key_gen_internal_fast::<Params, K, L>(xi)
}

/// Deterministic signing variant (FIPS 204 §3.4): `rnd = {0}^32`.
pub fn sign_deterministic(sk: &[u8], m: &[u8], ctx: &[u8]) -> (r: Result<Vec<u8>>)
    requires
        sk@.len() == SK_BYTES,
    ensures
        match r {
            Ok(sig) => sign_traced_spec::<Params>(sk@, m@, ctx@, seq![0u8; 32]) matches Ok((s, _))
                && s == sig@,
            Err(e) => e == Error::ContextTooLong && ctx@.len() > 255,
        },
        ctx@.len() <= 255 <==> r is Ok,
{
    proof {
        crate::params::lemma_mldsa44_values();
    }
    crate::sign::sign_deterministic::<Params, K, L>(sk, m, ctx)
}

/// Deterministic signing that also returns the rejection-loop count.
pub fn sign_deterministic_traced(sk: &[u8], m: &[u8], ctx: &[u8]) -> (r: Result<(Vec<u8>, u32)>)
    requires
        sk@.len() == SK_BYTES,
    ensures
        match r {
            Ok((sig, n)) => sign_traced_spec::<Params>(sk@, m@, ctx@, seq![0u8; 32]) == Ok::<
                (Seq<u8>, nat),
                Error,
            >((sig@, n as nat)),
            Err(e) => sign_traced_spec::<Params>(sk@, m@, ctx@, seq![0u8; 32]) == Err::<
                (Seq<u8>, nat),
                Error,
            >(e),
        },
{
    proof {
        crate::params::lemma_mldsa44_values();
    }
    crate::sign::sign_deterministic_traced::<Params, K, L>(sk, m, ctx)
}

/// FIPS 204, Algorithm 2 — ML-DSA.Sign (hedged), with the caller's random `rnd`.
pub fn sign_with_rnd(sk: &[u8], m: &[u8], ctx: &[u8], rnd: &[u8; 32]) -> (r: Result<Vec<u8>>)
    requires
        sk@.len() == SK_BYTES,
    ensures
        match r {
            Ok(sig) => sign_traced_spec::<Params>(sk@, m@, ctx@, rnd@) matches Ok((s, _)) && s
                == sig@,
            Err(e) => e == Error::ContextTooLong && ctx@.len() > 255,
        },
        ctx@.len() <= 255 <==> r is Ok,
{
    proof {
        crate::params::lemma_mldsa44_values();
    }
    crate::sign::sign_with_rnd::<Params, K, L>(sk, m, ctx, rnd)
}

/// FIPS 204, Algorithm 7 — ML-DSA.Sign_internal.
pub fn sign_internal(sk: &[u8], m_prime: &[u8], rnd: &[u8; 32]) -> (sig: Vec<u8>)
    requires
        sk@.len() == SK_BYTES,
    ensures
        sig@ == sign_internal_spec::<Params>(sk@, m_prime@, rnd@).0,
{
    proof {
        crate::params::lemma_mldsa44_values();
    }
    crate::sign::sign_internal::<Params, K, L>(sk, m_prime, rnd)
}

/// [`sign_internal`] on the division-free, branchless components: the same signature.
pub fn sign_internal_fast(sk: &[u8], m_prime: &[u8], rnd: &[u8; 32]) -> (sig: Vec<u8>)
    requires
        sk@.len() == SK_BYTES,
    ensures
        sig@ == sign_internal_spec::<Params>(sk@, m_prime@, rnd@).0,
{
    proof {
        crate::params::lemma_mldsa44_values();
    }
    crate::sign::sign_internal_fast::<Params, K, L>(sk, m_prime, rnd)
}

/// FIPS 204, Algorithm 4 — HashML-DSA.Sign, with the caller's random `rnd`.
pub fn hash_sign_with_rnd(
    sk: &[u8],
    m: &[u8],
    ctx: &[u8],
    ph: PreHash,
    rnd: &[u8; 32],
) -> (r: Result<Vec<u8>>)
    requires
        sk@.len() == SK_BYTES,
    ensures
        match r {
            Ok(sig) => sig@ == sign_internal_spec::<Params>(
                sk@,
                m_prime_prehash_spec(ctx@, m@, ph),
                rnd@,
            ).0,
            Err(e) => e == Error::ContextTooLong && ctx@.len() > 255,
        },
        ctx@.len() <= 255 <==> r is Ok,
{
    proof {
        crate::params::lemma_mldsa44_values();
    }
    crate::sign::hash_sign_with_rnd::<Params, K, L>(sk, m, ctx, ph, rnd)
}

/// FIPS 204, Algorithm 3 — ML-DSA.Verify.
pub fn verify(pk: &[u8], m: &[u8], sig: &[u8], ctx: &[u8]) -> (ok: bool)
    ensures
        ok == verify_spec::<Params>(pk@, m@, sig@, ctx@),
{
    proof {
        crate::params::lemma_mldsa44_values();
    }
    crate::verify::verify::<Params, K, L>(pk, m, sig, ctx)
}

/// FIPS 204, Algorithm 8 — ML-DSA.Verify_internal.
pub fn verify_internal(pk: &[u8], m_prime: &[u8], sig: &[u8]) -> (ok: bool)
    ensures
        ok == verify_internal_spec::<Params>(pk@, m_prime@, sig@),
{
    proof {
        crate::params::lemma_mldsa44_values();
    }
    crate::verify::verify_internal::<Params, K, L>(pk, m_prime, sig)
}

/// [`verify_internal`] on the division-free NTT components: the same result.
pub fn verify_internal_fast(pk: &[u8], m_prime: &[u8], sig: &[u8]) -> (ok: bool)
    ensures
        ok == verify_internal_spec::<Params>(pk@, m_prime@, sig@),
{
    proof {
        crate::params::lemma_mldsa44_values();
    }
    crate::verify::verify_internal_fast::<Params, K, L>(pk, m_prime, sig)
}

/// FIPS 204, Algorithm 5 — HashML-DSA.Verify.
pub fn hash_verify(pk: &[u8], m: &[u8], sig: &[u8], ctx: &[u8], ph: PreHash) -> (ok: bool)
    ensures
        ok == (ctx@.len() <= 255 && verify_internal_spec::<Params>(
            pk@,
            m_prime_prehash_spec(ctx@, m@, ph),
            sig@,
        )),
{
    proof {
        crate::params::lemma_mldsa44_values();
    }
    crate::verify::hash_verify::<Params, K, L>(pk, m, sig, ctx, ph)
}

} // verus!
