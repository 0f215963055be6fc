//! A prepared ML-DSA signing key: the key-dependent, message-independent work of
//! Algorithm 7 (lines 1–5) done once and reused for every signature.
use crate::error::{Error, Result};
use crate::expand::expand_a;
use crate::keygen::expand_a_m;
use crate::model::{
    lemma_add_model, lemma_inv_ntt_model, lemma_matvec_model, lemma_ntt_model, lemma_p2r_hi_model,
    m_add, m_inv_ntt, m_matvec, m_ntt, m_power2round_hi, pmn, pv, pvn,
};
use crate::ntt_arith::{cf, matrix_vector_ntt_fast};
use crate::params::{lemma_valid, ParameterSet, N, Q};
use crate::poly::{PolyMatNTT, PolyVecNTT};
use crate::serdes::{lemma_pk_bytes, pk_bytes, pk_encode, sk_decode, take_32};
use crate::sign::{
    canonical_vec, format_m_prime, lemma_canonical_vec, lemma_expand_a_model, lemma_sign_loop_step,
    lemma_sk_models, m_prime_spec, sign_attempt_fast, sign_internal_spec, sign_loop_spec, sign_seeds,
    sk_s1_m, sk_s2_m, sk_t0_m, sign_traced_spec,
};
use crate::vecops::{add_vec, inv_ntt_vec_fast, ntt_vec_fast, power2round_vec};
use crate::verify::{verify_internal_fast, verify_internal_spec};
use core::marker::PhantomData;
use vstd::prelude::*;
use zeroize::Zeroize;

verus! {

/// `t = NTT⁻¹(Â ∘ NTT(s1)) + s2` recomputed from a secret key.
pub open spec fn sk_t<P: ParameterSet>(sk: Seq<u8>) -> Seq<Seq<int>> {
    m_add(
        m_inv_ntt(
            m_matvec(expand_a_m(sk.subrange(0, 32), P::K as nat, P::L as nat), m_ntt(sk_s1_m::<P>(sk))),
        ),
        sk_s2_m::<P>(sk),
    )
}

/// The public key a secret key determines: `pkEncode(ρ, Power2Round(t).1)`.
pub open spec fn sk_public_key<P: ParameterSet>(sk: Seq<u8>) -> Seq<u8> {
    pk_bytes(sk.subrange(0, 32), m_power2round_hi(sk_t::<P>(sk)))
}

/// ML-DSA.Sign followed by Verify_internal on the signer's public key: the signature
/// when it verifies, `FaultDetected` when it does not, `ContextTooLong` for a context over
/// 255 bytes.
pub open spec fn sign_verified_spec<P: ParameterSet>(
    sk: Seq<u8>,
    m: Seq<u8>,
    ctx: Seq<u8>,
    rnd: Seq<u8>,
) -> core::result::Result<Seq<u8>, Error> {
    if ctx.len() > 255 {
        Err(Error::ContextTooLong)
    } else {
        let sig = sign_internal_spec::<P>(sk, m_prime_spec(ctx, m), rnd).0;
        if verify_internal_spec::<P>(sk_public_key::<P>(sk), m_prime_spec(ctx, m), sig) {
            Ok(sig)
        } else {
            Err(Error::FaultDetected)
        }
    }
}

/// A prepared ML-DSA signing key: skDecode, ExpandA(ρ) and the NTTs of `s1, s2, t0`
/// done once.
pub struct Signer<P: ParameterSet, const K: usize, const L: usize> {
    k_seed: [u8; 32],
    tr: [u8; 64],
    a_hat: PolyMatNTT<K, L>,
    s1_hat: PolyVecNTT<L>,
    s2_hat: PolyVecNTT<K>,
    t0_hat: PolyVecNTT<K>,
    /// The re-encoded public key, kept for verify-after-sign.
    pk: Vec<u8>,
    sk: Ghost<Seq<u8>>,
    _params: PhantomData<P>,
}

impl<P: ParameterSet, const K: usize, const L: usize> Signer<P, K, L> {
    /// The secret key this signer was prepared from.
    pub closed spec fn secret_key(self) -> Seq<u8> {
        self.sk@
    }

    /// Every field is the one `from_sk` derives from the secret key.
    pub closed spec fn wf(self) -> bool {
        let sk = self.sk@;
        &&& K == P::K
        &&& L == P::L
        &&& sk.len() == P::SK_BYTES
        &&& self.k_seed@ == sk.subrange(32, 64)
        &&& self.tr@ == sk.subrange(64, 128)
        &&& pmn(self.a_hat) == expand_a_m(sk.subrange(0, 32), K as nat, L as nat)
        &&& forall|r: int, s: int, k: int|
            0 <= r < K && 0 <= s < L && 0 <= k < N ==> 0 <= #[trigger] cf(self.a_hat.rows[r].v[s], k)
                < Q
        &&& pvn(self.s1_hat) == m_ntt(sk_s1_m::<P>(sk))
        &&& pvn(self.s2_hat) == m_ntt(sk_s2_m::<P>(sk))
        &&& pvn(self.t0_hat) == m_ntt(sk_t0_m::<P>(sk))
        &&& canonical_vec(self.s1_hat)
        &&& canonical_vec(self.s2_hat)
        &&& canonical_vec(self.t0_hat)
        &&& self.pk@ == sk_public_key::<P>(sk)
    }

    /// Build a prepared signer from an encoded secret key: skDecode + ExpandA(ρ) +
    /// NTT(s1), NTT(s2), NTT(t0), and the public key re-encoded from `t = A·s1 + s2`.
    pub fn from_sk(sk: &[u8]) -> (r: Result<Self>)
        requires
            K == P::K,
            L == P::L,
        ensures
            sk@.len() != P::SK_BYTES ==> r == (Err::<Self, Error>(
                Error::InvalidLength { expected: P::SK_BYTES, got: sk@.len() as usize },
            )),
            sk@.len() == P::SK_BYTES ==> (r matches Ok(s) && s.wf() && s.secret_key() == sk@),
    {
        proof {
            lemma_valid::<P>();
        }
        let (rho, k_seed, tr, s1, s2, t0) = match sk_decode::<P, K, L>(sk) {
            Ok(d) => d,
            Err(e) => {
                return Err(e);
            },
        };
        proof {
            lemma_sk_models::<P, K, L>(sk@, s1, s2, t0);
        }
        let a_hat = expand_a::<K, L>(&rho);
        let s1_hat = ntt_vec_fast(&s1);
        let s2_hat = ntt_vec_fast(&s2);
        let t0_hat = ntt_vec_fast(&t0);
        proof {
            lemma_expand_a_model(rho@, a_hat);
            lemma_ntt_model(s1, s1_hat);
            lemma_ntt_model(s2, s2_hat);
            lemma_ntt_model(t0, t0_hat);
            lemma_canonical_vec(s1_hat);
            lemma_canonical_vec(s2_hat);
            lemma_canonical_vec(t0_hat);
            assert forall|r: int, s: int, k: int|
                0 <= r < K && 0 <= s < L && 0 <= k < N implies 0 <= #[trigger] cf(
                a_hat.rows[r].v[s],
                k,
            ) < Q by {
                assert(a_hat.rows[r].v[s].coeffs@[k] == cf(a_hat.rows[r].v[s], k));
            }
        }
        let as1 = matrix_vector_ntt_fast(&a_hat, &s1_hat);
        let as1_inv = inv_ntt_vec_fast(&as1);
        let t = add_vec(&as1_inv, &s2);
        let (t1, _t0) = power2round_vec(&t);
        proof {
            lemma_matvec_model(a_hat, s1_hat, as1);
            lemma_inv_ntt_model(as1, as1_inv);
            lemma_add_model(as1_inv, s2, t);
            lemma_p2r_hi_model(t, t1);
        }
        let pk = pk_encode::<P, K>(&rho, &t1);
        proof {
            lemma_pk_bytes(rho@, t1);
        }
        Ok(Self { k_seed, tr, a_hat, s1_hat, s2_hat, t0_hat, pk, sk: Ghost(sk@), _params: PhantomData })
    }

    /// FIPS 204, Algorithm 7 (lines 6 onward) on the prepared key: the same signature as
    /// [`crate::sign::sign_internal`] on the secret key.
    pub fn sign_internal(&self, m_prime: &[u8], rnd: &[u8; 32]) -> (sig: Vec<u8>)
        requires
            self.wf(),
        ensures
            sig@ == sign_internal_spec::<P>(self.secret_key(), m_prime@, rnd@).0,
    {
        proof {
            lemma_valid::<P>();
        }
        let ghost sk = self.sk@;
        let (mu, rho_pp) = sign_seeds(&self.tr, &self.k_seed, m_prime, rnd);
        let ghost am = pmn(self.a_hat);
        let ghost s1m = pvn(self.s1_hat);
        let ghost s2m = pvn(self.s2_hat);
        let ghost t0m = pvn(self.t0_hat);
        let ghost target = sign_internal_spec::<P>(sk, m_prime@, rnd@);
        assert(sign_loop_spec::<P>(am, s1m, s2m, t0m, mu@, rho_pp@, 0, 0) == target);
        let l = L as u32;
        let mut kappa: u32 = 0;
        let mut attempts: u32 = 0;
        loop
            invariant
                self.wf(),
                K == P::K,
                L == P::L,
                4 <= L <= 7,
                l == L,
                attempts <= kappa,
                am == pmn(self.a_hat),
                s1m == pvn(self.s1_hat),
                s2m == pvn(self.s2_hat),
                t0m == pvn(self.t0_hat),
                sign_loop_spec::<P>(am, s1m, s2m, t0m, mu@, rho_pp@, attempts as nat, kappa as nat)
                    == target,
                target == sign_internal_spec::<P>(self.secret_key(), m_prime@, rnd@),
            decreases u32::MAX - kappa,
        {
            proof {
                lemma_sign_loop_step::<P>(
                    am,
                    s1m,
                    s2m,
                    t0m,
                    mu@,
                    rho_pp@,
                    attempts as nat,
                    kappa as nat,
                );
            }
            if kappa > u32::MAX - l {
                return Vec::new();
            }
            attempts += 1;
            match sign_attempt_fast::<P, K, L>(
                &self.a_hat,
                &self.s1_hat,
                &self.s2_hat,
                &self.t0_hat,
                &mu,
                &rho_pp,
                kappa,
            ) {
                Some(sig) => {
                    return sig;
                },
                None => {
                    kappa += l;
                },
            }
        }
    }

    /// FIPS 204, Algorithm 2 — hedged signing on the prepared key, given the 32 random
    /// bytes `rnd` that the caller drew for this signature.
    pub fn sign_with_rnd(&self, m: &[u8], ctx: &[u8], rnd: &[u8; 32]) -> (r: Result<Vec<u8>>)
        requires
            self.wf(),
        ensures
            match r {
                Ok(sig) => sign_traced_spec::<P>(self.secret_key(), m@, ctx@, rnd@) matches Ok((s, _))
                    && s == sig@,
                Err(e) => e == Error::ContextTooLong && ctx@.len() > 255,
            },
            ctx@.len() <= 255 <==> r is Ok,
    {
        if ctx.len() > 255 {
            return Err(Error::ContextTooLong);
        }
        Ok(self.sign_internal(&format_m_prime(ctx, m), rnd))
    }

    /// Deterministic signing variant (`rnd = {0}^32`) on the prepared key.
    pub fn sign_deterministic(&self, m: &[u8], ctx: &[u8]) -> (r: Result<Vec<u8>>)
        requires
            self.wf(),
        ensures
            match r {
                Ok(sig) => sign_traced_spec::<P>(self.secret_key(), m@, ctx@, seq![0u8; 32]) matches Ok(
                    (s, _),
                ) && s == sig@,
                Err(e) => e == Error::ContextTooLong && ctx@.len() > 255,
            },
            ctx@.len() <= 255 <==> r is Ok,
    {
        let zero = [0u8; 32];
        assert(zero@ =~= seq![0u8; 32]);
        self.sign_with_rnd(m, ctx, &zero)
    }

    /// Hedged signing, then Verify_internal against this key's public key **before** the
    /// signature is released: a failure means a fault occurred during signing, and the
    /// signature is withheld.
    pub fn sign_verified_with_rnd(&self, m: &[u8], ctx: &[u8], rnd: &[u8; 32]) -> (r: Result<
        Vec<u8>,
    >)
        requires
            self.wf(),
        ensures
            match r {
                Ok(sig) => sign_verified_spec::<P>(self.secret_key(), m@, ctx@, rnd@) == Ok::<
                    Seq<u8>,
                    Error,
                >(sig@),
                Err(e) => sign_verified_spec::<P>(self.secret_key(), m@, ctx@, rnd@) == Err::<
                    Seq<u8>,
                    Error,
                >(e),
            },
    {
        if ctx.len() > 255 {
            return Err(Error::ContextTooLong);
        }
        let m_prime = format_m_prime(ctx, m);
        let sig = self.sign_internal(&m_prime, rnd);
        if !verify_internal_fast::<P, K, L>(&self.pk, &m_prime, &sig) {
            return Err(Error::FaultDetected);
        }
        Ok(sig)
    }

    /// Deterministic verify-after-sign.
    pub fn sign_deterministic_verified(&self, m: &[u8], ctx: &[u8]) -> (r: Result<Vec<u8>>)
        requires
            self.wf(),
        ensures
            match r {
                Ok(sig) => sign_verified_spec::<P>(self.secret_key(), m@, ctx@, seq![0u8; 32]) == Ok::<
                    Seq<u8>,
                    Error,
                >(sig@),
                Err(e) => sign_verified_spec::<P>(self.secret_key(), m@, ctx@, seq![0u8; 32]) == Err::<
                    Seq<u8>,
                    Error,
                >(e),
            },
    {
        let zero = [0u8; 32];
        assert(zero@ =~= seq![0u8; 32]);
        self.sign_verified_with_rnd(m, ctx, &zero)
    }

    /// The public key corresponding to this signing key.
    pub fn public_key(&self) -> (pk: &[u8])
        requires
            self.wf(),
        ensures
            pk@ == sk_public_key::<P>(self.secret_key()),
    {
        self.pk.as_slice()
    }
}

/// `Zeroize::zeroize` on a 32-byte array: every byte becomes zero.
#[verifier::external_body]
fn wipe_bytes(b: &mut [u8; 32])
    ensures
        final(b)@ == seq![0u8; 32],
    opens_invariants none
    no_unwind
{
    b.zeroize();
}

/// `Zeroize::zeroize` on a coefficient array: every coefficient becomes zero.
#[verifier::external_body]
fn wipe_coeffs(c: &mut [i32; N])
    ensures
        final(c)@ == seq![0i32; 256],
    opens_invariants none
    no_unwind
{
    c.zeroize();
}

/// Zero every coefficient of every polynomial of `v`.
fn wipe_vec<const M: usize>(v: &mut PolyVecNTT<M>)
    ensures
        forall|i: int| 0 <= i < M ==> #[trigger] final(v).v[i].coeffs@ == seq![0i32; 256],
    opens_invariants none
    no_unwind
{
    let mut i: usize = 0;
    while i < M
        invariant
            i <= M,
            forall|k: int| 0 <= k < i ==> #[trigger] v.v[k].coeffs@ == seq![0i32; 256],
        decreases M - i,
    {
        let ghost before = *v;
        wipe_coeffs(&mut v.v[i].coeffs);
        assert(forall|k: int| 0 <= k < i ==> v.v[k] == before.v[k]);
        i += 1;
    }
}

/// Zeroize the persistent secrets on drop.
impl<P: ParameterSet, const K: usize, const L: usize> Drop for Signer<P, K, L> {
    fn drop(&mut self)
        opens_invariants none
        no_unwind
    {
        wipe_bytes(&mut self.k_seed);
        wipe_vec(&mut self.s1_hat);
        wipe_vec(&mut self.s2_hat);
        wipe_vec(&mut self.t0_hat);
    }
}

} // verus!
