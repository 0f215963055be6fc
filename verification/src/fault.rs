//! Differential-fault harness (Bruinderink–Pessl).
//!
//! A mirror of `ML-DSA.Sign_internal`, reassembled from the library's public building
//! blocks so that a single-bit fault can be injected at a named intermediate
//! (`cs1 = c·s1`, after MultiplyNTT and the inverse NTT); the signer itself has no hook.
//! Without a fault the mirror is byte-identical to `sign_internal`
//! ([`lemma_mirror_without_fault_is_sign_internal`]).
//!
//! The experiment models the classic attack: a fault during signing yields a faulty
//! signature; whether that artifact escapes is governed by verify-after-sign, reported
//! over the {deterministic, hedged} × {verify-after-sign on, off} grid.
use crate::expand::{expand_a, expand_mask, mask_coeff};
use crate::hash::shake256;
use crate::hint::{hint_positions, lemma_hint_positions_len};
use crate::keygen::expand_a_m;
use crate::model::{
    build, lemma_add_model, lemma_center_model, lemma_high_bits_model, lemma_inv_ntt_model,
    lemma_low_bits_model, lemma_make_hint_model, lemma_matvec_model, lemma_model_eq,
    lemma_neg_model, lemma_ntt_model, lemma_scalar_model, lemma_sub_model, m_add, m_center,
    m_high_bits, m_inv_ntt, m_low_bits, m_make_hint, m_matvec, m_neg, m_norm_below, m_ntt,
    m_scalar, m_sub, pmn, pv, pvn,
};
use crate::ntt::{coeffs_int, ntt, ntt_spec};
use crate::ntt_arith::{cf, matrix_vector_ntt, scalar_vector_ntt};
use crate::params::{lemma_valid, ParameterSet, N, Q};
use crate::poly::{PolyMatNTT, PolyVec, PolyVecNTT};
use crate::sample::{ball_coeffs, sample_in_ball};
use crate::serdes::{lemma_sig_bytes, lemma_sizes, lemma_w1_bytes, sig_bytes, sig_encode, sk_decode, w1_bytes, w1_encode};
use crate::sign::{
    lemma_expand_a_model, lemma_norm_at_least, lemma_sign_loop_step, lemma_sk_models,
    lemma_sums_fit, sign_attempt_spec, sign_internal_spec, sign_loop_spec, sign_mu, sign_rho_pp,
    sign_seeds, sk_s1_m, sk_s2_m, sk_t0_m,
};
use crate::verify::shake256_of2;
use crate::vecops::{
    add_vec, center_vec, count_ones, high_bits_vec, inf_norm, inv_ntt_vec, low_bits_vec,
    make_hint_vec, neg_vec, ntt_vec, sub_vec,
};
use vstd::prelude::*;

verus! {

/// A single-bit fault injected at a named signing intermediate.
#[derive(Clone, Copy, Debug)]
pub enum Fault {
    /// No fault: the mirror reproduces `sign_internal` exactly.
    NoFault,
    /// Flip bit `bit` of coefficient `coeff` in polynomial `poly` of `cs1 = c·s1`
    /// (after MultiplyNTT and the inverse NTT). Low bits keep `z` within the norm bound
    /// so the signer still accepts, while the fault propagates through verification via
    /// `A·Δ`, so the faulty signature does not verify.
    Cs1BitFlip { poly: usize, coeff: usize, bit: u32 },
}

/// A fault names a coefficient of `cs1` (`poly < ℓ`, `coeff < 256`) and a bit of its
/// 32-bit representation.
pub open spec fn fault_in_range<P: ParameterSet>(fault: Fault) -> bool {
    match fault {
        Fault::NoFault => true,
        Fault::Cs1BitFlip { poly, coeff, bit } => poly < P::L && coeff < N && bit < 32,
    }
}

/// `cs1` after the fault: the named coefficient with the named bit flipped.
pub open spec fn apply_fault(cs1: Seq<Seq<int>>, fault: Fault) -> Seq<Seq<int>> {
    match fault {
        Fault::NoFault => cs1,
        Fault::Cs1BitFlip { poly, coeff, bit } => cs1.update(
            poly as int,
            cs1[poly as int].update(
                coeff as int,
                ((cs1[poly as int][coeff as int] as i32) ^ (1i32 << bit)) as int,
            ),
        ),
    }
}

/// One iteration of the mirrored signing loop with counter `κ`, `cs1` faulted.
pub open spec fn mirror_attempt_spec<P: ParameterSet>(
    a: Seq<Seq<Seq<int>>>,
    s1_hat: Seq<Seq<int>>,
    s2_hat: Seq<Seq<int>>,
    t0_hat: Seq<Seq<int>>,
    mu: Seq<u8>,
    rho_pp: Seq<u8>,
    kappa: int,
    fault: Fault,
) -> Option<Seq<u8>> {
    let y = build(P::L as nat, |r: int, j: int| mask_coeff::<P>(rho_pp, kappa, r, j));
    let w = m_inv_ntt(m_matvec(a, m_ntt(y)));
    let w1 = m_high_bits(w, P::GAMMA2 as int);
    let c_tilde = shake256(mu + w1_bytes::<P>(w1), P::C_TILDE_BYTES as nat);
    let c_hat = ntt_spec(ball_coeffs::<P>(c_tilde));
    let cs1 = apply_fault(m_inv_ntt(m_scalar(c_hat, s1_hat)), fault);
    let cs2 = m_inv_ntt(m_scalar(c_hat, s2_hat));
    let z = m_add(y, cs1);
    let r0 = m_low_bits(m_sub(w, cs2), P::GAMMA2 as int);
    if !m_norm_below(z, P::GAMMA1 - P::BETA) || !m_norm_below(r0, P::GAMMA2 - P::BETA) {
        None
    } else {
        let ct0 = m_inv_ntt(m_scalar(c_hat, t0_hat));
        let h = m_make_hint(m_neg(ct0), m_add(m_sub(w, cs2), ct0), P::GAMMA2 as int);
        if !m_norm_below(ct0, P::GAMMA2 as int) || hint_positions(h, P::K as nat).len() > P::OMEGA {
            None
        } else {
            Some(sig_bytes::<P>(c_tilde, m_center(z), h))
        }
    }
}

/// The mirrored signing loop from counter value `κ` on: the first accepted signature, or
/// an empty one once `κ + ℓ` would leave the 32-bit counter range.
#[verifier::opaque]
pub open spec fn mirror_loop_spec<P: ParameterSet>(
    a: Seq<Seq<Seq<int>>>,
    s1_hat: Seq<Seq<int>>,
    s2_hat: Seq<Seq<int>>,
    t0_hat: Seq<Seq<int>>,
    mu: Seq<u8>,
    rho_pp: Seq<u8>,
    fault: Fault,
    kappa: nat,
) -> Seq<u8>
    decreases u32::MAX - kappa,
{
    if P::L == 0 || kappa + P::L > u32::MAX {
        Seq::empty()
    } else {
        match mirror_attempt_spec::<P>(a, s1_hat, s2_hat, t0_hat, mu, rho_pp, kappa as int, fault) {
            Some(sig) => sig,
            None => mirror_loop_spec::<P>(
                a,
                s1_hat,
                s2_hat,
                t0_hat,
                mu,
                rho_pp,
                fault,
                (kappa + P::L) as nat,
            ),
        }
    }
}

/// One step of the mirrored loop.
proof fn lemma_mirror_loop_step<P: ParameterSet>(
    a: Seq<Seq<Seq<int>>>,
    s1_hat: Seq<Seq<int>>,
    s2_hat: Seq<Seq<int>>,
    t0_hat: Seq<Seq<int>>,
    mu: Seq<u8>,
    rho_pp: Seq<u8>,
    fault: Fault,
    kappa: nat,
)
    requires
        P::L > 0,
    ensures
        kappa + P::L > u32::MAX ==> mirror_loop_spec::<P>(a, s1_hat, s2_hat, t0_hat, mu, rho_pp, fault, kappa)
            == Seq::<u8>::empty(),
        kappa + P::L <= u32::MAX ==> mirror_loop_spec::<P>(a, s1_hat, s2_hat, t0_hat, mu, rho_pp, fault, kappa)
            == match mirror_attempt_spec::<P>(a, s1_hat, s2_hat, t0_hat, mu, rho_pp, kappa as int, fault) {
            Some(sig) => sig,
            None => mirror_loop_spec::<P>(a, s1_hat, s2_hat, t0_hat, mu, rho_pp, fault, (kappa + P::L) as nat),
        },
{
    reveal_with_fuel(mirror_loop_spec, 1);
}

/// The mirror of Sign_internal on the secret key, `M'`, `rnd` and a fault.
pub open spec fn mirror_internal_spec<P: ParameterSet>(
    sk: Seq<u8>,
    m_prime: Seq<u8>,
    rnd: Seq<u8>,
    fault: Fault,
) -> Seq<u8> {
    mirror_loop_spec::<P>(
        expand_a_m(sk.subrange(0, 32), P::K as nat, P::L as nat),
        m_ntt(sk_s1_m::<P>(sk)),
        m_ntt(sk_s2_m::<P>(sk)),
        m_ntt(sk_t0_m::<P>(sk)),
        sign_mu(sk, m_prime),
        sign_rho_pp(sk, m_prime, rnd),
        fault,
        0,
    )
}

/// Without a fault, the mirrored loop from any counter value is the signer's.
proof fn lemma_mirror_loop_unfaulted<P: ParameterSet>(
    a: Seq<Seq<Seq<int>>>,
    s1_hat: Seq<Seq<int>>,
    s2_hat: Seq<Seq<int>>,
    t0_hat: Seq<Seq<int>>,
    mu: Seq<u8>,
    rho_pp: Seq<u8>,
    att: nat,
    kappa: nat,
)
    ensures
        mirror_loop_spec::<P>(a, s1_hat, s2_hat, t0_hat, mu, rho_pp, Fault::NoFault, kappa)
            == sign_loop_spec::<P>(a, s1_hat, s2_hat, t0_hat, mu, rho_pp, att, kappa).0,
    decreases u32::MAX - kappa,
{
    reveal_with_fuel(mirror_loop_spec, 1);
    reveal_with_fuel(sign_loop_spec, 1);
    assert(mirror_attempt_spec::<P>(a, s1_hat, s2_hat, t0_hat, mu, rho_pp, kappa as int, Fault::NoFault)
        == sign_attempt_spec::<P>(a, s1_hat, s2_hat, t0_hat, mu, rho_pp, kappa as int));
    if P::L != 0 && kappa + P::L <= u32::MAX {
        lemma_mirror_loop_unfaulted::<P>(
            a,
            s1_hat,
            s2_hat,
            t0_hat,
            mu,
            rho_pp,
            att + 1,
            (kappa + P::L) as nat,
        );
    }
}

/// Without a fault the mirror is byte-identical to Sign_internal, for every secret key,
/// message and randomness.
pub proof fn lemma_mirror_without_fault_is_sign_internal<P: ParameterSet>(
    sk: Seq<u8>,
    m_prime: Seq<u8>,
    rnd: Seq<u8>,
)
    ensures
        mirror_internal_spec::<P>(sk, m_prime, rnd, Fault::NoFault) == sign_internal_spec::<P>(
            sk,
            m_prime,
            rnd,
        ).0,
{
    lemma_mirror_loop_unfaulted::<P>(
        expand_a_m(sk.subrange(0, 32), P::K as nat, P::L as nat),
        m_ntt(sk_s1_m::<P>(sk)),
        m_ntt(sk_s2_m::<P>(sk)),
        m_ntt(sk_t0_m::<P>(sk)),
        sign_mu(sk, m_prime),
        sign_rho_pp(sk, m_prime, rnd),
        0,
        0,
    );
}

/// Flips the faulted bit of `cs1` in place.
fn inject<const L: usize>(cs1: &mut PolyVec<L>, fault: Fault)
    requires
        match fault {
            Fault::NoFault => true,
            Fault::Cs1BitFlip { poly, coeff, bit } => poly < L && coeff < N && bit < 32,
        },
    ensures
        pv(*final(cs1)) == apply_fault(pv(*old(cs1)), fault),
{
    if let Fault::Cs1BitFlip { poly, coeff, bit } = fault {
        let ghost before = *cs1;
        let flipped = cs1.v[poly].coeffs[coeff] ^ (1i32 << bit);
        cs1.v[poly].coeffs[coeff] = flipped;
        proof {
            let target = apply_fault(pv(before), fault);
            assert forall|i: int| 0 <= i < L implies #[trigger] pv(*cs1)[i].len() == target[i].len() by {}
            assert forall|i: int, k: int| 0 <= i < L && 0 <= k < N implies #[trigger] pv(*cs1)[i][k]
                == target[i][k] by {
                if i != poly as int || k != coeff as int {
                    assert(cs1.v[i].coeffs[k] == before.v[i].coeffs[k]);
                }
            }
            lemma_model_eq(pv(*cs1), target);
        }
    }
}

/// One iteration of the mirrored loop (Sign_internal lines 11–32) with `cs1` faulted.
fn mirror_attempt<P: ParameterSet, const K: usize, const L: usize>(
    a_hat: &PolyMatNTT<K, L>,
    s1_hat: &PolyVecNTT<L>,
    s2_hat: &PolyVecNTT<K>,
    t0_hat: &PolyVecNTT<K>,
    mu: &[u8; 64],
    rho_pp: &[u8; 64],
    kappa: u32,
    fault: Fault,
) -> (r: Option<Vec<u8>>)
    requires
        K == P::K,
        L == P::L,
        kappa + L <= u32::MAX,
        fault_in_range::<P>(fault),
    ensures
        match r {
            Some(sig) => mirror_attempt_spec::<P>(
                pmn(*a_hat),
                pvn(*s1_hat),
                pvn(*s2_hat),
                pvn(*t0_hat),
                mu@,
                rho_pp@,
                kappa as int,
                fault,
            ) == Some(sig@),
            None => mirror_attempt_spec::<P>(
                pmn(*a_hat),
                pvn(*s1_hat),
                pvn(*s2_hat),
                pvn(*t0_hat),
                mu@,
                rho_pp@,
                kappa as int,
                fault,
            ) is None,
        },
{
    proof {
        lemma_valid::<P>();
        lemma_sizes::<P>();
    }
    // lines 11–13
    let y = expand_mask::<P, L>(rho_pp, kappa);
    let ghost ym = build(P::L as nat, |r: int, j: int| mask_coeff::<P>(rho_pp@, kappa as int, r, j));
    proof {
        assert forall|r: int, j: int| 0 <= r < L && 0 <= j < N implies #[trigger] pv(y)[r][j] == ym[r][j] by {
            assert(y.v[r].coeffs@[j] == mask_coeff::<P>(rho_pp@, kappa as int, r, j));
        }
        lemma_model_eq(pv(y), ym);
    }
    let y_hat = ntt_vec(&y);
    let ay = matrix_vector_ntt(a_hat, &y_hat);
    let w = inv_ntt_vec(&ay);
    let w1 = high_bits_vec::<P, K>(&w);
    proof {
        lemma_ntt_model(y, y_hat);
        lemma_matvec_model(*a_hat, y_hat, ay);
        lemma_inv_ntt_model(ay, w);
        lemma_high_bits_model(w, P::GAMMA2 as int, w1);
    }
    // lines 15–17
    let w1e = w1_encode::<P, K>(&w1);
    proof {
        lemma_w1_bytes::<P, K>(w1);
    }
    let c_tilde = shake256_of2(mu.as_slice(), w1e.as_slice(), P::C_TILDE_BYTES);
    let c = sample_in_ball::<P>(c_tilde.as_slice());
    let c_hat = ntt(&c);
    proof {
        assert(coeffs_int(c.coeffs) =~= ball_coeffs::<P>(c_tilde@));
        assert forall|k: int| 0 <= k < N implies 0 <= #[trigger] cf(c_hat, k) < Q by {
            assert(coeffs_int(c_hat.coeffs)[k] == cf(c_hat, k));
        }
    }
    // lines 18–21, with the fault injected into cs1
    let cs1_hat = scalar_vector_ntt(&c_hat, s1_hat);
    let mut cs1 = inv_ntt_vec(&cs1_hat);
    proof {
        lemma_scalar_model(c_hat, *s1_hat, cs1_hat);
        lemma_inv_ntt_model(cs1_hat, cs1);
    }
    inject(&mut cs1, fault);
    let cs2_hat = scalar_vector_ntt(&c_hat, s2_hat);
    let cs2 = inv_ntt_vec(&cs2_hat);
    let z = add_vec(&y, &cs1);
    let w_cs2 = sub_vec(&w, &cs2);
    let r0 = low_bits_vec::<P, K>(&w_cs2);
    proof {
        lemma_scalar_model(c_hat, *s2_hat, cs2_hat);
        lemma_inv_ntt_model(cs2_hat, cs2);
        lemma_add_model(y, cs1, z);
        lemma_sub_model(w, cs2, w_cs2);
        lemma_low_bits_model(w_cs2, P::GAMMA2 as int, r0);
    }
    // line 23
    let zn = inf_norm(&z);
    let rn = inf_norm(&r0);
    proof {
        lemma_norm_at_least(z, zn as int, P::GAMMA1 - P::BETA);
        lemma_norm_at_least(r0, rn as int, P::GAMMA2 - P::BETA);
    }
    if zn >= P::GAMMA1 - P::BETA || rn >= P::GAMMA2 - P::BETA {
        return None;
    }
    // lines 25–26
    let ct0_hat = scalar_vector_ntt(&c_hat, t0_hat);
    let ct0 = inv_ntt_vec(&ct0_hat);
    let r_arg = add_vec(&w_cs2, &ct0);
    let nct0 = neg_vec(&ct0);
    proof {
        lemma_scalar_model(c_hat, *t0_hat, ct0_hat);
        lemma_inv_ntt_model(ct0_hat, ct0);
        lemma_add_model(w_cs2, ct0, r_arg);
        lemma_neg_model(ct0, nct0);
        lemma_sums_fit(nct0, r_arg);
    }
    let h = make_hint_vec::<P, K>(&nct0, &r_arg);
    proof {
        lemma_make_hint_model(nct0, r_arg, P::GAMMA2 as int, h);
        lemma_hint_positions_len(h);
    }
    // line 28
    let cn = inf_norm(&ct0);
    proof {
        lemma_norm_at_least(ct0, cn as int, P::GAMMA2 as int);
    }
    if cn >= P::GAMMA2 || count_ones(&h) > P::OMEGA {
        return None;
    }
    // line 33
    let zc = center_vec(&z);
    proof {
        lemma_center_model(z, zc);
    }
    let sig = sig_encode::<P, K, L>(c_tilde.as_slice(), &zc, &h);
    proof {
        lemma_sig_bytes::<P, K, L>(c_tilde@, zc, h);
    }
    Some(sig)
}

/// Mirror of the baseline `sign_internal` with `fault` injected into `cs1`; without a
/// fault it is byte-identical to `sign_internal`.
pub fn sign_internal_mirror<P: ParameterSet, const K: usize, const L: usize>(
    sk: &[u8],
    m_prime: &[u8],
    rnd: &[u8; 32],
    fault: Fault,
) -> (sig: Vec<u8>)
    requires
        K == P::K,
        L == P::L,
        sk@.len() == P::SK_BYTES,
        fault_in_range::<P>(fault),
    ensures
        sig@ == mirror_internal_spec::<P>(sk@, m_prime@, rnd@, fault),
        fault == Fault::NoFault ==> sig@ == sign_internal_spec::<P>(sk@, m_prime@, rnd@).0,
{
    proof {
        lemma_valid::<P>();
        lemma_mirror_without_fault_is_sign_internal::<P>(sk@, m_prime@, rnd@);
    }
    let (rho, k_seed, tr, s1, s2, t0) = match sk_decode::<P, K, L>(sk) {
        Ok(d) => d,
        Err(_) => {
            return Vec::new();
        },
    };
    proof {
        lemma_sk_models::<P, K, L>(sk@, s1, s2, t0);
    }
    let s1_hat = ntt_vec(&s1);
    let s2_hat = ntt_vec(&s2);
    let t0_hat = ntt_vec(&t0);
    let a_hat = expand_a::<K, L>(&rho);
    proof {
        lemma_ntt_model(s1, s1_hat);
        lemma_ntt_model(s2, s2_hat);
        lemma_ntt_model(t0, t0_hat);
        lemma_expand_a_model(rho@, a_hat);
    }
    let (mu, rho_pp) = sign_seeds(&tr, &k_seed, m_prime, rnd);
    let ghost am = pmn(a_hat);
    let ghost s1m = pvn(s1_hat);
    let ghost s2m = pvn(s2_hat);
    let ghost t0m = pvn(t0_hat);
    let ghost target = mirror_internal_spec::<P>(sk@, m_prime@, rnd@, fault);
    assert(mirror_loop_spec::<P>(am, s1m, s2m, t0m, mu@, rho_pp@, fault, 0) == target);
    let l = L as u32;
    let mut kappa: u32 = 0;
    loop
        invariant
            K == P::K,
            L == P::L,
            4 <= L <= 7,
            l == L,
            fault_in_range::<P>(fault),
            am == pmn(a_hat),
            s1m == pvn(s1_hat),
            s2m == pvn(s2_hat),
            t0m == pvn(t0_hat),
            mirror_loop_spec::<P>(am, s1m, s2m, t0m, mu@, rho_pp@, fault, kappa as nat) == target,
            target == mirror_internal_spec::<P>(sk@, m_prime@, rnd@, fault),
            fault == Fault::NoFault ==> target == sign_internal_spec::<P>(sk@, m_prime@, rnd@).0,
        decreases u32::MAX - kappa,
    {
        proof {
            lemma_mirror_loop_step::<P>(am, s1m, s2m, t0m, mu@, rho_pp@, fault, kappa as nat);
        }
        if kappa > u32::MAX - l {
            return Vec::new();
        }
        match mirror_attempt::<P, K, L>(&a_hat, &s1_hat, &s2_hat, &t0_hat, &mu, &rho_pp, kappa, fault) {
            Some(sig) => {
                return sig;
            },
            None => {
                kappa += l;
            },
        }
    }
}

/// Outcome of one cell of the grid.
#[derive(Clone, Copy, Debug)]
pub struct Cell {
    /// The faulty signature differs from the unfaulted signature on the same `rnd`.
    pub faulty: bool,
    /// The faulty signature verifies under the real public key.
    pub verifies: bool,
    /// The faulty signature is released (verify-after-sign off, or on but it verified).
    pub released: bool,
    /// A faulty, exploitable artifact escaped the signer.
    pub escaped: bool,
    /// Deterministic mode: the attacker can reproduce the matching correct signature
    /// on the same `y`, giving the directly-comparable correct/faulty pair.
    pub comparable_pair: bool,
}

} // verus!
