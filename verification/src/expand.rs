//! FIPS 204 §7.3 — ExpandA / ExpandS / ExpandMask (Algorithms 32–34).
//!
//! `ExpandA` samples the public matrix directly in the NTT domain (`Â`). `ExpandS`
//! samples the secrets `s1, s2`. `ExpandMask` derives the per-signature masking vector
//! `y` from a secret-derived seed (no rejection: `BitUnpack` always succeeds because
//! `γ1` is a power of two).
use crate::encoding::{bit_unpack, bitlen, byte_of, integer_to_bytes, read_value};
use crate::hash::{h_reader_input, h_reader_pos, shake256, H};
use crate::params::{bitlen_spec, lemma_bitlen_constants, lemma_valid, ParameterSet, N, Q};
use crate::poly::{PolyMatNTT, PolyVec};
use crate::sample::{rej_bounded_coeffs, rej_bounded_poly, rej_ntt_coeffs, rej_ntt_poly};
use crate::serdes::{lemma_sizes, z_bits};
use vstd::prelude::*;

verus! {

/// The RejNTTPoly seed of entry `(r, s)` of `Â`: `ρ ‖ IntegerToBytes(s, 1) ‖ IntegerToBytes(r, 1)`.
pub open spec fn expand_a_seed(rho: Seq<u8>, r: int, s: int) -> Seq<u8> {
    rho + seq![s as u8, r as u8]
}

/// FIPS 204, Algorithm 32 — ExpandA: the `K×L` matrix `Â` in the NTT domain.
pub fn expand_a<const K: usize, const L: usize>(rho: &[u8; 32]) -> (a: PolyMatNTT<K, L>)
    ensures
        forall|r: int, s: int, k: int|
            0 <= r < K && 0 <= s < L && 0 <= k < N ==> #[trigger] a.rows[r].v[s].coeffs@[k]
                == rej_ntt_coeffs(expand_a_seed(rho@, r, s))[k],
        forall|r: int, s: int, k: int|
            0 <= r < K && 0 <= s < L && 0 <= k < N ==> 0 <= #[trigger] a.rows[r].v[s].coeffs@[k]
                < Q,
{
    let mut a = PolyMatNTT::<K, L>::zero();
    for r in 0..K
        invariant
            forall|r2: int, s: int, k: int|
                0 <= r2 < r && 0 <= s < L && 0 <= k < N ==> #[trigger] a.rows[r2].v[s].coeffs@[k]
                    == rej_ntt_coeffs(expand_a_seed(rho@, r2, s))[k] && 0 <= a.rows[r2].v[s].coeffs@[k]
                    < Q,
    {
        for s in 0..L
            invariant
                r < K,
                forall|r2: int, s2: int, k: int|
                    0 <= r2 < r && 0 <= s2 < L && 0 <= k < N
                        ==> #[trigger] a.rows[r2].v[s2].coeffs@[k] == rej_ntt_coeffs(
                        expand_a_seed(rho@, r2, s2),
                    )[k] && 0 <= a.rows[r2].v[s2].coeffs@[k] < Q,
                forall|s2: int, k: int|
                    0 <= s2 < s && 0 <= k < N ==> #[trigger] a.rows[r as int].v[s2].coeffs@[k]
                        == rej_ntt_coeffs(expand_a_seed(rho@, r as int, s2))[k]
                        && 0 <= a.rows[r as int].v[s2].coeffs@[k] < Q,
        {
            let mut seed = [0u8; 34];
            for k in 0..32
                invariant
                    forall|t: int| 0 <= t < k ==> seed@[t] == rho@[t],
            {
                seed[k] = rho[k];
            }
            seed[32] = s as u8;
            seed[33] = r as u8;
            assert(seed@ =~= expand_a_seed(rho@, r as int, s as int));
            a.rows[r].v[s] = rej_ntt_poly(&seed);
        }
    }
    a
}

/// The RejBoundedPoly seed for `nonce`: `ρ ‖ IntegerToBytes(nonce, 2)`.
pub open spec fn bounded_seed_spec(rho: Seq<u8>, nonce: nat) -> Seq<u8> {
    rho + seq![byte_of(nonce, 0), byte_of(nonce, 1)]
}

/// Build the 66-byte RejBoundedPoly seed `ρ ‖ IntegerToBytes(nonce, 2)`.
fn bounded_seed(rho: &[u8; 64], nonce: u64) -> (seed: [u8; 66])
    ensures
        seed@ == bounded_seed_spec(rho@, nonce as nat),
{
    let mut seed = [0u8; 66];
    for k in 0..64
        invariant
            forall|t: int| 0 <= t < k ==> seed@[t] == rho@[t],
    {
        seed[k] = rho[k];
    }
    let idx = integer_to_bytes(nonce, 2);
    seed[64] = idx[0];
    seed[65] = idx[1];
    assert(seed@ =~= bounded_seed_spec(rho@, nonce as nat));
    seed
}

/// FIPS 204, Algorithm 33 — ExpandS: secret vectors `s1 ∈ R^L`, `s2 ∈ R^K` in `[−η, η]`.
pub fn expand_s<P: ParameterSet, const K: usize, const L: usize>(rho: &[u8; 64]) -> (r: (
    PolyVec<L>,
    PolyVec<K>,
))
    requires
        K == P::K,
        L == P::L,
    ensures
        forall|i: int, k: int|
            0 <= i < L && 0 <= k < N ==> #[trigger] r.0.v[i].coeffs@[k] == rej_bounded_coeffs::<P>(
                bounded_seed_spec(rho@, i as nat),
            )[k],
        forall|i: int, k: int|
            0 <= i < K && 0 <= k < N ==> #[trigger] r.1.v[i].coeffs@[k] == rej_bounded_coeffs::<P>(
                bounded_seed_spec(rho@, (i + L) as nat),
            )[k],
        forall|i: int, k: int|
            0 <= i < L && 0 <= k < N ==> -P::ETA <= #[trigger] r.0.v[i].coeffs@[k] <= P::ETA,
        forall|i: int, k: int|
            0 <= i < K && 0 <= k < N ==> -P::ETA <= #[trigger] r.1.v[i].coeffs@[k] <= P::ETA,
{
    proof {
        lemma_valid::<P>();
    }
    let mut s1 = PolyVec::<L>::zero();
    let mut s2 = PolyVec::<K>::zero();
    for i in 0..L
        invariant
            L == P::L,
            L <= 7,
            forall|i2: int, k: int|
                0 <= i2 < i && 0 <= k < N ==> #[trigger] s1.v[i2].coeffs@[k] == rej_bounded_coeffs::<P>(
                    bounded_seed_spec(rho@, i2 as nat),
                )[k] && -P::ETA <= s1.v[i2].coeffs@[k] <= P::ETA,
    {
        s1.v[i] = rej_bounded_poly::<P>(&bounded_seed(rho, i as u64));
    }
    for i in 0..K
        invariant
            K == P::K,
            L == P::L,
            K <= 8,
            L <= 7,
            forall|i2: int, k: int|
                0 <= i2 < i && 0 <= k < N ==> #[trigger] s2.v[i2].coeffs@[k] == rej_bounded_coeffs::<P>(
                    bounded_seed_spec(rho@, (i2 + L) as nat),
                )[k] && -P::ETA <= s2.v[i2].coeffs@[k] <= P::ETA,
    {
        s2.v[i] = rej_bounded_poly::<P>(&bounded_seed(rho, (i + L) as u64));
    }
    (s1, s2)
}

/// The ExpandMask stream input for polynomial `r`: `ρ ‖ IntegerToBytes(μ + r, 2)`.
pub open spec fn mask_seed(rho: Seq<u8>, mu: int, r: int) -> Seq<u8> {
    rho + seq![byte_of((mu + r) as nat, 0), byte_of((mu + r) as nat, 1)]
}

/// ExpandMask's coefficient `j` of polynomial `r`: `γ1` minus the value of bits
/// `j·c .. j·c + c` of the first `32c` bytes of `H(ρ ‖ μ + r)`, `c = bitlen(2γ1 − 1)`.
pub open spec fn mask_coeff<P: ParameterSet>(rho: Seq<u8>, mu: int, r: int, j: int) -> int {
    P::GAMMA1 - read_value(
        shake256(mask_seed(rho, mu, r), 32 * z_bits::<P>()),
        z_bits::<P>(),
        j,
    )
}

/// FIPS 204, Algorithm 34 — ExpandMask: masking vector `y ∈ R^L`, coeffs in `(−γ1, γ1]`.
pub fn expand_mask<P: ParameterSet, const L: usize>(rho: &[u8; 64], mu: u32) -> (y: PolyVec<L>)
    requires
        L == P::L,
        mu + L <= u32::MAX,
    ensures
        forall|r: int, j: int|
            0 <= r < L && 0 <= j < N ==> #[trigger] y.v[r].coeffs@[j] == mask_coeff::<P>(
                rho@,
                mu as int,
                r,
                j,
            ),
{
    proof {
        lemma_sizes::<P>();
        lemma_bitlen_constants();
    }
    let c = 1 + bitlen(P::GAMMA1 as u32 - 1) as usize;
    let g1 = P::GAMMA1 as u32;
    let mut y = PolyVec::<L>::zero();
    for r in 0..L
        invariant
            L == P::L,
            mu + L <= u32::MAX,
            c == z_bits::<P>(),
            c == 18 || c == 20,
            g1 == P::GAMMA1,
            g1 == 131072 || g1 == 524288,
            forall|r2: int, j: int|
                0 <= r2 < r && 0 <= j < N ==> #[trigger] y.v[r2].coeffs@[j] == mask_coeff::<P>(
                    rho@,
                    mu as int,
                    r2,
                    j,
                ),
    {
        let mut h = H::init();
        h.absorb(rho.as_slice());
        let nb = integer_to_bytes((mu + r as u32) as u64, 2);
        h.absorb(nb.as_slice());
        let mut reader = h.finalize();
        let v = reader.squeeze_vec(32 * c);
        proof {
            assert(h_reader_input(reader) == mask_seed(rho@, mu as int, r as int)) by {
                assert(nb@ =~= seq![
                    byte_of((mu + r) as nat, 0),
                    byte_of((mu + r) as nat, 1),
                ]);
            }
            assert(v@ =~= shake256(mask_seed(rho@, mu as int, r as int), 32 * z_bits::<P>()));
            assert(bitlen_spec((g1 - 1 + g1) as nat) == c);
        }
        y.v[r] = bit_unpack(v.as_slice(), g1 - 1, g1);
    }
    y
}

/// ExpandMask's counter is appended little-endian: coefficient `j` of polynomial `r` is
/// read from SHAKE256(ρ ‖ (μ + r) mod 256 ‖ ⌊(μ + r) / 256⌋ mod 256) — the two bytes of
/// IntegerToBytes(μ + r, 2), FIPS 204 Algorithm 34 line 3.
pub proof fn lemma_mask_counter_little_endian<P: ParameterSet>(rho: Seq<u8>, mu: int, r: int, j: int)
    requires
        0 <= mu + r,
    ensures
        mask_seed(rho, mu, r) == rho + seq![((mu + r) % 256) as u8, (((mu + r) / 256) % 256) as u8],
        mask_coeff::<P>(rho, mu, r, j) == P::GAMMA1 - read_value(
            shake256(
                rho + seq![((mu + r) % 256) as u8, (((mu + r) / 256) % 256) as u8],
                32 * z_bits::<P>(),
            ),
            z_bits::<P>(),
            j,
        ),
{
    vstd::arithmetic::power2::lemma2_to64();
    let x = (mu + r) as nat;
    assert(vstd::arithmetic::power2::pow2(8 * 0nat) == 1);
    assert(vstd::arithmetic::power2::pow2(8 * 1nat) == 256);
    assert(x / 1 == x);
    assert(byte_of(x, 0) == (x % 256) as u8);
    assert(byte_of(x, 1) == ((x / 256) % 256) as u8);
    assert(mask_seed(rho, mu, r) =~= rho + seq![((mu + r) % 256) as u8, (((mu + r) / 256) % 256) as u8]);
}

} // verus!
