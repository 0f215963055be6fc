//! FIPS 204 parameters (Tables 1 and 2) behind a `ParameterSet` trait.
//!
//! The scheme constants live as associated consts on a marker type per parameter
//! set ([`MlDsa44`], [`MlDsa65`], [`MlDsa87`]). `K` and `L` are also threaded as
//! explicit const generics on functions and types (array lengths cannot be taken
//! from trait consts on stable Rust); the functions require the two to agree.
use vstd::prelude::*;

verus! {

/// Polynomial degree: the ring is `Z_q[X] / (X^n + 1)`.
pub const N: usize = 256;

/// Modulus `q = 2^23 - 2^13 + 1` (an NTT-friendly prime).
pub const Q: i32 = 8_380_417;

/// Number of low-order bits dropped by Power2Round (`t = t1·2^d + t0`).
pub const D: usize = 13;

/// Seed / per-call randomness size.
pub const SEED_BYTES: usize = 32;

/// FIPS 204 Table 1 scalars for one ML-DSA parameter set, with the Table 2
/// byte sizes.
pub trait ParameterSet: Sized {
    /// ACVP name of the set, e.g. `"ML-DSA-65"`.
    const NAME: &'static str;
    /// Rows of the public matrix `A` (`A` is `K x L` over `R_q`).
    const K: usize;
    /// Columns of the public matrix `A`.
    const L: usize;
    /// Secret coefficient bound: `s1, s2` coefficients lie in `[-eta, eta]`.
    const ETA: i32;
    /// Number of `±1` coefficients in the challenge polynomial `c`.
    const TAU: usize;
    /// Collision-strength parameter, in bits. `c~` is `lambda/4` bytes.
    const LAMBDA: usize;
    /// Coefficient range of the masking vector `y`: `(-gamma1, gamma1]`.
    const GAMMA1: i32;
    /// Low-order rounding parameter for Decompose / HighBits / LowBits.
    const GAMMA2: i32;
    /// Maximum number of `1`s in the hint vector `h`.
    const OMEGA: usize;
    /// Rejection bound `beta = tau * eta`.
    const BETA: i32;
    /// Length of the commitment hash `c~`, `= lambda/4` bytes.
    const C_TILDE_BYTES: usize;
    /// Encoded public key length in bytes.
    const PK_BYTES: usize;
    /// Encoded secret key length in bytes.
    const SK_BYTES: usize;
    /// Encoded signature length in bytes.
    const SIG_BYTES: usize;

    /// Every implementation is one of the three sets of FIPS 204 Table 1, with
    /// its derived sizes agreeing with the Table 2 formulas.
    proof fn lemma_params_valid()
        ensures
            ({
                ||| (Self::K == 4 && Self::L == 4 && Self::ETA == 2 && Self::TAU == 39
                    && Self::LAMBDA == 128 && Self::GAMMA1 == 131072 && Self::GAMMA2 == 95232
                    && Self::OMEGA == 80)
                ||| (Self::K == 6 && Self::L == 5 && Self::ETA == 4 && Self::TAU == 49
                    && Self::LAMBDA == 192 && Self::GAMMA1 == 524288 && Self::GAMMA2 == 261888
                    && Self::OMEGA == 55)
                ||| (Self::K == 8 && Self::L == 7 && Self::ETA == 2 && Self::TAU == 60
                    && Self::LAMBDA == 256 && Self::GAMMA1 == 524288 && Self::GAMMA2 == 261888
                    && Self::OMEGA == 75)
            }),
            Self::BETA == Self::TAU * Self::ETA,
            Self::C_TILDE_BYTES == Self::LAMBDA / 4,
            Self::PK_BYTES == 32 + 32 * Self::K * (bitlen_spec((Q - 1) as nat) - D),
            Self::SK_BYTES == 32 + 32 + 64 + 32 * ((Self::K + Self::L) * bitlen_spec(
                (2 * Self::ETA) as nat,
            ) + D * Self::K),
            Self::SIG_BYTES == Self::LAMBDA / 4 + 32 * Self::L * (1 + bitlen_spec(
                (Self::GAMMA1 - 1) as nat,
            )) + Self::OMEGA + Self::K,
    ;
}

/// `bitlen b`: the number of bits in the binary representation of `b`.
pub open spec fn bitlen_spec(b: nat) -> nat
    decreases b,
{
    if b == 0 {
        0
    } else {
        1 + bitlen_spec(b / 2)
    }
}

/// The Table 1 scalars of one set.
pub open spec fn scalars_are<P: ParameterSet>(
    k: int,
    l: int,
    eta: int,
    tau: int,
    lambda: int,
    gamma1: int,
    gamma2: int,
    omega: int,
) -> bool {
    &&& P::K == k
    &&& P::L == l
    &&& P::ETA == eta
    &&& P::TAU == tau
    &&& P::LAMBDA == lambda
    &&& P::GAMMA1 == gamma1
    &&& P::GAMMA2 == gamma2
    &&& P::OMEGA == omega
}

/// The scalars are those of ML-DSA-44, -65 or -87, and the derived constants are
/// computed from them by the FIPS 204 formulas (what `lemma_params_valid` gives).
pub open spec fn valid_params<P: ParameterSet>() -> bool {
    &&& {
        ||| scalars_are::<P>(4, 4, 2, 39, 128, 131072, 95232, 80)
        ||| scalars_are::<P>(6, 5, 4, 49, 192, 524288, 261888, 55)
        ||| scalars_are::<P>(8, 7, 2, 60, 256, 524288, 261888, 75)
    }
    &&& P::BETA == P::TAU * P::ETA
    &&& P::C_TILDE_BYTES == P::LAMBDA / 4
    &&& P::PK_BYTES == 32 + 32 * P::K * (bitlen_spec((Q - 1) as nat) - D)
    &&& P::SK_BYTES == 32 + 32 + 64 + 32 * ((P::K + P::L) * bitlen_spec((2 * P::ETA) as nat) + D
        * P::K)
    &&& P::SIG_BYTES == P::LAMBDA / 4 + 32 * P::L * (1 + bitlen_spec((P::GAMMA1 - 1) as nat))
        + P::OMEGA + P::K
}

/// `bitlen` of the constants that the size formulas use.
pub proof fn lemma_bitlen_constants()
    ensures
        bitlen_spec((Q - 1) as nat) == 23,
        bitlen_spec(4) == 3,
        bitlen_spec(8) == 4,
        bitlen_spec(131071) == 17,
        bitlen_spec(524287) == 19,
        bitlen_spec(262143) == 18,
        bitlen_spec(1048575) == 20,
        bitlen_spec(1023) == 10,
        bitlen_spec(8191) == 13,
        bitlen_spec(15) == 4,
        bitlen_spec(43) == 6,
{
    reveal_with_fuel(bitlen_spec, 24);
}

/// ML-DSA-44 (security category 2).
pub struct MlDsa44;

impl ParameterSet for MlDsa44 {
    const NAME: &'static str = "ML-DSA-44";
    const K: usize = 4;
    const L: usize = 4;
    const ETA: i32 = 2;
    const TAU: usize = 39;
    const LAMBDA: usize = 128;
    const GAMMA1: i32 = 131_072; // 2^17
    const GAMMA2: i32 = 95_232; // (q - 1) / 88
    const OMEGA: usize = 80;
    const BETA: i32 = 78;
    const C_TILDE_BYTES: usize = 32;
    const PK_BYTES: usize = 1312;
    const SK_BYTES: usize = 2560;
    const SIG_BYTES: usize = 2420;

    proof fn lemma_params_valid() {
        lemma_bitlen_constants();
        assert(bitlen_spec((Self::GAMMA1 - 1) as nat) == 17);
    }
}

/// ML-DSA-65 (security category 3).
pub struct MlDsa65;

impl ParameterSet for MlDsa65 {
    const NAME: &'static str = "ML-DSA-65";
    const K: usize = 6;
    const L: usize = 5;
    const ETA: i32 = 4;
    const TAU: usize = 49;
    const LAMBDA: usize = 192;
    const GAMMA1: i32 = 524_288; // 2^19
    const GAMMA2: i32 = 261_888; // (q - 1) / 32
    const OMEGA: usize = 55;
    const BETA: i32 = 196;
    const C_TILDE_BYTES: usize = 48;
    const PK_BYTES: usize = 1952;
    const SK_BYTES: usize = 4032;
    const SIG_BYTES: usize = 3309;

    proof fn lemma_params_valid() {
        lemma_bitlen_constants();
        assert(bitlen_spec((Self::GAMMA1 - 1) as nat) == 19);
        assert(Self::LAMBDA / 4 + 32 * Self::L * (1 + bitlen_spec((Self::GAMMA1 - 1) as nat))
            + Self::OMEGA + Self::K == Self::SIG_BYTES) by (nonlinear_arith)
            requires
                bitlen_spec((Self::GAMMA1 - 1) as nat) == 19;
    }
}

/// ML-DSA-87 (security category 5).
pub struct MlDsa87;

impl ParameterSet for MlDsa87 {
    const NAME: &'static str = "ML-DSA-87";
    const K: usize = 8;
    const L: usize = 7;
    const ETA: i32 = 2;
    const TAU: usize = 60;
    const LAMBDA: usize = 256;
    const GAMMA1: i32 = 524_288; // 2^19
    const GAMMA2: i32 = 261_888; // (q - 1) / 32
    const OMEGA: usize = 75;
    const BETA: i32 = 120;
    const C_TILDE_BYTES: usize = 64;
    const PK_BYTES: usize = 2592;
    const SK_BYTES: usize = 4896;
    const SIG_BYTES: usize = 4627;

    proof fn lemma_params_valid() {
        lemma_bitlen_constants();
        assert(bitlen_spec((Self::GAMMA1 - 1) as nat) == 19);
        assert(Self::LAMBDA / 4 + 32 * Self::L * (1 + bitlen_spec((Self::GAMMA1 - 1) as nat))
            + Self::OMEGA + Self::K == Self::SIG_BYTES) by (nonlinear_arith)
            requires
                bitlen_spec((Self::GAMMA1 - 1) as nat) == 19;
    }
}

/// Every parameter set satisfies [`valid_params`].
pub proof fn lemma_valid<P: ParameterSet>()
    ensures
        valid_params::<P>(),
{
    P::lemma_params_valid();
}

/// The constants of [`MlDsa44`].
pub proof fn lemma_mldsa44_values()
    ensures
        MlDsa44::K == 4,
        MlDsa44::L == 4,
        MlDsa44::ETA == 2,
        MlDsa44::TAU == 39,
        MlDsa44::LAMBDA == 128,
        MlDsa44::GAMMA1 == 131072,
        MlDsa44::GAMMA2 == 95232,
        MlDsa44::OMEGA == 80,
        MlDsa44::BETA == 78,
        MlDsa44::C_TILDE_BYTES == 32,
        MlDsa44::PK_BYTES == 1312,
        MlDsa44::SK_BYTES == 2560,
        MlDsa44::SIG_BYTES == 2420,
{
}

/// The constants of [`MlDsa65`].
pub proof fn lemma_mldsa65_values()
    ensures
        MlDsa65::K == 6,
        MlDsa65::L == 5,
        MlDsa65::ETA == 4,
        MlDsa65::TAU == 49,
        MlDsa65::LAMBDA == 192,
        MlDsa65::GAMMA1 == 524288,
        MlDsa65::GAMMA2 == 261888,
        MlDsa65::OMEGA == 55,
        MlDsa65::BETA == 196,
        MlDsa65::C_TILDE_BYTES == 48,
        MlDsa65::PK_BYTES == 1952,
        MlDsa65::SK_BYTES == 4032,
        MlDsa65::SIG_BYTES == 3309,
{
}

/// The constants of [`MlDsa87`].
pub proof fn lemma_mldsa87_values()
    ensures
        MlDsa87::K == 8,
        MlDsa87::L == 7,
        MlDsa87::ETA == 2,
        MlDsa87::TAU == 60,
        MlDsa87::LAMBDA == 256,
        MlDsa87::GAMMA1 == 524288,
        MlDsa87::GAMMA2 == 261888,
        MlDsa87::OMEGA == 75,
        MlDsa87::BETA == 120,
        MlDsa87::C_TILDE_BYTES == 64,
        MlDsa87::PK_BYTES == 2592,
        MlDsa87::SK_BYTES == 4896,
        MlDsa87::SIG_BYTES == 4627,
{
}

} // verus!
