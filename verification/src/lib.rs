//! ML-DSA (FIPS 204): key generation, signing and verification, with the
//! arithmetic, encodings and rounding rules stated and proved.
pub mod params;
pub mod poly;
pub mod ct;
pub mod field;
pub mod rounding;
pub mod ntt;
pub mod ntt_algebra;
pub mod ntt_arith;
pub mod vecops;
pub mod encoding;
pub mod hint;
pub mod error;
pub mod serdes;
pub mod hash;
pub mod sample;
pub mod expand;
pub mod model;
pub mod keygen;
pub mod sign;
pub mod verify;
pub mod signer;
pub mod prehash;
pub mod ml_dsa_44;
pub mod ml_dsa_65;
pub mod ml_dsa_87;
pub mod leakage;
pub mod fault;
pub mod kat;
pub mod correctness;
pub mod bench;
pub mod hex;
