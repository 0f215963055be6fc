//! Known-answer checks against the NIST ACVP vectors: each function takes the decoded
//! fields of one test case, runs the parameter set's entry point (reference or improved)
//! and says whether the answer is the expected one. Reading and walking the vector files
//! is the caller's part.
use crate::keygen::keygen_spec;
use crate::params::{MlDsa44, MlDsa65, MlDsa87};
use crate::prehash::PreHash;
use crate::sign::{extend_bytes, m_prime_prehash_spec, m_prime_spec, sign_internal_spec};
use crate::verify::{bytes_eq, verify_internal_spec};
use crate::{ml_dsa_44, ml_dsa_65, ml_dsa_87};
use vstd::prelude::*;
use vstd::string::StringSliceAdditionalSpecFns;

verus! {

/// A parameter set, as named by an ACVP `parameterSet` string.
#[derive(Clone, Copy, Debug, PartialEq, Eq, Structural)]
pub enum ParamSet {
    MlDsa44,
    MlDsa65,
    MlDsa87,
}

/// Which implementation a KAT row drives: the literal FIPS 204 one, or the division-free
/// Montgomery one.
#[derive(Clone, Copy, Debug, PartialEq, Eq, Structural)]
pub enum Path {
    Reference,
    Improved,
}

/// One row of the runner: a parameter set and the implementation checked against it.
#[derive(Clone, Copy, Debug, PartialEq, Eq, Structural)]
pub struct Api {
    pub param_set: ParamSet,
    pub path: Path,
}

/// The ACVP name of each parameter set, as bytes.
pub open spec fn param_set_name(ps: ParamSet) -> Seq<u8> {
    match ps {
        ParamSet::MlDsa44 => seq![77u8, 76, 45, 68, 83, 65, 45, 52, 52],
        ParamSet::MlDsa65 => seq![77u8, 76, 45, 68, 83, 65, 45, 54, 53],
        ParamSet::MlDsa87 => seq![77u8, 76, 45, 68, 83, 65, 45, 56, 55],
    }
}

/// The parameter set whose ACVP name is `name`, if any.
pub open spec fn param_set_lookup(name: Seq<u8>) -> Option<ParamSet> {
    if name == param_set_name(ParamSet::MlDsa44) {
        Some(ParamSet::MlDsa44)
    } else if name == param_set_name(ParamSet::MlDsa65) {
        Some(ParamSet::MlDsa65)
    } else if name == param_set_name(ParamSet::MlDsa87) {
        Some(ParamSet::MlDsa87)
    } else {
        None
    }
}

/// Encoded secret key length of each set.
pub open spec fn kat_sk_bytes(ps: ParamSet) -> nat {
    match ps {
        ParamSet::MlDsa44 => 2560,
        ParamSet::MlDsa65 => 4032,
        ParamSet::MlDsa87 => 4896,
    }
}

/// KeyGen_internal of the set.
pub open spec fn kat_keygen(ps: ParamSet, xi: Seq<u8>) -> (Seq<u8>, Seq<u8>) {
    match ps {
        ParamSet::MlDsa44 => keygen_spec::<MlDsa44>(xi),
        ParamSet::MlDsa65 => keygen_spec::<MlDsa65>(xi),
        ParamSet::MlDsa87 => keygen_spec::<MlDsa87>(xi),
    }
}

/// The signature Sign_internal of the set gives.
pub open spec fn kat_sign(ps: ParamSet, sk: Seq<u8>, m_prime: Seq<u8>, rnd: Seq<u8>) -> Seq<u8> {
    match ps {
        ParamSet::MlDsa44 => sign_internal_spec::<MlDsa44>(sk, m_prime, rnd).0,
        ParamSet::MlDsa65 => sign_internal_spec::<MlDsa65>(sk, m_prime, rnd).0,
        ParamSet::MlDsa87 => sign_internal_spec::<MlDsa87>(sk, m_prime, rnd).0,
    }
}

/// Verify_internal of the set.
pub open spec fn kat_verify(ps: ParamSet, pk: Seq<u8>, m_prime: Seq<u8>, sig: Seq<u8>) -> bool {
    match ps {
        ParamSet::MlDsa44 => verify_internal_spec::<MlDsa44>(pk, m_prime, sig),
        ParamSet::MlDsa65 => verify_internal_spec::<MlDsa65>(pk, m_prime, sig),
        ParamSet::MlDsa87 => verify_internal_spec::<MlDsa87>(pk, m_prime, sig),
    }
}

/// The `M'` a pure-interface case signs: the message itself for the internal interface,
/// else the message formatted with its context.
pub open spec fn kat_m_prime(internal: bool, ctx: Seq<u8>, msg: Seq<u8>) -> Seq<u8> {
    if internal {
        msg
    } else {
        m_prime_spec(ctx, msg)
    }
}

/// The signing randomness of a case: `{0}^32` for a deterministic group, else the case's.
pub open spec fn kat_rnd(deterministic: bool, rnd: Seq<u8>) -> Seq<u8> {
    if deterministic {
        seq![0u8; 32]
    } else {
        rnd
    }
}

/// How a sigGen / sigVer test group is treated.
#[derive(Clone, Copy, Debug, PartialEq, Eq, Structural)]
pub enum GroupKind {
    /// Checked by the pure-interface KATs (external or internal interface).
    Pure,
    /// Checked by the HashML-DSA KATs.
    PreHash,
    /// `externalMu` groups: not supported.
    Unsupported,
}

/// The kind of a group from its `preHash` and `externalMu` fields.
pub fn group_kind(prehash: bool, external_mu: bool) -> (k: GroupKind)
    ensures
        k == (if external_mu {
            GroupKind::Unsupported
        } else if prehash {
            GroupKind::PreHash
        } else {
            GroupKind::Pure
        }),
{
    if external_mu {
        GroupKind::Unsupported
    } else if prehash {
        GroupKind::PreHash
    } else {
        GroupKind::Pure
    }
}

impl ParamSet {
    /// The parameter set named `name` (`"ML-DSA-44"`, `"ML-DSA-65"`, `"ML-DSA-87"`).
    pub fn from_acvp(name: &str) -> (r: Option<Self>)
        ensures
            r == param_set_lookup(name.spec_bytes()),
    {
        let b = name.as_bytes();
        let n: [u8; 9] = [77, 76, 45, 68, 83, 65, 45, 52, 52];
        assert(n@ =~= param_set_name(ParamSet::MlDsa44));
        if bytes_eq(b, n.as_slice()) {
            return Some(ParamSet::MlDsa44);
        }
        let n: [u8; 9] = [77, 76, 45, 68, 83, 65, 45, 54, 53];
        assert(n@ =~= param_set_name(ParamSet::MlDsa65));
        if bytes_eq(b, n.as_slice()) {
            return Some(ParamSet::MlDsa65);
        }
        let n: [u8; 9] = [77, 76, 45, 68, 83, 65, 45, 56, 55];
        assert(n@ =~= param_set_name(ParamSet::MlDsa87));
        if bytes_eq(b, n.as_slice()) {
            return Some(ParamSet::MlDsa87);
        }
        None
    }

    /// Encoded secret key length of the set.
    pub fn sk_bytes(self) -> (n: usize)
        ensures
            n == kat_sk_bytes(self),
    {
        match self {
            ParamSet::MlDsa44 => ml_dsa_44::SK_BYTES,
            ParamSet::MlDsa65 => ml_dsa_65::SK_BYTES,
            ParamSet::MlDsa87 => ml_dsa_87::SK_BYTES,
        }
    }
}

/// The `M'` of a pure-interface case.
pub fn kat_message(internal: bool, ctx: &[u8], msg: &[u8]) -> (mp: Vec<u8>)
    ensures
        mp@ == kat_m_prime(internal, ctx@, msg@),
{
    if internal {
        let mut mp: Vec<u8> = Vec::new();
        extend_bytes(&mut mp, msg);
        assert(mp@ =~= msg@);
        mp
    } else {
        crate::sign::format_m_prime(ctx, msg)
    }
}

/// ACVP keyGen case: the keys generated from `seed` are exactly `pk` and `sk`.
pub fn keygen_case_passes(api: Api, seed: &[u8; 32], pk: &[u8], sk: &[u8]) -> (ok: bool)
    ensures
        ok == (kat_keygen(api.param_set, seed@) == (pk@, sk@)),
{
    let (p, s) = match (api.param_set, api.path) {
        (ParamSet::MlDsa44, Path::Reference) => ml_dsa_44::key_gen_internal(seed),
        (ParamSet::MlDsa44, Path::Improved) => ml_dsa_44::key_gen_internal_fast(seed),
        (ParamSet::MlDsa65, Path::Reference) => ml_dsa_65::key_gen_internal(seed),
        (ParamSet::MlDsa65, Path::Improved) => ml_dsa_65::key_gen_internal_fast(seed),
        (ParamSet::MlDsa87, Path::Reference) => ml_dsa_87::key_gen_internal(seed),
        (ParamSet::MlDsa87, Path::Improved) => ml_dsa_87::key_gen_internal_fast(seed),
    };
    bytes_eq(p.as_slice(), pk) && bytes_eq(s.as_slice(), sk)
}

/// Sign_internal of the row's set and implementation.
fn row_sign(api: Api, sk: &[u8], m_prime: &[u8], rnd: &[u8; 32]) -> (sig: Vec<u8>)
    requires
        sk@.len() == kat_sk_bytes(api.param_set),
    ensures
        sig@ == kat_sign(api.param_set, sk@, m_prime@, rnd@),
{
    match (api.param_set, api.path) {
        (ParamSet::MlDsa44, Path::Reference) => ml_dsa_44::sign_internal(sk, m_prime, rnd),
        (ParamSet::MlDsa44, Path::Improved) => ml_dsa_44::sign_internal_fast(sk, m_prime, rnd),
        (ParamSet::MlDsa65, Path::Reference) => ml_dsa_65::sign_internal(sk, m_prime, rnd),
        (ParamSet::MlDsa65, Path::Improved) => ml_dsa_65::sign_internal_fast(sk, m_prime, rnd),
        (ParamSet::MlDsa87, Path::Reference) => ml_dsa_87::sign_internal(sk, m_prime, rnd),
        (ParamSet::MlDsa87, Path::Improved) => ml_dsa_87::sign_internal_fast(sk, m_prime, rnd),
    }
}

/// Verify_internal of the row's set and implementation.
fn row_verify(api: Api, pk: &[u8], m_prime: &[u8], sig: &[u8]) -> (ok: bool)
    ensures
        ok == kat_verify(api.param_set, pk@, m_prime@, sig@),
{
    match (api.param_set, api.path) {
        (ParamSet::MlDsa44, Path::Reference) => ml_dsa_44::verify_internal(pk, m_prime, sig),
        (ParamSet::MlDsa44, Path::Improved) => ml_dsa_44::verify_internal_fast(pk, m_prime, sig),
        (ParamSet::MlDsa65, Path::Reference) => ml_dsa_65::verify_internal(pk, m_prime, sig),
        (ParamSet::MlDsa65, Path::Improved) => ml_dsa_65::verify_internal_fast(pk, m_prime, sig),
        (ParamSet::MlDsa87, Path::Reference) => ml_dsa_87::verify_internal(pk, m_prime, sig),
        (ParamSet::MlDsa87, Path::Improved) => ml_dsa_87::verify_internal_fast(pk, m_prime, sig),
    }
}

/// ACVP sigGen case (pure interface): the signature of the case's `M'` with the case's
/// randomness (`{0}^32` in a deterministic group) is exactly `sig`.
pub fn siggen_case_passes(
    api: Api,
    internal: bool,
    deterministic: bool,
    sk: &[u8],
    msg: &[u8],
    ctx: &[u8],
    rnd: &[u8; 32],
    sig: &[u8],
) -> (ok: bool)
    requires
        sk@.len() == kat_sk_bytes(api.param_set),
    ensures
        ok == (kat_sign(
            api.param_set,
            sk@,
            kat_m_prime(internal, ctx@, msg@),
            kat_rnd(deterministic, rnd@),
        ) == sig@),
{
    let zero = [0u8; 32];
    assert(zero@ =~= seq![0u8; 32]);
    let r = if deterministic {
        &zero
    } else {
        rnd
    };
    let m_prime = kat_message(internal, ctx, msg);
    let got = row_sign(api, sk, m_prime.as_slice(), r);
    bytes_eq(got.as_slice(), sig)
}

/// ACVP sigVer case (pure interface): Verify_internal on the case's `M'` agrees with
/// the expected verdict.
pub fn sigver_case_passes(
    api: Api,
    internal: bool,
    pk: &[u8],
    msg: &[u8],
    ctx: &[u8],
    sig: &[u8],
    expected: bool,
) -> (ok: bool)
    ensures
        ok == (kat_verify(api.param_set, pk@, kat_m_prime(internal, ctx@, msg@), sig@) == expected),
{
    let m_prime = kat_message(internal, ctx, msg);
    row_verify(api, pk, m_prime.as_slice(), sig) == expected
}

/// HashML-DSA sigGen case: the pre-hash signature of `msg` under `ctx` with the case's
/// randomness is exactly `sig`.
pub fn prehash_siggen_case_passes(
    ps: ParamSet,
    ph: PreHash,
    deterministic: bool,
    sk: &[u8],
    msg: &[u8],
    ctx: &[u8],
    rnd: &[u8; 32],
    sig: &[u8],
) -> (ok: bool)
    requires
        sk@.len() == kat_sk_bytes(ps),
        ctx@.len() <= 255,
    ensures
        ok == (kat_sign(ps, sk@, m_prime_prehash_spec(ctx@, msg@, ph), kat_rnd(deterministic, rnd@))
            == sig@),
{
    let zero = [0u8; 32];
    assert(zero@ =~= seq![0u8; 32]);
    let r = if deterministic {
        &zero
    } else {
        rnd
    };
    let got = match ps {
        ParamSet::MlDsa44 => ml_dsa_44::hash_sign_with_rnd(sk, msg, ctx, ph, r),
        ParamSet::MlDsa65 => ml_dsa_65::hash_sign_with_rnd(sk, msg, ctx, ph, r),
        ParamSet::MlDsa87 => ml_dsa_87::hash_sign_with_rnd(sk, msg, ctx, ph, r),
    };
    match got {
        Ok(s) => bytes_eq(s.as_slice(), sig),
        Err(_) => false,
    }
}

/// HashML-DSA sigVer case: HashML-DSA.Verify agrees with the expected verdict.
pub fn prehash_sigver_case_passes(
    ps: ParamSet,
    ph: PreHash,
    pk: &[u8],
    msg: &[u8],
    ctx: &[u8],
    sig: &[u8],
    expected: bool,
) -> (ok: bool)
    ensures
        ok == ((ctx@.len() <= 255 && kat_verify(ps, pk@, m_prime_prehash_spec(ctx@, msg@, ph), sig@))
            == expected),
{
    let got = match ps {
        ParamSet::MlDsa44 => ml_dsa_44::hash_verify(pk, msg, sig, ctx, ph),
        ParamSet::MlDsa65 => ml_dsa_65::hash_verify(pk, msg, sig, ctx, ph),
        ParamSet::MlDsa87 => ml_dsa_87::hash_verify(pk, msg, sig, ctx, ph),
    };
    got == expected
}

} // verus!
