//! Fixed inputs for the ML-DSA-65 instruction-count benchmarks. All are deterministic, so
//! the reference and improved paths sign the same messages under the same key and hit
//! the same rejection-loop counts.
use crate::keygen::keygen_spec;
use crate::params::MlDsa65;
use vstd::prelude::*;

verus! {

/// Fixed KeyGen seed.
pub const SEED: [u8; 32] = [
    0x42, 0x42, 0x42, 0x42, 0x42, 0x42, 0x42, 0x42, 0x42, 0x42, 0x42, 0x42, 0x42, 0x42, 0x42, 0x42,
    0x42, 0x42, 0x42, 0x42, 0x42, 0x42, 0x42, 0x42, 0x42, 0x42, 0x42, 0x42, 0x42, 0x42, 0x42, 0x42,
];

/// Deterministic key pair `(pk, sk)` from [`SEED`].
pub fn keypair() -> (r: (Vec<u8>, Vec<u8>))
    ensures
        (r.0@, r.1@) == keygen_spec::<MlDsa65>(SEED@),
{
    crate::ml_dsa_65::key_gen_internal(&SEED)
}

/// `M'` for the pure variant with an empty context: `IntegerToBytes(0, 1)² ‖ M`.
pub fn m_prime(msg: &[u8]) -> (mp: Vec<u8>)
    ensures
        mp@ == seq![0u8, 0u8] + msg@,
{
    let mut mp: Vec<u8> = Vec::new();
    mp.push(0);
    mp.push(0);
    crate::sign::extend_bytes(&mut mp, msg);
    assert(mp@ =~= seq![0u8, 0u8] + msg@);
    mp
}

/// The decimal digits of `i` (ASCII, most significant first).
pub open spec fn decimal(i: nat) -> Seq<u8>
    decreases i,
{
    if i < 10 {
        seq![(48 + i) as u8]
    } else {
        decimal(i / 10).push((48 + i % 10) as u8)
    }
}

/// `i` in decimal, left-padded with `0` to at least four digits (`{:04}`).
pub open spec fn decimal4(i: nat) -> Seq<u8> {
    let d = decimal(i);
    if d.len() >= 4 {
        d
    } else {
        Seq::new((4 - d.len()) as nat, |k: int| 48u8) + d
    }
}

/// The text of benchmark message `i`: `bench-msg-` followed by `i` in four or more digits.
pub open spec fn bench_text(i: nat) -> Seq<u8> {
    seq![98u8, 101, 110, 99, 104, 45, 109, 115, 103, 45] + decimal4(i)
}

/// The decimal digits of `i`.
fn decimal_digits(i: usize) -> (d: Vec<u8>)
    ensures
        d@ == decimal(i as nat),
    decreases i,
{
    if i < 10 {
        let mut d: Vec<u8> = Vec::new();
        d.push(48 + i as u8);
        assert(d@ =~= decimal(i as nat));
        d
    } else {
        let mut d = decimal_digits(i / 10);
        d.push(48 + (i % 10) as u8);
        d
    }
}

/// `i` in decimal, left-padded with `0` to at least four digits.
fn decimal_padded(i: usize) -> (d: Vec<u8>)
    ensures
        d@ == decimal4(i as nat),
{
    let digits = decimal_digits(i);
    if digits.len() >= 4 {
        return digits;
    }
    let mut d: Vec<u8> = Vec::new();
    let pad = 4 - digits.len();
    for k in 0..pad
        invariant
            d@ == Seq::new(k as nat, |t: int| 48u8),
    {
        d.push(48);
        assert(d@ =~= Seq::new((k + 1) as nat, |t: int| 48u8));
    }
    crate::sign::extend_bytes(&mut d, digits.as_slice());
    d
}

/// `n` distinct formatted messages for the amortized multi-signature workload: message
/// `i` is `M'` of `bench-msg-` and `i` in four or more digits.
pub fn messages(n: usize) -> (ms: Vec<Vec<u8>>)
    ensures
        ms@.len() == n,
        forall|i: int| 0 <= i < n ==> (#[trigger] ms@[i])@ == seq![0u8, 0u8] + bench_text(i as nat),
{
    let mut ms: Vec<Vec<u8>> = Vec::new();
    for i in 0..n
        invariant
            ms@.len() == i,
            forall|t: int| 0 <= t < i ==> (#[trigger] ms@[t])@ == seq![0u8, 0u8] + bench_text(t as nat),
    {
        let mut text: Vec<u8> = Vec::new();
        let prefix: [u8; 10] = [98, 101, 110, 99, 104, 45, 109, 115, 103, 45];
        crate::sign::extend_bytes(&mut text, prefix.as_slice());
        let digits = decimal_padded(i);
        crate::sign::extend_bytes(&mut text, digits.as_slice());
        assert(text@ =~= bench_text(i as nat));
        ms.push(m_prime(text.as_slice()));
    }
    ms
}

} // verus!
