//! FIPS 204 §7.2 — key and signature (de)serialization (Algorithms 22–28).
//!
//! Decoders that may see adversary-controlled bytes (`pk_decode`, `sig_decode`)
//! length-check their input first and return an error on mismatch. `sk_decode` is for
//! trusted input (FIPS 204 notes it may return out-of-range values on malformed input).
use crate::encoding::{
    bit_pack, bit_unpack, bitlen, lemma_bit_pack_of_unpack, lemma_bit_unpack_of_pack,
    lemma_simple_bit_pack_of_unpack, lemma_simple_bit_unpack_of_pack, packed_bytes, read_value,
    signed_pack_values, simple_bit_pack, simple_bit_unpack, simple_pack_values,
};
use crate::error::{Error, Result};
use crate::hint::{
    hint_bit_pack, hint_bit_unpack, hint_coeff, hint_encoding, hint_positions, hint_well_formed,
    lemma_hint_pack_of_unpack, lemma_hint_unpack_of_pack,
};
use crate::params::{bitlen_spec, lemma_bitlen_constants, lemma_valid, valid_params, ParameterSet, D, N, Q};
use crate::poly::PolyVec;
use crate::model::pv;
use crate::vecops::vc;
use vstd::arithmetic::power2::pow2;
use vstd::prelude::*;

verus! {

/// Top of the `t1` coefficient range: `2^(bitlen(q−1) − d) − 1`.
pub const T1_TOP: u32 = 1023;

/// Bytes per `t1` polynomial under SimpleBitPack: `32 · bitlen(T1_TOP)`.
pub const T1_BYTES: usize = 320;

/// `t0` is packed with `a = 2^(d−1) − 1`, `b = 2^(d−1)`.
pub const T0_A: u32 = 4095;

/// Upper end of the `t0` range, `2^(d−1)`.
pub const T0_B: u32 = 4096;

/// Bytes per `t0` polynomial: `32 · bitlen(a + b)`.
pub const T0_BYTES: usize = 416;

/// The packing constants are the FIPS 204 Table 2 derivations.
pub proof fn lemma_serdes_constants()
    ensures
        T1_TOP == pow2((bitlen_spec((Q - 1) as nat) - D) as nat) - 1,
        T1_BYTES == 32 * bitlen_spec(T1_TOP as nat),
        T0_A == pow2((D - 1) as nat) - 1,
        T0_B == pow2((D - 1) as nat),
        T0_BYTES == 32 * bitlen_spec((T0_A + T0_B) as nat),
{
    lemma_bitlen_constants();
    vstd::arithmetic::power2::lemma2_to64();
}

/// The concatenation of `parts[0..n]`.
pub open spec fn concat_parts(parts: Seq<Seq<u8>>, n: nat) -> Seq<u8>
    decreases n,
{
    if n == 0 {
        Seq::empty()
    } else {
        concat_parts(parts, (n - 1) as nat) + parts[n - 1]
    }
}

/// Field `i` of a run of `size`-byte fields that starts at byte `off`.
pub open spec fn field(v: Seq<u8>, off: int, size: int, i: int) -> Seq<u8> {
    v.subrange(off + size * i, off + size * (i + 1))
}

/// Parts of one length concatenate to a run of fields.
pub proof fn lemma_concat_parts(parts: Seq<Seq<u8>>, n: nat, size: nat)
    requires
        n <= parts.len(),
        forall|k: int| 0 <= k < n ==> (#[trigger] parts[k]).len() == size,
    ensures
        concat_parts(parts, n).len() == size * n,
        forall|i: int|
            0 <= i < n ==> #[trigger] field(concat_parts(parts, n), 0, size as int, i) == parts[i],
    decreases n,
{
    if n > 0 {
        let m = (n - 1) as nat;
        lemma_concat_parts(parts, m, size);
        let c = concat_parts(parts, n);
        let prev = concat_parts(parts, m);
        assert(size * n == size * m + size) by (nonlinear_arith)
            requires
                n == m + 1,
        ;
        assert forall|i: int| 0 <= i < n implies #[trigger] field(c, 0, size as int, i)
            == parts[i] by {
            assert(size * (i + 1) == size * i + size) by (nonlinear_arith);
            if i < m {
                assert(size * (i + 1) <= size * m) by (nonlinear_arith)
                    requires
                        i + 1 <= m,
                ;
                assert(field(c, 0, size as int, i) =~= field(prev, 0, size as int, i));
            } else {
                assert(field(c, 0, size as int, i) =~= parts[i]);
            }
        }
    }
}

/// A run of fields read out of `v` concatenates back to the bytes they cover.
pub proof fn lemma_concat_fields(v: Seq<u8>, off: int, size: nat, parts: Seq<Seq<u8>>, n: nat)
    requires
        0 <= off,
        off + size * n <= v.len(),
        n <= parts.len(),
        forall|i: int| 0 <= i < n ==> #[trigger] parts[i] == field(v, off, size as int, i),
    ensures
        concat_parts(parts, n) == v.subrange(off, off + size * n),
    decreases n,
{
    if n > 0 {
        let m = (n - 1) as nat;
        assert(size * n == size * m + size) by (nonlinear_arith)
            requires
                n == m + 1,
        ;
        assert(size * m <= size * n) by (nonlinear_arith)
            requires
                m <= n,
        ;
        lemma_concat_fields(v, off, size, parts, m);
        assert(size * (m + 1) == size * n);
        assert(parts[m as int] == field(v, off, size as int, m as int));
        assert(field(v, off, size as int, m as int) =~= v.subrange(off + size * m, off + size * n));
        assert(concat_parts(parts, n) == concat_parts(parts, m) + parts[m as int]);
        assert(v.subrange(off, off + size * m) + v.subrange(off + size * m, off + size * n)
            =~= v.subrange(off, off + size * n));
        assert(concat_parts(parts, m) == v.subrange(off, off + size * m));
    } else {
        assert(size * n == 0) by (nonlinear_arith)
            requires
                n == 0,
        ;
        assert(v.subrange(off, off) =~= Seq::<u8>::empty());
    }
}

/// Append every byte of `src` to `out`.
fn append_bytes(out: &mut Vec<u8>, src: &[u8])
    ensures
        final(out)@ == old(out)@ + src@,
{
    let ghost start = out@;
    for k in 0..src.len()
        invariant
            out@ == start + src@.subrange(0, k as int),
    {
        out.push(src[k]);
        assert(start + src@.subrange(0, k + 1) =~= (start + src@.subrange(0, k as int)).push(
            src@[k as int],
        ));
    }
    assert(src@.subrange(0, src@.len() as int) =~= src@);
}

/// Copy `v[off .. off + 32]` into an array.
pub(crate) fn take_32(v: &[u8], off: usize) -> (r: [u8; 32])
    requires
        off + 32 <= v@.len(),
    ensures
        r@ == v@.subrange(off as int, off + 32),
{
    let mut r = [0u8; 32];
    let len = v.len();
    for k in 0..32
        invariant
            off + 32 <= v@.len(),
            len == v@.len(),
            forall|t: int| 0 <= t < k ==> r@[t] == v@[off + t],
    {
        r[k] = v[off + k];
    }
    assert(r@ =~= v@.subrange(off as int, off + 32));
    r
}

/// The SimpleBitPack encodings of the polynomials of `t1`.
pub open spec fn t1_parts<const K: usize>(t1: PolyVec<K>) -> Seq<Seq<u8>> {
    Seq::new(K as nat, |i: int| packed_bytes(simple_pack_values(t1.v[i].coeffs@), 10))
}

/// pkEncode: `ρ` followed by the packed polynomials of `t1`.
pub open spec fn pk_encoding<const K: usize>(rho: Seq<u8>, t1: PolyVec<K>) -> Seq<u8> {
    rho + concat_parts(t1_parts(t1), K as nat)
}

/// pkDecode's `t1`: coefficient `j` of polynomial `i`, read from its 320-byte field.
pub open spec fn pk_t1_coeff(pk: Seq<u8>, i: int, j: int) -> i32 {
    read_value(field(pk, 32, 320, i), 10, j) as i32
}

/// FIPS 204, Algorithm 22 — pkEncode.
pub fn pk_encode<P: ParameterSet, const K: usize>(rho: &[u8; 32], t1: &PolyVec<K>) -> (pk: Vec<u8>)
    requires
        K == P::K,
    ensures
        pk@ == pk_encoding(rho@, *t1),
        pk@.len() == P::PK_BYTES,
{
    proof {
        lemma_valid::<P>();
        lemma_bitlen_constants();
    }
    let mut pk: Vec<u8> = Vec::with_capacity(P::PK_BYTES);
    append_bytes(&mut pk, rho.as_slice());
    for i in 0..K
        invariant
            K == P::K,
            pk@ == rho@ + concat_parts(t1_parts(*t1), i as nat),
    {
        let mut part = simple_bit_pack(&t1.v[i], T1_TOP);
        proof {
            lemma_bitlen_constants();
        }
        pk.append(&mut part);
        assert(rho@ + concat_parts(t1_parts(*t1), (i + 1) as nat) =~= rho@ + concat_parts(
            t1_parts(*t1),
            i as nat,
        ) + t1_parts(*t1)[i as int]);
    }
    proof {
        lemma_bitlen_constants();
        assert forall|k: int| 0 <= k < K implies (#[trigger] t1_parts(*t1)[k]).len() == 320 by {
            crate::encoding::lemma_packed_len(simple_pack_values(t1.v[k].coeffs@), 10);
        }
        lemma_concat_parts(t1_parts(*t1), K as nat, 320);
    }
    pk
}

/// The decoded public key is the one that pkDecode reads from `pk`.
pub open spec fn pk_decoded<const K: usize>(pk: Seq<u8>, rho: [u8; 32], t1: PolyVec<K>) -> bool {
    &&& rho@ == pk.subrange(0, 32)
    &&& forall|i: int, j: int|
        0 <= i < K && 0 <= j < N ==> #[trigger] t1.v[i].coeffs@[j] == pk_t1_coeff(pk, i, j)
}

/// FIPS 204, Algorithm 23 — pkDecode. Length-checked (untrusted input).
pub fn pk_decode<P: ParameterSet, const K: usize>(pk: &[u8]) -> (r: Result<([u8; 32], PolyVec<K>)>)
    requires
        K == P::K,
    ensures
        pk@.len() != P::PK_BYTES ==> r == (Err::<([u8; 32], PolyVec<K>), Error>(
            Error::InvalidLength { expected: P::PK_BYTES, got: pk@.len() as usize },
        )),
        pk@.len() == P::PK_BYTES ==> (r matches Ok((rho, t1)) && pk_decoded(pk@, rho, t1)),
{
    proof {
        lemma_valid::<P>();
        lemma_bitlen_constants();
    }
    if pk.len() != P::PK_BYTES {
        return Err(Error::InvalidLength { expected: P::PK_BYTES, got: pk.len() });
    }
    let rho = take_32(pk, 0);
    let mut t1 = PolyVec::<K>::zero();
    for i in 0..K
        invariant
            K == P::K,
            K <= 8,
            pk@.len() == 32 + 320 * K,
            forall|t: int, j: int|
                0 <= t < i && 0 <= j < N ==> #[trigger] t1.v[t].coeffs@[j] == pk_t1_coeff(pk@, t, j),
    {
        let start = 32 + i * T1_BYTES;
        let part = vstd::slice::slice_subrange(pk, start, start + T1_BYTES);
        proof {
            lemma_bitlen_constants();
            assert(part@ =~= field(pk@, 32, 320, i as int));
        }
        let ghost before = t1;
        t1.v[i] = simple_bit_unpack(part, T1_TOP);
        assert forall|t: int, j: int| 0 <= t <= i && 0 <= j < N implies #[trigger] t1.v[t].coeffs@[j]
            == pk_t1_coeff(pk@, t, j) by {
            if t < i {
                assert(t1.v[t] == before.v[t]);
                assert(before.v[t].coeffs@[j] == pk_t1_coeff(pk@, t, j));
            } else {
                assert(t1.v[i as int].coeffs@[j] == read_value(part@, 10, j) as i32);
                assert(part@ == field(pk@, 32, 320, t));
                assert(pk_t1_coeff(pk@, t, j) == read_value(part@, 10, j) as i32);
            }
        }
    }
    assert(pk_decoded(pk@, rho, t1));
    Ok((rho, t1))
}

/// Field `i` of a prefix followed by a run of fields is field `i` of the run.
proof fn lemma_field_after_prefix(pre: Seq<u8>, run: Seq<u8>, size: nat, i: int)
    requires
        0 <= i,
        size * (i + 1) <= run.len(),
    ensures
        field(pre + run, pre.len() as int, size as int, i) == field(run, 0, size as int, i),
{
    assert(size * i <= size * (i + 1)) by (nonlinear_arith)
        requires
            0 <= i,
    ;
    assert(field(pre + run, pre.len() as int, size as int, i) =~= field(run, 0, size as int, i));
}

/// Decoding an encoded public key gives back `ρ` and `t1`, for `t1` coefficients in
/// `[0, T1_TOP]`.
pub proof fn lemma_pk_decode_of_encode<P: ParameterSet, const K: usize>(rho: Seq<u8>, t1: PolyVec<K>)
    requires
        K == P::K,
        rho.len() == 32,
        forall|i: int, j: int| 0 <= i < K && 0 <= j < N ==> 0 <= #[trigger] vc(t1, i, j) <= T1_TOP,
    ensures
        pk_encoding(rho, t1).len() == P::PK_BYTES,
        pk_encoding(rho, t1).subrange(0, 32) == rho,
        forall|i: int, j: int|
            0 <= i < K && 0 <= j < N ==> #[trigger] pk_t1_coeff(pk_encoding(rho, t1), i, j)
                == t1.v[i].coeffs@[j],
{
    lemma_valid::<P>();
    lemma_bitlen_constants();
    let parts = t1_parts(t1);
    assert forall|k: int| 0 <= k < K implies (#[trigger] parts[k]).len() == 320 by {
        crate::encoding::lemma_packed_len(simple_pack_values(t1.v[k].coeffs@), 10);
    }
    lemma_concat_parts(parts, K as nat, 320);
    let run = concat_parts(parts, K as nat);
    assert(pk_encoding(rho, t1).subrange(0, 32) =~= rho);
    assert forall|i: int, j: int| 0 <= i < K && 0 <= j < N implies #[trigger] pk_t1_coeff(
        pk_encoding(rho, t1),
        i,
        j,
    ) == t1.v[i].coeffs@[j] by {
        assert(320 * (i + 1) <= 320 * K);
        lemma_field_after_prefix(rho, run, 320, i);
        assert(field(run, 0, 320, i) == parts[i]);
        assert forall|k: int| 0 <= k < N implies 0 <= #[trigger] t1.v[i].coeffs@[k] <= T1_TOP by {
            assert(vc(t1, i, k) == t1.v[i].coeffs@[k]);
        }
        lemma_simple_bit_unpack_of_pack(t1.v[i].coeffs@, T1_TOP);
        assert(0 <= t1.v[i].coeffs@[j] <= T1_TOP) by {
            assert(vc(t1, i, j) == t1.v[i].coeffs@[j]);
        }
    }
}

/// Every public key of the right length re-encodes to itself after pkDecode: the
/// decoder accepts only canonical encodings.
pub proof fn lemma_pk_encode_of_decode<P: ParameterSet, const K: usize>(pk: Seq<u8>, t1: PolyVec<K>)
    requires
        K == P::K,
        pk.len() == P::PK_BYTES,
        forall|i: int, j: int|
            0 <= i < K && 0 <= j < N ==> #[trigger] t1.v[i].coeffs@[j] == pk_t1_coeff(pk, i, j),
    ensures
        pk_encoding(pk.subrange(0, 32), t1) == pk,
{
    lemma_valid::<P>();
    lemma_bitlen_constants();
    let parts = t1_parts(t1);
    assert forall|i: int| 0 <= i < K implies #[trigger] parts[i] == field(pk, 32, 320, i) by {
        let f = field(pk, 32, 320, i);
        assert(f.len() == 320);
        lemma_simple_bit_pack_of_unpack(f, T1_TOP);
        assert(t1.v[i].coeffs@ =~= Seq::new(N as nat, |j: int| read_value(f, 10, j) as i32));
    }
    lemma_concat_fields(pk, 32, 320, parts, K as nat);
    assert(pk.subrange(0, 32) + pk.subrange(32, 32 + 320 * K) =~= pk);
}

/// Copy `v[off .. off + 64]` into an array.
pub(crate) fn take_64(v: &[u8], off: usize) -> (r: [u8; 64])
    requires
        off + 64 <= v@.len(),
    ensures
        r@ == v@.subrange(off as int, off + 64),
{
    let mut r = [0u8; 64];
    let len = v.len();
    for k in 0..64
        invariant
            off + 64 <= v@.len(),
            len == v@.len(),
            forall|t: int| 0 <= t < k ==> r@[t] == v@[off + t],
    {
        r[k] = v[off + k];
    }
    assert(r@ =~= v@.subrange(off as int, off + 64));
    r
}

/// Bits per `s1`/`s2` coefficient, `bitlen(2η)`.
pub open spec fn eta_bits<P: ParameterSet>() -> nat {
    bitlen_spec((2 * P::ETA) as nat)
}

/// Bits per `z` coefficient, `bitlen(2γ1 − 1)`.
pub open spec fn z_bits<P: ParameterSet>() -> nat {
    bitlen_spec((2 * P::GAMMA1 - 1) as nat)
}

/// Top of the `w1` coefficient range, `(q − 1)/(2γ2) − 1`.
pub open spec fn w1_top_spec<P: ParameterSet>() -> int {
    (Q - 1) / (2 * P::GAMMA2) - 1
}

/// The sizes of the parameter sets, spelled out.
pub proof fn lemma_sizes<P: ParameterSet>()
    ensures
        valid_params::<P>(),
        P::ETA == 2 ==> eta_bits::<P>() == 3,
        P::ETA == 4 ==> eta_bits::<P>() == 4,
        P::GAMMA1 == 131072 ==> z_bits::<P>() == 18,
        P::GAMMA1 == 524288 ==> z_bits::<P>() == 20,
        P::GAMMA2 == 95232 ==> w1_top_spec::<P>() == 43,
        P::GAMMA2 == 261888 ==> w1_top_spec::<P>() == 15,
        P::PK_BYTES == 32 + 320 * P::K,
        P::SK_BYTES == 128 + 32 * eta_bits::<P>() * (P::K + P::L) + 416 * P::K,
        P::SIG_BYTES == P::C_TILDE_BYTES + 32 * z_bits::<P>() * P::L + P::OMEGA + P::K,
{
    lemma_valid::<P>();
    lemma_bitlen_constants();
    assert((Q - 1) / (2 * 95232int) == 44);
    assert((Q - 1) / (2 * 261888int) == 16);
    let e = eta_bits::<P>();
    let zb = z_bits::<P>();
    let k = P::K as int;
    let l = P::L as int;
    assert(bitlen_spec((Q - 1) as nat) == 23);
    assert(P::SK_BYTES == 128 + 32 * e * (k + l) + 416 * k) by (nonlinear_arith)
        requires
            P::SK_BYTES == 32 + 32 + 64 + 32 * ((k + l) * e + 13 * k),
    ;
    assert(P::PK_BYTES == 32 + 320 * k) by (nonlinear_arith)
        requires
            P::PK_BYTES == 32 + 32 * k * (23 - 13),
    ;
    assert(zb == 1 + bitlen_spec((P::GAMMA1 - 1) as nat));
    assert(P::SIG_BYTES == P::C_TILDE_BYTES + 32 * zb * l + P::OMEGA + k) by (nonlinear_arith)
        requires
            P::SIG_BYTES == P::LAMBDA / 4 + 32 * l * (1 + bitlen_spec((P::GAMMA1 - 1) as nat))
                + P::OMEGA + k,
            P::C_TILDE_BYTES == P::LAMBDA / 4,
            zb == 1 + bitlen_spec((P::GAMMA1 - 1) as nat),
    ;
}

/// Bytes per `s1`/`s2` polynomial under BitPack(η, η): `32 · bitlen(2η)`.
fn eta_bytes<P: ParameterSet>() -> (r: usize)
    ensures
        r == 32 * eta_bits::<P>(),
        r == 96 || r == 128,
{
    proof {
        lemma_sizes::<P>();
    }
    32 * bitlen(2 * P::ETA as u32) as usize
}

/// Bytes per `z` polynomial under BitPack(γ1 − 1, γ1): `32 · bitlen(2γ1 − 1)`.
fn z_bytes<P: ParameterSet>() -> (r: usize)
    ensures
        r == 32 * z_bits::<P>(),
        r == 576 || r == 640,
{
    proof {
        lemma_sizes::<P>();
    }
    32 * bitlen((P::GAMMA1 - 1) as u32 + P::GAMMA1 as u32) as usize
}

/// Top of the `w1` coefficient range: `(q − 1)/(2γ2) − 1` (15 or 43).
fn w1_top<P: ParameterSet>() -> (r: u32)
    ensures
        r == w1_top_spec::<P>(),
        r == 15 || r == 43,
{
    proof {
        lemma_sizes::<P>();
    }
    ((Q - 1) / (2 * P::GAMMA2)) as u32 - 1
}

/// The BitPack encodings (upper end `b`, `c` bits a coefficient) of the polynomials of `s`.
pub open spec fn signed_parts<const M: usize>(s: PolyVec<M>, b: u32, c: nat) -> Seq<Seq<u8>> {
    Seq::new(M as nat, |i: int| packed_bytes(signed_pack_values(s.v[i].coeffs@, b), c))
}

/// The BitPack(η, η) encodings of the polynomials of `s`.
pub open spec fn eta_parts<P: ParameterSet, const M: usize>(s: PolyVec<M>) -> Seq<Seq<u8>> {
    signed_parts(s, P::ETA as u32, eta_bits::<P>())
}

/// The BitPack(T0_A, T0_B) encodings of the polynomials of `t0`.
pub open spec fn t0_parts<const K: usize>(t0: PolyVec<K>) -> Seq<Seq<u8>> {
    signed_parts(t0, T0_B, 13)
}

/// skEncode: `ρ ‖ K ‖ tr ‖ s1 ‖ s2 ‖ t0`, each vector packed polynomial by polynomial.
pub open spec fn sk_encoding<P: ParameterSet, const K: usize, const L: usize>(
    rho: Seq<u8>,
    k_seed: Seq<u8>,
    tr: Seq<u8>,
    s1: PolyVec<L>,
    s2: PolyVec<K>,
    t0: PolyVec<K>,
) -> Seq<u8> {
    rho + k_seed + tr + concat_parts(eta_parts::<P, L>(s1), L as nat) + concat_parts(
        eta_parts::<P, K>(s2),
        K as nat,
    ) + concat_parts(t0_parts(t0), K as nat)
}

/// The length of a run of packed parts.
proof fn lemma_parts_len(parts: Seq<Seq<u8>>, n: nat, size: nat)
    requires
        n <= parts.len(),
        forall|k: int| 0 <= k < n ==> (#[trigger] parts[k]).len() == size,
    ensures
        concat_parts(parts, n).len() == size * n,
{
    lemma_concat_parts(parts, n, size);
}

/// FIPS 204, Algorithm 24 — skEncode.
pub fn sk_encode<P: ParameterSet, const K: usize, const L: usize>(
    rho: &[u8; 32],
    k_seed: &[u8; 32],
    tr: &[u8; 64],
    s1: &PolyVec<L>,
    s2: &PolyVec<K>,
    t0: &PolyVec<K>,
) -> (sk: Vec<u8>)
    requires
        K == P::K,
        L == P::L,
    ensures
        sk@ == sk_encoding::<P, K, L>(rho@, k_seed@, tr@, *s1, *s2, *t0),
        sk@.len() == P::SK_BYTES,
{
    proof {
        lemma_sizes::<P>();
    }
    let eta = P::ETA as u32;
    let mut sk: Vec<u8> = Vec::with_capacity(P::SK_BYTES);
    append_bytes(&mut sk, rho.as_slice());
    append_bytes(&mut sk, k_seed.as_slice());
    append_bytes(&mut sk, tr.as_slice());
    let ghost head = rho@ + k_seed@ + tr@;
    for i in 0..L
        invariant
            L == P::L,
            eta == P::ETA,
            eta == 2 || eta == 4,
            sk@ == head + concat_parts(eta_parts::<P, L>(*s1), i as nat),
    {
        let mut part = bit_pack(&s1.v[i], eta, eta);
        pk_part_step(&mut sk, &mut part);
        assert(head + concat_parts(eta_parts::<P, L>(*s1), (i + 1) as nat) =~= head
            + concat_parts(eta_parts::<P, L>(*s1), i as nat) + eta_parts::<P, L>(*s1)[i as int]);
    }
    let ghost head2 = head + concat_parts(eta_parts::<P, L>(*s1), L as nat);
    for i in 0..K
        invariant
            K == P::K,
            eta == P::ETA,
            eta == 2 || eta == 4,
            sk@ == head2 + concat_parts(eta_parts::<P, K>(*s2), i as nat),
    {
        let mut part = bit_pack(&s2.v[i], eta, eta);
        pk_part_step(&mut sk, &mut part);
        assert(head2 + concat_parts(eta_parts::<P, K>(*s2), (i + 1) as nat) =~= head2
            + concat_parts(eta_parts::<P, K>(*s2), i as nat) + eta_parts::<P, K>(*s2)[i as int]);
    }
    let ghost head3 = head2 + concat_parts(eta_parts::<P, K>(*s2), K as nat);
    for i in 0..K
        invariant
            K == P::K,
            sk@ == head3 + concat_parts(t0_parts(*t0), i as nat),
    {
        let mut part = bit_pack(&t0.v[i], T0_A, T0_B);
        proof {
            lemma_bitlen_constants();
        }
        pk_part_step(&mut sk, &mut part);
        assert(head3 + concat_parts(t0_parts(*t0), (i + 1) as nat) =~= head3 + concat_parts(
            t0_parts(*t0),
            i as nat,
        ) + t0_parts(*t0)[i as int]);
    }
    proof {
        lemma_bitlen_constants();
        let eb = eta_bits::<P>();
        assert forall|k: int| 0 <= k < L implies (#[trigger] eta_parts::<P, L>(*s1)[k]).len() == 32
            * eb by {
            crate::encoding::lemma_packed_len(signed_pack_values(s1.v[k].coeffs@, eta), eb);
        }
        assert forall|k: int| 0 <= k < K implies (#[trigger] eta_parts::<P, K>(*s2)[k]).len() == 32
            * eb by {
            crate::encoding::lemma_packed_len(signed_pack_values(s2.v[k].coeffs@, eta), eb);
        }
        assert forall|k: int| 0 <= k < K implies (#[trigger] t0_parts(*t0)[k]).len() == 416 by {
            crate::encoding::lemma_packed_len(signed_pack_values(t0.v[k].coeffs@, T0_B), 13);
        }
        lemma_parts_len(eta_parts::<P, L>(*s1), L as nat, 32 * eb);
        lemma_parts_len(eta_parts::<P, K>(*s2), K as nat, 32 * eb);
        lemma_parts_len(t0_parts(*t0), K as nat, 416);
        assert(32 * eb * L + 32 * eb * K == 32 * eb * (K + L)) by (nonlinear_arith);
    }
    sk
}

/// Append one packed part.
fn pk_part_step(out: &mut Vec<u8>, part: &mut Vec<u8>)
    ensures
        final(out)@ == old(out)@ + old(part)@,
{
    out.append(part);
}

/// Field `i` of the middle part of `pre + run + post` is field `i` of `run`.
proof fn lemma_field_in_middle(pre: Seq<u8>, run: Seq<u8>, post: Seq<u8>, size: nat, i: int)
    requires
        0 <= i,
        size * (i + 1) <= run.len(),
    ensures
        field(pre + run + post, pre.len() as int, size as int, i) == field(run, 0, size as int, i),
{
    assert(size * i <= size * (i + 1)) by (nonlinear_arith)
        requires
            0 <= i,
    ;
    assert(field(pre + run + post, pre.len() as int, size as int, i) =~= field(
        run,
        0,
        size as int,
        i,
    ));
}

/// Reading back a run of BitPack(a, b) parts embedded between other bytes.
proof fn lemma_signed_run_decode<const M: usize>(
    pre: Seq<u8>,
    s: PolyVec<M>,
    a: u32,
    b: u32,
    post: Seq<u8>,
)
    requires
        a + b < 0x8000_0000,
        forall|i: int, j: int|
            0 <= i < M && 0 <= j < N ==> -a <= #[trigger] vc(s, i, j) <= b,
    ensures
        ({
            let c = bitlen_spec((a + b) as nat);
            let v = pre + concat_parts(signed_parts(s, b, c), M as nat) + post;
            &&& concat_parts(signed_parts(s, b, c), M as nat).len() == 32 * c * M
            &&& forall|i: int, j: int|
                0 <= i < M && 0 <= j < N ==> b - read_value(
                    field(v, pre.len() as int, (32 * c) as int, i),
                    c,
                    j,
                ) == #[trigger] s.v[i].coeffs@[j]
        }),
{
    let c = bitlen_spec((a + b) as nat);
    let parts = signed_parts(s, b, c);
    assert forall|k: int| 0 <= k < M implies (#[trigger] parts[k]).len() == 32 * c by {
        crate::encoding::lemma_packed_len(signed_pack_values(s.v[k].coeffs@, b), c);
    }
    lemma_concat_parts(parts, M as nat, 32 * c);
    let run = concat_parts(parts, M as nat);
    assert(32 * c * M == (32 * c) * M);
    assert forall|i: int, j: int| 0 <= i < M && 0 <= j < N implies b - read_value(
        field(pre + run + post, pre.len() as int, (32 * c) as int, i),
        c,
        j,
    ) == #[trigger] s.v[i].coeffs@[j] by {
        assert((32 * c) * (i + 1) <= (32 * c) * M) by (nonlinear_arith)
            requires
                i + 1 <= M,
        ;
        lemma_field_in_middle(pre, run, post, 32 * c, i);
        assert forall|k: int| 0 <= k < N implies -a <= #[trigger] s.v[i].coeffs@[k] <= b by {
            assert(vc(s, i, k) == s.v[i].coeffs@[k]);
        }
        lemma_bit_unpack_of_pack(s.v[i].coeffs@, a, b);
    }
}

/// A run of fields of `v` that BitUnpack(a, b) read re-packs to the same bytes.
proof fn lemma_signed_run_encode<const M: usize>(v: Seq<u8>, off: int, a: u32, b: u32, s: PolyVec<M>)
    requires
        a + b < 0x8000_0000,
        0 <= off,
        off + 32 * bitlen_spec((a + b) as nat) * M <= v.len(),
        forall|i: int, j: int|
            0 <= i < M && 0 <= j < N ==> #[trigger] s.v[i].coeffs@[j] == b - read_value(
                field(v, off, (32 * bitlen_spec((a + b) as nat)) as int, i),
                bitlen_spec((a + b) as nat),
                j,
            ),
    ensures
        concat_parts(signed_parts(s, b, bitlen_spec((a + b) as nat)), M as nat) == v.subrange(
            off,
            off + 32 * bitlen_spec((a + b) as nat) * M,
        ),
{
    let c = bitlen_spec((a + b) as nat);
    let parts = signed_parts(s, b, c);
    assert forall|i: int| 0 <= i < M implies #[trigger] parts[i] == field(v, off, (32 * c) as int, i) by {
        let f = field(v, off, (32 * c) as int, i);
        assert((32 * c) * (i + 1) <= (32 * c) * M) by (nonlinear_arith)
            requires
                i + 1 <= M,
        ;
        assert(32 * c * M == (32 * c) * M);
        assert((32 * c) * (i + 1) == (32 * c) * i + 32 * c) by (nonlinear_arith);
        assert(0 <= (32 * c) * i) by (nonlinear_arith)
            requires
                0 <= i,
        ;
        assert(f.len() == 32 * c);
        lemma_bit_pack_of_unpack(f, a, b);
        assert(s.v[i].coeffs@ =~= Seq::new(N as nat, |j: int| (b - read_value(f, c, j)) as i32));
    }
    assert(32 * c * M == (32 * c) * M);
    lemma_concat_fields(v, off, 32 * c, parts, M as nat);
}

/// Where skDecode finds `s2`: after `ρ, K, tr` and the `L` polynomials of `s1`.
pub open spec fn sk_s2_offset<P: ParameterSet>() -> int {
    128 + 32 * eta_bits::<P>() * P::L
}

/// Where skDecode finds `t0`: after `s1` and `s2`.
pub open spec fn sk_t0_offset<P: ParameterSet>() -> int {
    128 + 32 * eta_bits::<P>() * (P::L + P::K)
}

/// skDecode's `s1`: coefficient `j` of polynomial `i`.
pub open spec fn sk_s1_coeff<P: ParameterSet>(sk: Seq<u8>, i: int, j: int) -> int {
    P::ETA - read_value(field(sk, 128, (32 * eta_bits::<P>()) as int, i), eta_bits::<P>(), j)
}

/// skDecode's `s2`: coefficient `j` of polynomial `i`.
pub open spec fn sk_s2_coeff<P: ParameterSet>(sk: Seq<u8>, i: int, j: int) -> int {
    P::ETA - read_value(
        field(sk, sk_s2_offset::<P>(), (32 * eta_bits::<P>()) as int, i),
        eta_bits::<P>(),
        j,
    )
}

/// skDecode's `t0`: coefficient `j` of polynomial `i`.
pub open spec fn sk_t0_coeff<P: ParameterSet>(sk: Seq<u8>, i: int, j: int) -> int {
    T0_B - read_value(field(sk, sk_t0_offset::<P>(), 416, i), 13, j)
}

/// The decoded secret key: `(ρ, K, tr, s1, s2, t0)`.
pub type DecodedSk<const K: usize, const L: usize> = (
    [u8; 32],
    [u8; 32],
    [u8; 64],
    PolyVec<L>,
    PolyVec<K>,
    PolyVec<K>,
);

/// The decoded secret key is the one that skDecode reads from `sk`.
pub open spec fn sk_decoded<P: ParameterSet, const K: usize, const L: usize>(
    sk: Seq<u8>,
    d: DecodedSk<K, L>,
) -> bool {
    let (rho, k_seed, tr, s1, s2, t0) = d;
    &&& rho@ == sk.subrange(0, 32)
    &&& k_seed@ == sk.subrange(32, 64)
    &&& tr@ == sk.subrange(64, 128)
    &&& forall|i: int, j: int|
        0 <= i < L && 0 <= j < N ==> #[trigger] s1.v[i].coeffs@[j] == sk_s1_coeff::<P>(sk, i, j)
    &&& forall|i: int, j: int|
        0 <= i < K && 0 <= j < N ==> #[trigger] s2.v[i].coeffs@[j] == sk_s2_coeff::<P>(sk, i, j)
    &&& forall|i: int, j: int|
        0 <= i < K && 0 <= j < N ==> #[trigger] t0.v[i].coeffs@[j] == sk_t0_coeff::<P>(sk, i, j)
}

/// Unpack `M` polynomials packed with BitPack(a, b) at `32·c`-byte fields from `off`.
fn unpack_run<const M: usize>(v: &[u8], off: usize, a: u32, b: u32, size: usize) -> (s: PolyVec<M>)
    requires
        a + b < 0x8000_0000,
        size == 32 * bitlen_spec((a + b) as nat),
        off + size * M <= v@.len(),
        8 * size <= usize::MAX,
    ensures
        forall|i: int, j: int|
            0 <= i < M && 0 <= j < N ==> #[trigger] s.v[i].coeffs@[j] == b - read_value(
                field(v@, off as int, size as int, i),
                bitlen_spec((a + b) as nat),
                j,
            ),
{
    let mut s = PolyVec::<M>::zero();
    let mut pos = off;
    let len = v.len();
    assert(size * 0 == 0) by (nonlinear_arith);
    for i in 0..M
        invariant
            a + b < 0x8000_0000,
            size == 32 * bitlen_spec((a + b) as nat),
            off + size * M <= v@.len(),
            len == v@.len(),
            8 * size <= usize::MAX,
            pos == off + size * i,
            forall|t: int, j: int|
                0 <= t < i && 0 <= j < N ==> #[trigger] s.v[t].coeffs@[j] == b - read_value(
                    field(v@, off as int, size as int, t),
                    bitlen_spec((a + b) as nat),
                    j,
                ),
    {
        assert(size * i + size <= size * M) by (nonlinear_arith)
            requires
                i < M,
        ;
        assert(size * (i + 1) == size * i + size) by (nonlinear_arith);
        let part = vstd::slice::slice_subrange(v, pos, pos + size);
        assert(part@ =~= field(v@, off as int, size as int, i as int));
        let ghost before = s;
        s.v[i] = bit_unpack(part, a, b);
        assert forall|t: int, j: int| 0 <= t <= i && 0 <= j < N implies #[trigger] s.v[t].coeffs@[j]
            == b - read_value(field(v@, off as int, size as int, t), bitlen_spec((a + b) as nat), j) by {
            if t < i {
                assert(s.v[t] == before.v[t]);
                assert(before.v[t].coeffs@[j] == b - read_value(
                    field(v@, off as int, size as int, t),
                    bitlen_spec((a + b) as nat),
                    j,
                ));
            } else {
                assert(s.v[i as int].coeffs@[j] == b - read_value(part@, bitlen_spec((a + b) as nat), j));
            }
        }
        pos = pos + size;
    }
    s
}

/// FIPS 204, Algorithm 25 — skDecode. Trusted input (may be out of range if malformed).
pub fn sk_decode<P: ParameterSet, const K: usize, const L: usize>(sk: &[u8]) -> (r: Result<
    DecodedSk<K, L>,
>)
    requires
        K == P::K,
        L == P::L,
    ensures
        sk@.len() != P::SK_BYTES ==> r == (Err::<DecodedSk<K, L>, Error>(
            Error::InvalidLength { expected: P::SK_BYTES, got: sk@.len() as usize },
        )),
        sk@.len() == P::SK_BYTES ==> (r matches Ok(d) && sk_decoded::<P, K, L>(sk@, d)),
{
    proof {
        lemma_sizes::<P>();
    }
    if sk.len() != P::SK_BYTES {
        return Err(Error::InvalidLength { expected: P::SK_BYTES, got: sk.len() });
    }
    let eb = eta_bytes::<P>();
    let eta = P::ETA as u32;
    let rho = take_32(sk, 0);
    let k_seed = take_32(sk, 32);
    let tr = take_64(sk, 64);
    proof {
        assert(eb * L + eb * K + 416 * K + 128 == P::SK_BYTES) by (nonlinear_arith)
            requires
                P::SK_BYTES == 128 + 32 * eta_bits::<P>() * (K + L) + 416 * K,
                eb == 32 * eta_bits::<P>(),
        ;
        lemma_bitlen_constants();
    }
    let s1 = unpack_run::<L>(sk, 128, eta, eta, eb);
    let s2 = unpack_run::<K>(sk, 128 + eb * L, eta, eta, eb);
    let t0 = unpack_run::<K>(sk, 128 + eb * L + eb * K, T0_A, T0_B, T0_BYTES);
    proof {
        assert(128 + eb * L + eb * K == sk_t0_offset::<P>()) by (nonlinear_arith)
            requires
                eb == 32 * eta_bits::<P>(),
                K == P::K,
                L == P::L,
        ;
        assert(128 + eb * L == sk_s2_offset::<P>()) by (nonlinear_arith)
            requires
                eb == 32 * eta_bits::<P>(),
                L == P::L,
        ;
    }
    Ok((rho, k_seed, tr, s1, s2, t0))
}

/// Decoding an encoded secret key gives back its parts, for secrets in `[−η, η]` and `t0`
/// in `[−T0_A, T0_B]`.
pub proof fn lemma_sk_decode_of_encode<P: ParameterSet, const K: usize, const L: usize>(
    rho: Seq<u8>,
    k_seed: Seq<u8>,
    tr: Seq<u8>,
    s1: PolyVec<L>,
    s2: PolyVec<K>,
    t0: PolyVec<K>,
)
    requires
        K == P::K,
        L == P::L,
        rho.len() == 32,
        k_seed.len() == 32,
        tr.len() == 64,
        forall|i: int, j: int|
            0 <= i < L && 0 <= j < N ==> -P::ETA <= #[trigger] vc(s1, i, j) <= P::ETA,
        forall|i: int, j: int|
            0 <= i < K && 0 <= j < N ==> -P::ETA <= #[trigger] vc(s2, i, j) <= P::ETA,
        forall|i: int, j: int|
            0 <= i < K && 0 <= j < N ==> -T0_A <= #[trigger] vc(t0, i, j) <= T0_B,
    ensures
        ({
            let sk = sk_encoding::<P, K, L>(rho, k_seed, tr, s1, s2, t0);
            &&& sk.len() == P::SK_BYTES
            &&& sk.subrange(0, 32) == rho
            &&& sk.subrange(32, 64) == k_seed
            &&& sk.subrange(64, 128) == tr
            &&& forall|i: int, j: int|
                0 <= i < L && 0 <= j < N ==> sk_s1_coeff::<P>(sk, i, j) == #[trigger] s1.v[i].coeffs@[j]
            &&& forall|i: int, j: int|
                0 <= i < K && 0 <= j < N ==> sk_s2_coeff::<P>(sk, i, j) == #[trigger] s2.v[i].coeffs@[j]
            &&& forall|i: int, j: int|
                0 <= i < K && 0 <= j < N ==> sk_t0_coeff::<P>(sk, i, j) == #[trigger] t0.v[i].coeffs@[j]
        }),
{
    lemma_sizes::<P>();
    lemma_bitlen_constants();
    let eta = P::ETA as u32;
    let e = eta_bits::<P>();
    assert(bitlen_spec((eta + eta) as nat) == e);
    assert(bitlen_spec((T0_A + T0_B) as nat) == 13);
    let head = rho + k_seed + tr;
    let a1 = concat_parts(eta_parts::<P, L>(s1), L as nat);
    let a2 = concat_parts(eta_parts::<P, K>(s2), K as nat);
    let a3 = concat_parts(t0_parts(t0), K as nat);
    let sk = sk_encoding::<P, K, L>(rho, k_seed, tr, s1, s2, t0);
    lemma_signed_run_decode(head, s1, eta, eta, a2 + a3);
    lemma_signed_run_decode(head + a1, s2, eta, eta, a3);
    lemma_signed_run_decode(head + a1 + a2, t0, T0_A, T0_B, Seq::<u8>::empty());
    assert(sk =~= head + a1 + (a2 + a3));
    assert(sk =~= (head + a1) + a2 + a3);
    assert(sk =~= (head + a1 + a2) + a3 + Seq::<u8>::empty());
    assert(32 * e * L + 32 * e * K == 32 * e * (K + L)) by (nonlinear_arith);
    assert(sk_s2_offset::<P>() == (head + a1).len());
    assert(sk_t0_offset::<P>() == (head + a1 + a2).len()) by {
        assert(32 * e * (L + K) == 32 * e * L + 32 * e * K) by (nonlinear_arith);
    }
    assert(sk.subrange(0, 32) =~= rho);
    assert(sk.subrange(32, 64) =~= k_seed);
    assert(sk.subrange(64, 128) =~= tr);
    assert forall|i: int, j: int| 0 <= i < L && 0 <= j < N implies sk_s1_coeff::<P>(sk, i, j)
        == #[trigger] s1.v[i].coeffs@[j] by {
        assert(field(sk, 128, (32 * e) as int, i) == field(
            head + a1 + (a2 + a3),
            head.len() as int,
            (32 * e) as int,
            i,
        ));
    }
}

/// Every secret key of the right length re-encodes to itself after skDecode.
pub proof fn lemma_sk_encode_of_decode<P: ParameterSet, const K: usize, const L: usize>(
    sk: Seq<u8>,
    d: DecodedSk<K, L>,
)
    requires
        K == P::K,
        L == P::L,
        sk.len() == P::SK_BYTES,
        sk_decoded::<P, K, L>(sk, d),
    ensures
        sk_encoding::<P, K, L>(d.0@, d.1@, d.2@, d.3, d.4, d.5) == sk,
{
    lemma_sizes::<P>();
    lemma_bitlen_constants();
    let eta = P::ETA as u32;
    let e = eta_bits::<P>();
    assert(bitlen_spec((eta + eta) as nat) == e);
    assert(bitlen_spec((T0_A + T0_B) as nat) == 13);
    let (rho, k_seed, tr, s1, s2, t0) = d;
    assert(32 * e * L + 32 * e * K == 32 * e * (K + L)) by (nonlinear_arith);
    assert(32 * e * (L + K) == 32 * e * L + 32 * e * K) by (nonlinear_arith);
    lemma_signed_run_encode::<L>(sk, 128, eta, eta, s1);
    lemma_signed_run_encode::<K>(sk, sk_s2_offset::<P>(), eta, eta, s2);
    lemma_signed_run_encode::<K>(sk, sk_t0_offset::<P>(), T0_A, T0_B, t0);
    let o2 = sk_s2_offset::<P>();
    let o3 = sk_t0_offset::<P>();
    assert(sk.subrange(0, 32) + sk.subrange(32, 64) + sk.subrange(64, 128) + sk.subrange(128, o2)
        + sk.subrange(o2, o3) + sk.subrange(o3, o3 + 416 * K) =~= sk);
}

/// The BitPack(γ1 − 1, γ1) encodings of the polynomials of `z`.
pub open spec fn z_parts<P: ParameterSet, const L: usize>(z: PolyVec<L>) -> Seq<Seq<u8>> {
    signed_parts(z, P::GAMMA1 as u32, z_bits::<P>())
}

/// sigEncode: `c~ ‖ z ‖ h`, with `z` packed polynomial by polynomial and `h` by HintBitPack.
pub open spec fn sig_encoding<P: ParameterSet, const K: usize, const L: usize>(
    c_tilde: Seq<u8>,
    z: PolyVec<L>,
    h: PolyVec<K>,
) -> Seq<u8> {
    c_tilde + concat_parts(z_parts::<P, L>(z), L as nat) + hint_encoding(pv(h), P::OMEGA as nat)
}

/// Where sigDecode finds the hint: after `c~` and the `L` polynomials of `z`.
pub open spec fn sig_hint_offset<P: ParameterSet>() -> int {
    P::C_TILDE_BYTES + 32 * z_bits::<P>() * P::L
}

/// The hint bytes of a signature.
pub open spec fn sig_hint_bytes<P: ParameterSet>(sig: Seq<u8>) -> Seq<u8> {
    sig.subrange(sig_hint_offset::<P>(), sig.len() as int)
}

/// sigDecode's `z`: coefficient `j` of polynomial `i`.
pub open spec fn sig_z_coeff<P: ParameterSet>(sig: Seq<u8>, i: int, j: int) -> int {
    P::GAMMA1 - read_value(
        field(sig, P::C_TILDE_BYTES as int, (32 * z_bits::<P>()) as int, i),
        z_bits::<P>(),
        j,
    )
}

/// FIPS 204, Algorithm 26 — sigEncode.
pub fn sig_encode<P: ParameterSet, const K: usize, const L: usize>(
    c_tilde: &[u8],
    z: &PolyVec<L>,
    h: &PolyVec<K>,
) -> (sig: Vec<u8>)
    requires
        K == P::K,
        L == P::L,
        hint_positions(pv(*h), K as nat).len() <= P::OMEGA,
    ensures
        sig@ == sig_encoding::<P, K, L>(c_tilde@, *z, *h),
        c_tilde@.len() == P::C_TILDE_BYTES ==> sig@.len() == P::SIG_BYTES,
{
    proof {
        lemma_sizes::<P>();
    }
    let g1 = P::GAMMA1 as u32;
    let mut sig: Vec<u8> = Vec::with_capacity(P::SIG_BYTES);
    append_bytes(&mut sig, c_tilde);
    for i in 0..L
        invariant
            L == P::L,
            g1 == P::GAMMA1,
            g1 == 131072 || g1 == 524288,
            sig@ == c_tilde@ + concat_parts(z_parts::<P, L>(*z), i as nat),
    {
        let mut part = bit_pack(&z.v[i], g1 - 1, g1);
        proof {
            assert((g1 - 1 + g1) as nat == (2 * P::GAMMA1 - 1) as nat);
        }
        pk_part_step(&mut sig, &mut part);
        assert(c_tilde@ + concat_parts(z_parts::<P, L>(*z), (i + 1) as nat) =~= c_tilde@
            + concat_parts(z_parts::<P, L>(*z), i as nat) + z_parts::<P, L>(*z)[i as int]);
    }
    let mut hb = hint_bit_pack::<P, K>(h);
    let ghost before = sig@;
    sig.append(&mut hb);
    proof {
        let zb = z_bits::<P>();
        assert forall|k: int| 0 <= k < L implies (#[trigger] z_parts::<P, L>(*z)[k]).len() == 32
            * zb by {
            crate::encoding::lemma_packed_len(signed_pack_values(z.v[k].coeffs@, g1), zb);
        }
        lemma_parts_len(z_parts::<P, L>(*z), L as nat, 32 * zb);
        let p = hint_positions(pv(*h), K as nat);
        assert(hint_encoding(pv(*h), P::OMEGA as nat).len() == P::OMEGA + K);
    }
    sig
}

/// FIPS 204, Algorithm 27 — sigDecode. Length-checked; `⊥` (`Reject`) on a malformed hint.
pub fn sig_decode<P: ParameterSet, const K: usize, const L: usize>(sig: &[u8]) -> (r: Result<
    (Vec<u8>, PolyVec<L>, PolyVec<K>),
>)
    requires
        K == P::K,
        L == P::L,
    ensures
        sig@.len() != P::SIG_BYTES ==> r == (Err::<(Vec<u8>, PolyVec<L>, PolyVec<K>), Error>(
            Error::InvalidLength { expected: P::SIG_BYTES, got: sig@.len() as usize },
        )),
        sig@.len() == P::SIG_BYTES && !hint_well_formed(
            sig_hint_bytes::<P>(sig@),
            P::OMEGA as nat,
            K as nat,
        ) ==> r == (Err::<(Vec<u8>, PolyVec<L>, PolyVec<K>), Error>(Error::Reject)),
        sig@.len() == P::SIG_BYTES && hint_well_formed(
            sig_hint_bytes::<P>(sig@),
            P::OMEGA as nat,
            K as nat,
        ) ==> (r matches Ok((c_tilde, z, h)) && sig_decoded::<P, K, L>(sig@, c_tilde@, z, h)),
{
    proof {
        lemma_sizes::<P>();
    }
    if sig.len() != P::SIG_BYTES {
        return Err(Error::InvalidLength { expected: P::SIG_BYTES, got: sig.len() });
    }
    let zb = z_bytes::<P>();
    let g1 = P::GAMMA1 as u32;
    let ct = P::C_TILDE_BYTES;
    let c_tilde = vstd::slice::slice_to_vec(vstd::slice::slice_subrange(sig, 0, ct));
    proof {
        assert(ct + zb * L + P::OMEGA + K == P::SIG_BYTES) by (nonlinear_arith)
            requires
                P::SIG_BYTES == P::C_TILDE_BYTES + 32 * z_bits::<P>() * L + P::OMEGA + K,
                zb == 32 * z_bits::<P>(),
                ct == P::C_TILDE_BYTES,
        ;
        assert((g1 - 1 + g1) as nat == (2 * P::GAMMA1 - 1) as nat);
    }
    let z = unpack_run::<L>(sig, ct, g1 - 1, g1, zb);
    let off = ct + zb * L;
    proof {
        assert(off == sig_hint_offset::<P>()) by (nonlinear_arith)
            requires
                zb == 32 * z_bits::<P>(),
                ct == P::C_TILDE_BYTES,
                off == ct + zb * L,
                L == P::L,
        ;
    }
    let hbytes = vstd::slice::slice_subrange(sig, off, sig.len());
    match hint_bit_unpack::<P, K>(hbytes) {
        Some(h) => Ok((c_tilde, z, h)),
        None => Err(Error::Reject),
    }
}

/// The decoded signature is the one that sigDecode reads from `sig`.
pub open spec fn sig_decoded<P: ParameterSet, const K: usize, const L: usize>(
    sig: Seq<u8>,
    c_tilde: Seq<u8>,
    z: PolyVec<L>,
    h: PolyVec<K>,
) -> bool {
    &&& c_tilde == sig.subrange(0, P::C_TILDE_BYTES as int)
    &&& forall|i: int, j: int|
        0 <= i < L && 0 <= j < N ==> #[trigger] z.v[i].coeffs@[j] == sig_z_coeff::<P>(sig, i, j)
    &&& forall|i: int, j: int|
        0 <= i < K && 0 <= j < N ==> #[trigger] h.v[i].coeffs@[j] == hint_coeff(
            sig_hint_bytes::<P>(sig),
            P::OMEGA as nat,
            i,
            j,
        )
}

/// Decoding an encoded signature gives back `c~`, `z` and `h`, for `z` in `[−γ1 + 1, γ1]`
/// and a binary `h` with at most `ω` ones.
pub proof fn lemma_sig_decode_of_encode<P: ParameterSet, const K: usize, const L: usize>(
    c_tilde: Seq<u8>,
    z: PolyVec<L>,
    h: PolyVec<K>,
)
    requires
        K == P::K,
        L == P::L,
        c_tilde.len() == P::C_TILDE_BYTES,
        forall|i: int, j: int|
            0 <= i < L && 0 <= j < N ==> -(P::GAMMA1 - 1) <= #[trigger] vc(z, i, j) <= P::GAMMA1,
        forall|i: int, j: int|
            0 <= i < K && 0 <= j < N ==> #[trigger] vc(h, i, j) == 0 || vc(h, i, j) == 1,
        hint_positions(pv(h), K as nat).len() <= P::OMEGA,
    ensures
        ({
            let sig = sig_encoding::<P, K, L>(c_tilde, z, h);
            &&& sig.len() == P::SIG_BYTES
            &&& hint_well_formed(sig_hint_bytes::<P>(sig), P::OMEGA as nat, K as nat)
            &&& sig_decoded::<P, K, L>(sig, c_tilde, z, h)
        }),
{
    lemma_sizes::<P>();
    let g1 = P::GAMMA1 as u32;
    let zb = z_bits::<P>();
    assert(bitlen_spec((g1 - 1 + g1) as nat) == zb);
    let run = concat_parts(z_parts::<P, L>(z), L as nat);
    let he = hint_encoding(pv(h), P::OMEGA as nat);
    let sig = sig_encoding::<P, K, L>(c_tilde, z, h);
    lemma_signed_run_decode(c_tilde, z, (g1 - 1) as u32, g1, he);
    assert forall|i: int, j: int| 0 <= i < K && 0 <= j < N implies #[trigger] pv(h)[i][j] == 0
        || pv(h)[i][j] == 1 by {
        assert(vc(h, i, j) == pv(h)[i][j]);
    }
    lemma_hint_unpack_of_pack(pv(h), P::OMEGA as nat);
    assert(he.len() == P::OMEGA + K);
    assert(sig_hint_offset::<P>() == (c_tilde + run).len());
    assert(sig_hint_bytes::<P>(sig) =~= he);
    assert(sig.subrange(0, P::C_TILDE_BYTES as int) =~= c_tilde);
    assert forall|i: int, j: int| 0 <= i < K && 0 <= j < N implies #[trigger] h.v[i].coeffs@[j]
        == hint_coeff(sig_hint_bytes::<P>(sig), P::OMEGA as nat, i, j) by {
        assert(pv(h)[i][j] == h.v[i].coeffs@[j]);
    }
}

/// Every signature that sigDecode accepts re-encodes to itself: no non-canonical hint
/// or `z` encoding is accepted.
#[verifier::spinoff_prover]
#[verifier::rlimit(40)]
pub proof fn lemma_sig_encode_of_decode<P: ParameterSet, const K: usize, const L: usize>(
    sig: Seq<u8>,
    c_tilde: Seq<u8>,
    z: PolyVec<L>,
    h: PolyVec<K>,
)
    requires
        K == P::K,
        L == P::L,
        sig.len() == P::SIG_BYTES,
        hint_well_formed(sig_hint_bytes::<P>(sig), P::OMEGA as nat, K as nat),
        sig_decoded::<P, K, L>(sig, c_tilde, z, h),
    ensures
        sig_encoding::<P, K, L>(c_tilde, z, h) == sig,
        hint_positions(pv(h), K as nat).len() <= P::OMEGA,
{
    lemma_sizes::<P>();
    let g1 = P::GAMMA1 as u32;
    let zb = z_bits::<P>();
    assert(bitlen_spec((g1 - 1 + g1) as nat) == zb);
    assert(32 * zb * L <= sig.len());
    lemma_signed_run_encode::<L>(sig, P::C_TILDE_BYTES as int, (g1 - 1) as u32, g1, z);
    let hb = sig_hint_bytes::<P>(sig);
    assert forall|i: int, j: int| 0 <= i < K && 0 <= j < N implies #[trigger] pv(h)[i][j]
        == hint_coeff(hb, P::OMEGA as nat, i, j) by {
        assert(pv(h)[i][j] == h.v[i].coeffs@[j]);
    }
    lemma_hint_pack_of_unpack(hb, P::OMEGA as nat, pv(h));
    let off = sig_hint_offset::<P>();
    assert(sig.subrange(0, P::C_TILDE_BYTES as int) + sig.subrange(P::C_TILDE_BYTES as int, off)
        + hb =~= sig);
    let p = hint_positions(pv(h), K as nat);
    if p.len() > P::OMEGA {
        assert(hint_encoding(pv(h), P::OMEGA as nat).len() == p.len() + K);
    }
}

/// The SimpleBitPack encodings of the polynomials of `w1`.
pub open spec fn w1_parts<P: ParameterSet, const K: usize>(w1: PolyVec<K>) -> Seq<Seq<u8>> {
    Seq::new(
        K as nat,
        |i: int|
            packed_bytes(simple_pack_values(w1.v[i].coeffs@), bitlen_spec(w1_top_spec::<P>() as nat)),
    )
}

/// FIPS 204, Algorithm 28 — w1Encode.
pub fn w1_encode<P: ParameterSet, const K: usize>(w1: &PolyVec<K>) -> (out: Vec<u8>)
    ensures
        out@ == concat_parts(w1_parts::<P, K>(*w1), K as nat),
{
    let top = w1_top::<P>();
    let mut out: Vec<u8> = Vec::new();
    for i in 0..K
        invariant
            top == w1_top_spec::<P>(),
            out@ == concat_parts(w1_parts::<P, K>(*w1), i as nat),
    {
        let mut part = simple_bit_pack(&w1.v[i], top);
        pk_part_step(&mut out, &mut part);
        assert(concat_parts(w1_parts::<P, K>(*w1), (i + 1) as nat) =~= concat_parts(
            w1_parts::<P, K>(*w1),
            i as nat,
        ) + w1_parts::<P, K>(*w1)[i as int]);
    }
    out
}

/// SimpleBitPack's values for a modelled polynomial: each coefficient as the 32-bit
/// pattern the exec code packs.
pub open spec fn simple_vals_m(p: Seq<int>) -> Seq<nat> {
    Seq::new(N as nat, |j: int| ((p[j] as i32) as u64) as nat)
}

/// BitPack's values for a modelled polynomial: `b − p_j`.
pub open spec fn signed_vals_m(p: Seq<int>, b: u32) -> Seq<nat> {
    Seq::new(N as nat, |j: int| ((b - (p[j] as i32)) as u64) as nat)
}

/// The BitPack encodings of the polynomials of a modelled vector.
pub open spec fn signed_parts_m(s: Seq<Seq<int>>, b: u32, c: nat) -> Seq<Seq<u8>> {
    Seq::new(s.len(), |i: int| packed_bytes(signed_vals_m(s[i], b), c))
}

/// pkEncode over models: `ρ ‖ SimpleBitPack(t1_i, 1023)…`.
pub open spec fn pk_bytes(rho: Seq<u8>, t1: Seq<Seq<int>>) -> Seq<u8> {
    rho + concat_parts(
        Seq::new(t1.len(), |i: int| packed_bytes(simple_vals_m(t1[i]), 10)),
        t1.len(),
    )
}

/// skEncode over models.
pub open spec fn sk_bytes<P: ParameterSet>(
    rho: Seq<u8>,
    k_seed: Seq<u8>,
    tr: Seq<u8>,
    s1: Seq<Seq<int>>,
    s2: Seq<Seq<int>>,
    t0: Seq<Seq<int>>,
) -> Seq<u8> {
    rho + k_seed + tr + concat_parts(signed_parts_m(s1, P::ETA as u32, eta_bits::<P>()), s1.len())
        + concat_parts(signed_parts_m(s2, P::ETA as u32, eta_bits::<P>()), s2.len())
        + concat_parts(signed_parts_m(t0, T0_B, 13), t0.len())
}

/// sigEncode over models.
pub open spec fn sig_bytes<P: ParameterSet>(c_tilde: Seq<u8>, z: Seq<Seq<int>>, h: Seq<Seq<int>>) -> Seq<
    u8,
> {
    c_tilde + concat_parts(signed_parts_m(z, P::GAMMA1 as u32, z_bits::<P>()), z.len())
        + hint_encoding(h, P::OMEGA as nat)
}

/// w1Encode over models.
pub open spec fn w1_bytes<P: ParameterSet>(w1: Seq<Seq<int>>) -> Seq<u8> {
    concat_parts(
        Seq::new(
            w1.len(),
            |i: int| packed_bytes(simple_vals_m(w1[i]), bitlen_spec(w1_top_spec::<P>() as nat)),
        ),
        w1.len(),
    )
}

/// The packed values of a polynomial are those of its model.
proof fn lemma_vals_m(c: [i32; N], b: u32)
    ensures
        simple_pack_values(c@) == simple_vals_m(crate::ntt::coeffs_int(c)),
        signed_pack_values(c@, b) == signed_vals_m(crate::ntt::coeffs_int(c), b),
{
    assert(simple_pack_values(c@) =~= simple_vals_m(crate::ntt::coeffs_int(c)));
    assert(signed_pack_values(c@, b) =~= signed_vals_m(crate::ntt::coeffs_int(c), b));
}

/// Signed parts of a vector are those of its model.
proof fn lemma_signed_parts_m<const M: usize>(s: PolyVec<M>, b: u32, c: nat)
    ensures
        signed_parts(s, b, c) == signed_parts_m(pv(s), b, c),
{
    assert forall|i: int| 0 <= i < M implies #[trigger] signed_parts(s, b, c)[i] == signed_parts_m(
        pv(s),
        b,
        c,
    )[i] by {
        lemma_vals_m(s.v[i].coeffs, b);
    }
    assert(signed_parts(s, b, c) =~= signed_parts_m(pv(s), b, c));
}

/// pkEncode of a vector is pkEncode of its model.
pub proof fn lemma_pk_bytes<const K: usize>(rho: Seq<u8>, t1: PolyVec<K>)
    ensures
        pk_encoding(rho, t1) == pk_bytes(rho, pv(t1)),
{
    let m = Seq::new(K as nat, |i: int| packed_bytes(simple_vals_m(pv(t1)[i]), 10));
    assert forall|i: int| 0 <= i < K implies #[trigger] t1_parts(t1)[i] == m[i] by {
        lemma_vals_m(t1.v[i].coeffs, 0);
    }
    assert(t1_parts(t1) =~= m);
}

/// skEncode of vectors is skEncode of their models.
pub proof fn lemma_sk_bytes<P: ParameterSet, const K: usize, const L: usize>(
    rho: Seq<u8>,
    k_seed: Seq<u8>,
    tr: Seq<u8>,
    s1: PolyVec<L>,
    s2: PolyVec<K>,
    t0: PolyVec<K>,
)
    ensures
        sk_encoding::<P, K, L>(rho, k_seed, tr, s1, s2, t0) == sk_bytes::<P>(
            rho,
            k_seed,
            tr,
            pv(s1),
            pv(s2),
            pv(t0),
        ),
{
    lemma_signed_parts_m(s1, P::ETA as u32, eta_bits::<P>());
    lemma_signed_parts_m(s2, P::ETA as u32, eta_bits::<P>());
    lemma_signed_parts_m(t0, T0_B, 13);
}

/// sigEncode of vectors is sigEncode of their models.
pub proof fn lemma_sig_bytes<P: ParameterSet, const K: usize, const L: usize>(
    c_tilde: Seq<u8>,
    z: PolyVec<L>,
    h: PolyVec<K>,
)
    ensures
        sig_encoding::<P, K, L>(c_tilde, z, h) == sig_bytes::<P>(c_tilde, pv(z), pv(h)),
{
    lemma_signed_parts_m(z, P::GAMMA1 as u32, z_bits::<P>());
}

/// w1Encode of a vector is w1Encode of its model.
pub proof fn lemma_w1_bytes<P: ParameterSet, const K: usize>(w1: PolyVec<K>)
    ensures
        concat_parts(w1_parts::<P, K>(w1), K as nat) == w1_bytes::<P>(pv(w1)),
{
    let c = bitlen_spec(w1_top_spec::<P>() as nat);
    let m = Seq::new(K as nat, |i: int| packed_bytes(simple_vals_m(pv(w1)[i]), c));
    assert forall|i: int| 0 <= i < K implies #[trigger] w1_parts::<P, K>(w1)[i] == m[i] by {
        lemma_vals_m(w1.v[i].coeffs, 0);
    }
    assert(w1_parts::<P, K>(w1) =~= m);
}

} // verus!
