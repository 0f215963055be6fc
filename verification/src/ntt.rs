//! FIPS 204 §7.5 — the Number-Theoretic Transform and its inverse.
//!
//! The zeta convention is observable through the KAT (the matrix `A-hat` is
//! sampled directly in the NTT domain), so it follows the standard exactly:
//! `zetas[m] = ζ^BitRev8(m) mod q` with `ζ = 1753`.
use crate::field::{mod_q, montgomery_reduce, montgomery_spec, reduce_q};
use crate::params::{N, Q};
use crate::poly::{Poly, PolyNTT};
use vstd::arithmetic::power::pow;
use vstd::prelude::*;

verus! {

/// `ζ = 1753`, a 512th root of unity modulo `q`.
pub const ZETA: i64 = 1753;

/// `256^{-1} mod q`, applied at the end of NTT^{-1}.
pub const F_256_INV: i64 = 8_347_681;

/// BitRev8 as a bit permutation: bit `k` of the result is bit `7 - k` of `m`.
pub open spec fn bit_rev_8_spec(m: u8) -> u8 {
    ((m & 1) << 7) | ((m & 2) << 5) | ((m & 4) << 3) | ((m & 8) << 1) | ((m & 16) >> 1) | ((m
        & 32) >> 3) | ((m & 64) >> 5) | ((m & 128) >> 7)
}

/// The bits of `bit_rev_8_spec(m)` above position `7 - i`, i.e. those that come
/// from bits `0..i` of `m`.
pub open spec fn bit_rev_8_partial(m: u8, i: u8) -> u8 {
    bit_rev_8_spec(m) & (((0xff00u16 >> i) & 0xff) as u8)
}

proof fn lemma_bit_rev_8_step(m: u8, i: u8, r: u8)
    by (bit_vector)
    requires
        i < 8,
        r == bit_rev_8_spec(m) & (((0xff00u16 >> i) & 0xff) as u8),
    ensures
        (r | (((m >> i) & 1) << ((7 - i) as u8))) == bit_rev_8_spec(m) & (((0xff00u16 >> ((i
            + 1) as u8)) & 0xff) as u8),
{
}

proof fn lemma_bit_rev_8_ends(m: u8)
    by (bit_vector)
    ensures
        bit_rev_8_spec(m) & (((0xff00u16 >> 0u8) & 0xff) as u8) == 0,
        bit_rev_8_spec(m) & (((0xff00u16 >> 8u8) & 0xff) as u8) == bit_rev_8_spec(m),
{
}

/// FIPS 204, Algorithm 43 — BitRev8: reverse the bits of an 8-bit integer.
pub fn bit_rev_8(m: u8) -> (r: u8)
    ensures
        r == bit_rev_8_spec(m),
{
    let mut r = 0u8;
    let mut i: u8 = 0;
    proof {
        lemma_bit_rev_8_ends(m);
    }
    while i < 8
        invariant
            i <= 8,
            r == bit_rev_8_partial(m, i),
        decreases 8 - i,
    {
        proof {
            lemma_bit_rev_8_step(m, i, r);
        }
        r |= ((m >> i) & 1) << (7 - i);
        i += 1;
    }
    proof {
        lemma_bit_rev_8_ends(m);
    }
    r
}

/// `zetas[m] = ζ^BitRev8(m) mod q`.
pub open spec fn zeta_spec(m: int) -> int {
    pow(ZETA as int, bit_rev_8_spec(m as u8) as nat) % (Q as int)
}

/// One step of square-and-multiply: `b^e = (b^2)^(e/2) · b^(e mod 2)`.
proof fn lemma_pow_halve(b: int, e: nat)
    ensures
        pow(b, e) == pow(b * b, e / 2) * (if e % 2 == 1 { b } else { 1 }),
{
    vstd::arithmetic::power::lemma_square_is_pow2(b);
    vstd::arithmetic::power::lemma_pow_multiplies(b, 2, e / 2);
    vstd::arithmetic::power::lemma_pow_adds(b, 2 * (e / 2), e % 2);
    vstd::arithmetic::power::lemma_pow1(b);
    vstd::arithmetic::power::lemma_pow0(b);
}

/// Modular exponentiation `base^exp mod q` by square-and-multiply.
pub fn pow_mod(base: i64, exp: u64, q: i64) -> (r: i64)
    requires
        base >= 0,
        0 < q <= 3_037_000_499,
    ensures
        r == pow(base as int, exp as nat) % (q as int),
{
    let mut result: i64 = 1 % q;
    let mut b = base % q;
    let mut e = exp;
    proof {
        vstd::arithmetic::power::lemma_pow_mod_noop(base as int, exp as nat, q as int);
        vstd::arithmetic::div_mod::lemma_mul_mod_noop_left(1, pow(b as int, exp as nat), q as int);
    }
    while e > 0
        invariant
            0 <= result < q,
            0 <= b < q,
            0 < q <= 3_037_000_499,
            (result * pow(b as int, e as nat)) % (q as int) == pow(base as int, exp as nat) % (
            q as int),
        decreases e,
    {
        proof {
            lemma_pow_halve(b as int, e as nat);
            assert(b * b <= 3_037_000_499 * 3_037_000_499) by (nonlinear_arith)
                requires
                    0 <= b < 3_037_000_499,
            ;
            assert(result * b <= 3_037_000_499 * 3_037_000_499) by (nonlinear_arith)
                requires
                    0 <= b < 3_037_000_499,
                    0 <= result < 3_037_000_499,
            ;
        }
        let ghost old_r = result;
        let ghost old_b = b;
        let ghost old_e = e;
        if e & 1 == 1 {
            result = result * b % q;
        }
        b = b * b % q;
        e >>= 1;
        proof {
            assert(e == old_e / 2 && (old_e & 1 == 1 <==> old_e % 2 == 1)) by (bit_vector)
                requires
                    e == old_e >> 1,
            ;
            let qi = q as int;
            let p = pow(old_b * old_b, e as nat);
            let f = if old_e % 2 == 1 {
                old_b as int
            } else {
                1
            };
            assert(pow(old_b as int, old_e as nat) == p * f);
            vstd::arithmetic::power::lemma_pow_mod_noop(old_b * old_b, e as nat, qi);
            vstd::arithmetic::div_mod::lemma_small_mod(old_r as nat, qi as nat);
            assert(result == (old_r * f) % qi);
            vstd::arithmetic::div_mod::lemma_mul_mod_noop_left(old_r * f, pow(b as int, e as nat), qi);
            vstd::arithmetic::div_mod::lemma_mul_mod_noop_right(old_r * f, p, qi);
            assert(pow(b as int, e as nat) % qi == p % qi);
            assert((result * pow(b as int, e as nat)) % qi == ((old_r * f) * p) % qi) by {
                vstd::arithmetic::div_mod::lemma_mul_mod_noop_left(old_r * f, pow(b as int, e as nat), qi);
                vstd::arithmetic::div_mod::lemma_mul_mod_noop_right(old_r * f, pow(b as int, e as nat), qi);
                vstd::arithmetic::div_mod::lemma_mul_mod_noop_right(old_r * f, p, qi);
            }
            assert((old_r * f) * p == old_r * (p * f)) by (nonlinear_arith);
        }
    }
    proof {
        vstd::arithmetic::power::lemma_pow0(b as int);
        vstd::arithmetic::div_mod::lemma_small_mod(result as nat, q as nat);
    }
    result
}

/// The table `zetas[m] = ζ^BitRev8(m) mod q`, in `[0, q)`.
pub fn zetas() -> (z: [i32; N])
    ensures
        forall|m: int| 0 <= m < N ==> (#[trigger] z[m]) == zeta_spec(m),
        forall|m: int| 0 <= m < N ==> 0 <= #[trigger] z[m] < Q,
{
    let mut z = [0i32; N];
    for m in 0..N
        invariant
            forall|k: int| 0 <= k < m ==> (#[trigger] z[k]) == zeta_spec(k),
            forall|k: int| 0 <= k < m ==> 0 <= #[trigger] z[k] < Q,
    {
        let e = bit_rev_8(m as u8);
        let v = pow_mod(ZETA, e as u64, Q as i64);
        z[m] = v as i32;
    }
    z
}

/// Squaring step for powers of `ζ` modulo `q`.
proof fn lemma_zeta_square(e: nat, v: int)
    requires
        pow(ZETA as int, e) % (Q as int) == v,
    ensures
        pow(ZETA as int, 2 * e) % (Q as int) == (v * v) % (Q as int),
{
    vstd::arithmetic::power::lemma_pow_adds(ZETA as int, e, e);
    vstd::arithmetic::div_mod::lemma_mul_mod_noop(
        pow(ZETA as int, e),
        pow(ZETA as int, e),
        Q as int,
    );
}

/// `ζ^256 ≡ -1 (mod q)`: `ζ` is a primitive 512th root of unity.
pub proof fn lemma_zeta_pow_256()
    ensures
        pow(ZETA as int, 256) % (Q as int) == Q - 1,
{
    vstd::arithmetic::power::lemma_pow1(ZETA as int);
    lemma_zeta_square(1, 1753);
    lemma_zeta_square(2, 3073009);
    lemma_zeta_square(4, 3602218);
    lemma_zeta_square(8, 5010068);
    lemma_zeta_square(16, 7778734);
    lemma_zeta_square(32, 5178923);
    lemma_zeta_square(64, 3765607);
    lemma_zeta_square(128, 4808194);
}

/// `nb` is one of the block counts `1, 2, 4, ..., 128` of the NTT layers.
pub open spec fn layer_blocks_ok(nb: int) -> bool {
    nb == 1 || nb == 2 || nb == 4 || nb == 8 || nb == 16 || nb == 32 || nb == 64 || nb == 128
}

proof fn lemma_bit_rev_pair(nb: u8, m: u8, p: u8)
    by (bit_vector)
    requires
        nb == 1 || nb == 2 || nb == 4 || nb == 8 || nb == 16 || nb == 32 || nb == 64 || nb
            == 128,
        nb <= m,
        m < 2 * nb,
        p == (3 * nb - 1 - m) as u8,
    ensures
        bit_rev_8_spec(m) as u16 + bit_rev_8_spec(p) as u16 == 256,
{
}

/// The forward zeta of block `m` and the inverse transform's zeta of its partner
/// multiply to `-1`: `zetas[m] · zetas[3nb − 1 − m] ≡ -1 (mod q)`.
pub proof fn lemma_zeta_pair(nb: int, m: int)
    requires
        layer_blocks_ok(nb),
        nb <= m < 2 * nb,
    ensures
        (zeta_spec(m) * zeta_spec(3 * nb - 1 - m)) % (Q as int) == Q - 1,
{
    let p = 3 * nb - 1 - m;
    lemma_bit_rev_pair(nb as u8, m as u8, p as u8);
    let e1 = bit_rev_8_spec(m as u8) as nat;
    let e2 = bit_rev_8_spec(p as u8) as nat;
    vstd::arithmetic::power::lemma_pow_adds(ZETA as int, e1, e2);
    vstd::arithmetic::div_mod::lemma_mul_mod_noop(
        pow(ZETA as int, e1),
        pow(ZETA as int, e2),
        Q as int,
    );
    lemma_zeta_pow_256();
}

/// Half-block length of forward layer `s` (`s = 0..8`): `128, 64, ..., 1`.
pub open spec fn layer_len(s: int) -> int {
    if s <= 0 {
        128
    } else if s == 1 {
        64
    } else if s == 2 {
        32
    } else if s == 3 {
        16
    } else if s == 4 {
        8
    } else if s == 5 {
        4
    } else if s == 6 {
        2
    } else {
        1
    }
}

/// 256 coefficients, each in `[0, q)`.
pub open spec fn canonical(a: Seq<int>) -> bool {
    &&& a.len() == N
    &&& forall|i: int| 0 <= i < N ==> 0 <= #[trigger] a[i] < Q
}

/// Every coefficient reduced modulo `q`.
pub open spec fn reduce_all(a: Seq<int>) -> Seq<int> {
    Seq::new(N as nat, |i: int| mod_q(a[i]))
}

/// Every coefficient multiplied by `c`, modulo `q`.
pub open spec fn scale(a: Seq<int>, c: int) -> Seq<int> {
    Seq::new(N as nat, |i: int| mod_q(c * a[i]))
}

/// One Cooley–Tukey layer of Algorithm 41 with half-block length `len`: block
/// `b` uses `zetas[128/len + b]` and maps `(x, y)` to `(x + z·y, x − z·y)`.
pub open spec fn fwd_layer(a: Seq<int>, len: int) -> Seq<int> {
    Seq::new(
        N as nat,
        |i: int|
            {
                let z = zeta_spec(128int / len + i / (2 * len));
                if i % (2 * len) < len {
                    mod_q(a[i] + mod_q(z * a[i + len]))
                } else {
                    mod_q(a[i - len] - mod_q(z * a[i]))
                }
            },
    )
}

/// The first `s` layers of Algorithm 41.
pub open spec fn ntt_upto(a: Seq<int>, s: nat) -> Seq<int>
    decreases s,
{
    if s == 0 {
        a
    } else {
        fwd_layer(ntt_upto(a, (s - 1) as nat), layer_len(s - 1))
    }
}

/// FIPS 204, Algorithm 41 — NTT, on coefficient sequences.
pub open spec fn ntt_spec(w: Seq<int>) -> Seq<int> {
    ntt_upto(reduce_all(w), 8)
}

/// One Gentleman–Sande layer of Algorithm 42 with half-block length `len`: block
/// `b` uses `-zetas[2·(128/len) − 1 − b]` and maps `(x, y)` to `(x + y, z·(x − y))`.
pub open spec fn inv_layer(a: Seq<int>, len: int) -> Seq<int> {
    Seq::new(
        N as nat,
        |i: int|
            {
                let z = mod_q(-zeta_spec(2 * (128int / len) - 1 - i / (2 * len)));
                if i % (2 * len) < len {
                    mod_q(a[i] + a[i + len])
                } else {
                    mod_q(z * mod_q(a[i - len] - a[i]))
                }
            },
    )
}

/// The first `s` layers of Algorithm 42 (half-block lengths `1, 2, 4, ...`).
pub open spec fn inv_upto(a: Seq<int>, s: nat) -> Seq<int>
    decreases s,
{
    if s == 0 {
        a
    } else {
        inv_layer(inv_upto(a, (s - 1) as nat), layer_len(7 - (s - 1)))
    }
}

/// FIPS 204, Algorithm 42 — NTT^{-1}, on coefficient sequences.
pub open spec fn inv_ntt_spec(w: Seq<int>) -> Seq<int> {
    scale(inv_upto(reduce_all(w), 8), F_256_INV as int)
}

/// Index arithmetic of a layer: position `i = 2·len·b + p` lies in block `b` at offset `p`.
pub proof fn lemma_block_index(i: int, len: int, b: int, p: int)
    requires
        len > 0,
        0 <= p < 2 * len,
        i == 2 * len * b + p,
    ensures
        i / (2 * len) == b,
        i % (2 * len) == p,
{
    vstd::arithmetic::mul::lemma_mul_is_commutative(2 * len, b);
    vstd::arithmetic::div_mod::lemma_fundamental_div_mod_converse(i, 2 * len, b, p);
}

/// The inverse butterfly undoes the forward one, up to a factor of 2.
proof fn lemma_butterfly_inverse(x: int, y: int, z: int, zp: int)
    requires
        (z * zp) % (Q as int) == Q - 1,
    ensures
        ({
            let t = mod_q(z * y);
            let xp = mod_q(x + t);
            let yp = mod_q(x - t);
            &&& mod_q(xp + yp) == mod_q(2 * x)
            &&& mod_q(mod_q(-zp) * mod_q(xp - yp)) == mod_q(2 * y)
        }),
{
    let q = Q as int;
    let t = mod_q(z * y);
    let xp = mod_q(x + t);
    let yp = mod_q(x - t);
    vstd::arithmetic::div_mod::lemma_add_mod_noop(x + t, x - t, q);
    vstd::arithmetic::div_mod::lemma_sub_mod_noop(x + t, x - t, q);
    assert((x + t) + (x - t) == 2 * x);
    assert((x + t) - (x - t) == 2 * t);
    // (-zp mod q) · (2t mod q) ≡ -zp · 2t ≡ -2·zp·z·y ≡ 2y
    vstd::arithmetic::div_mod::lemma_mul_mod_noop(-zp, 2 * t, q);
    vstd::arithmetic::div_mod::lemma_mul_mod_noop_right(-2 * zp, z * y, q);
    assert((-zp) * (2 * t) == (-2 * zp) * t) by (nonlinear_arith);
    assert((-2 * zp) * (z * y) == (-2 * y) * (z * zp)) by (nonlinear_arith);
    vstd::arithmetic::div_mod::lemma_mul_mod_noop_right(-2 * y, z * zp, q);
    assert((-2 * y) * (q - 1) == 2 * y + (-2 * y) * q) by (nonlinear_arith);
    vstd::arithmetic::div_mod::lemma_mod_multiples_vanish(-2 * y, 2 * y, q);
}

/// The inverse butterfly commutes with scaling by `c`.
proof fn lemma_butterfly_linear(x: int, y: int, w: int, c: int)
    ensures
        mod_q(mod_q(c * x) + mod_q(c * y)) == mod_q(c * mod_q(x + y)),
        mod_q(w * mod_q(mod_q(c * x) - mod_q(c * y))) == mod_q(c * mod_q(w * mod_q(x - y))),
{
    let q = Q as int;
    vstd::arithmetic::div_mod::lemma_add_mod_noop(c * x, c * y, q);
    vstd::arithmetic::div_mod::lemma_mul_mod_noop_right(c, x + y, q);
    assert(c * x + c * y == c * (x + y)) by (nonlinear_arith);
    vstd::arithmetic::div_mod::lemma_sub_mod_noop(c * x, c * y, q);
    assert(c * x - c * y == c * (x - y)) by (nonlinear_arith);
    vstd::arithmetic::div_mod::lemma_mul_mod_noop_right(w, c * (x - y), q);
    vstd::arithmetic::div_mod::lemma_mul_mod_noop_right(c, x - y, q);
    vstd::arithmetic::div_mod::lemma_mul_mod_noop_right(w, x - y, q);
    vstd::arithmetic::div_mod::lemma_mul_mod_noop_right(c, w * (x - y), q);
    vstd::arithmetic::div_mod::lemma_mul_mod_noop_right(w, c * mod_q(x - y), q);
    assert(w * (c * (x - y)) == c * (w * (x - y))) by (nonlinear_arith);
}

/// The half-block lengths of the layers.
pub open spec fn len_ok(len: int) -> bool {
    len == 1 || len == 2 || len == 4 || len == 8 || len == 16 || len == 32 || len == 64 || len
        == 128
}

/// `128 / len` is the number of blocks, one of the powers of two up to 128.
pub proof fn lemma_blocks_of_len(len: int)
    requires
        len_ok(len),
    ensures
        layer_blocks_ok(128int / len),
        (128int / len) * len == 128,
        2 * len * (128int / len) == N,
{
    assert(layer_blocks_ok(128int / len) && 2 * len * (128int / len) == N && (128int / len) * len
        == 128) by (nonlinear_arith)
        requires
            len_ok(len),
    {
        if len == 1 {
        } else if len == 2 {
        } else if len == 4 {
        } else if len == 8 {
        } else if len == 16 {
        } else if len == 32 {
        } else if len == 64 {
        } else {
        }
    }
}

/// Where index `i` sits in a layer with half-block length `len`, and where its
/// butterfly partner sits.
pub proof fn lemma_layer_index(i: int, len: int)
    requires
        len_ok(len),
        0 <= i < N,
    ensures
        ({
            let b = i / (2 * len);
            let p = i % (2 * len);
            &&& 0 <= b < 128int / len
            &&& 0 <= p < 2 * len
            &&& i == 2 * len * b + p
            &&& p < len ==> (i + len < N && (i + len) / (2 * len) == b && (i + len) % (2 * len)
                == p + len)
            &&& p >= len ==> (i - len >= 0 && (i - len) / (2 * len) == b && (i - len) % (2
                * len) == p - len)
        }),
{
    lemma_blocks_of_len(len);
    let nb = 128int / len;
    let b = i / (2 * len);
    let p = i % (2 * len);
    vstd::arithmetic::div_mod::lemma_fundamental_div_mod(i, 2 * len);
    vstd::arithmetic::div_mod::lemma_div_pos_is_pos(i, 2 * len);
    assert(b < nb) by (nonlinear_arith)
        requires
            i == 2 * len * b + p,
            0 <= p,
            i < 256,
            2 * len * nb == 256,
            len > 0,
    ;
    if p < len {
        assert(i + len < N) by (nonlinear_arith)
            requires
                i == 2 * len * b + p,
                p < len,
                b + 1 <= nb,
                2 * len * nb == 256,
                len > 0,
        ;
        lemma_block_index(i + len, len, b, p + len);
    } else {
        lemma_block_index(i - len, len, b, p - len);
    }
}

/// Inverse layer after forward layer gives each coefficient doubled, at one index.
proof fn lemma_inv_fwd_elem(a: Seq<int>, len: int, i: int)
    requires
        len_ok(len),
        a.len() == N,
        0 <= i < N,
    ensures
        inv_layer(fwd_layer(a, len), len)[i] == mod_q(2 * a[i]),
{
    lemma_blocks_of_len(len);
    let nb = 128int / len;
    let f = fwd_layer(a, len);
    let b = i / (2 * len);
    let p = i % (2 * len);
    lemma_layer_index(i, len);
    lemma_zeta_pair(nb, nb + b);
    let z = zeta_spec(nb + b);
    let zp = zeta_spec(2 * nb - 1 - b);
    assert(3 * nb - 1 - (nb + b) == 2 * nb - 1 - b);
    if p < len {
        lemma_butterfly_inverse(a[i], a[i + len], z, zp);
    } else {
        lemma_butterfly_inverse(a[i - len], a[i], z, zp);
    }
}

/// Inverse layer after forward layer of the same length doubles every coefficient.
pub proof fn lemma_inv_fwd_layer(a: Seq<int>, len: int)
    requires
        len_ok(len),
        a.len() == N,
    ensures
        inv_layer(fwd_layer(a, len), len) == scale(a, 2),
{
    assert forall|i: int| 0 <= i < N implies inv_layer(fwd_layer(a, len), len)[i] == scale(
        a,
        2,
    )[i] by {
        lemma_inv_fwd_elem(a, len, i);
    }
    assert(inv_layer(fwd_layer(a, len), len) =~= scale(a, 2));
}

/// An inverse layer commutes with scaling.
pub proof fn lemma_inv_layer_scale(a: Seq<int>, len: int, c: int)
    requires
        len_ok(len),
        a.len() == N,
    ensures
        inv_layer(scale(a, c), len) == scale(inv_layer(a, len), c),
{
    lemma_blocks_of_len(len);
    assert forall|i: int| 0 <= i < N implies inv_layer(scale(a, c), len)[i] == scale(
        inv_layer(a, len),
        c,
    )[i] by {
        let b = i / (2 * len);
        let p = i % (2 * len);
        lemma_layer_index(i, len);
        let w = mod_q(-zeta_spec(2 * (128int / len) - 1 - b));
        if p < len {
            lemma_butterfly_linear(a[i], a[i + len], w, c);
        } else {
            lemma_butterfly_linear(a[i - len], a[i], w, c);
        }
    }
    assert(inv_layer(scale(a, c), len) =~= scale(inv_layer(a, len), c));
}

/// Scaling twice is scaling by the product.
pub proof fn lemma_scale_scale(a: Seq<int>, c1: int, c2: int)
    requires
        a.len() == N,
    ensures
        scale(scale(a, c1), c2) == scale(a, c2 * c1),
{
    assert forall|i: int| 0 <= i < N implies scale(scale(a, c1), c2)[i] == scale(a, c2 * c1)[i] by {
        vstd::arithmetic::div_mod::lemma_mul_mod_noop_right(c2, c1 * a[i], Q as int);
        assert(c2 * (c1 * a[i]) == (c2 * c1) * a[i]) by (nonlinear_arith);
    }
    assert(scale(scale(a, c1), c2) =~= scale(a, c2 * c1));
}

/// Scaling by 1 leaves canonical coefficients unchanged.
pub proof fn lemma_scale_one(a: Seq<int>)
    requires
        canonical(a),
    ensures
        scale(a, 1) == a,
        reduce_all(a) == a,
{
    assert forall|i: int| 0 <= i < N implies scale(a, 1)[i] == a[i] && reduce_all(a)[i] == a[i] by {
        vstd::arithmetic::div_mod::lemma_small_mod(a[i] as nat, Q as nat);
    }
    assert(scale(a, 1) =~= a);
    assert(reduce_all(a) =~= a);
}

/// A forward layer's output is canonical.
pub proof fn lemma_fwd_layer_canonical(a: Seq<int>, len: int)
    ensures
        canonical(fwd_layer(a, len)),
{
}

/// Every prefix of forward layers of a canonical input is canonical.
pub proof fn lemma_ntt_upto_canonical(a: Seq<int>, s: nat)
    requires
        canonical(a),
    ensures
        canonical(ntt_upto(a, s)),
    decreases s,
{
    if s > 0 {
        lemma_fwd_layer_canonical(ntt_upto(a, (s - 1) as nat), layer_len(s - 1));
    }
}

/// `2^j` for the layer count `j`.
pub open spec fn two_pow(j: nat) -> int
    decreases j,
{
    if j == 0 {
        1
    } else {
        2 * two_pow((j - 1) as nat)
    }
}

/// The first `j` inverse layers undo the last `j` forward layers, up to `2^j`.
proof fn lemma_inv_upto_ntt_upto(a: Seq<int>, j: nat)
    requires
        canonical(a),
        j <= 8,
    ensures
        inv_upto(ntt_upto(a, 8), j) == scale(ntt_upto(a, (8 - j) as nat), two_pow(j)),
    decreases j,
{
    if j == 0 {
        lemma_ntt_upto_canonical(a, 8);
        lemma_scale_one(ntt_upto(a, 8));
    } else {
        lemma_inv_upto_ntt_upto(a, (j - 1) as nat);
        let k = (8 - j) as nat;
        let len = layer_len(k as int);
        let c = ntt_upto(a, k);
        lemma_ntt_upto_canonical(a, k);
        assert(ntt_upto(a, (k + 1) as nat) == fwd_layer(c, len));
        assert(layer_len(7 - (j - 1)) == len);
        lemma_inv_layer_scale(fwd_layer(c, len), len, two_pow((j - 1) as nat));
        lemma_inv_fwd_layer(c, len);
        lemma_scale_scale(c, 2, two_pow((j - 1) as nat));
    }
}

/// NTT^{-1} is a left inverse of NTT: `NTT^{-1}(NTT(w)) = w mod q`, coefficientwise.
pub proof fn lemma_inv_ntt_of_ntt(w: Seq<int>)
    requires
        w.len() == N,
    ensures
        inv_ntt_spec(ntt_spec(w)) == reduce_all(w),
{
    let a = reduce_all(w);
    assert(canonical(a));
    lemma_ntt_upto_canonical(a, 8);
    lemma_scale_one(ntt_upto(a, 8));
    lemma_inv_upto_ntt_upto(a, 8);
    reveal_with_fuel(two_pow, 9);
    assert(two_pow(8) == 256);
    lemma_scale_one(a);
    lemma_scale_scale(a, 256, F_256_INV as int);
    assert forall|i: int| 0 <= i < N implies scale(a, F_256_INV * 256)[i] == a[i] by {
        vstd::arithmetic::div_mod::lemma_mul_mod_noop_left(F_256_INV * 256, a[i], Q as int);
        vstd::arithmetic::div_mod::lemma_small_mod(a[i] as nat, Q as nat);
    }
    assert(scale(a, F_256_INV * 256) =~= a);
}

/// The coefficients of a 256-entry array as integers.
pub open spec fn coeffs_int(c: [i32; N]) -> Seq<int> {
    Seq::new(N as nat, |i: int| c[i] as int)
}

/// The two outputs of forward butterfly `p` (`p < len`) of block `b`.
pub proof fn lemma_fwd_layer_at(prev: Seq<int>, len: int, b: int, p: int)
    requires
        len_ok(len),
        0 <= b < 128int / len,
        0 <= p < len,
    ensures
        ({
            let i = 2 * len * b + p;
            let z = zeta_spec(128int / len + b);
            &&& 0 <= i && i + len < N
            &&& fwd_layer(prev, len)[i] == mod_q(prev[i] + mod_q(z * prev[i + len]))
            &&& fwd_layer(prev, len)[i + len] == mod_q(prev[i] - mod_q(z * prev[i + len]))
        }),
{
    lemma_blocks_of_len(len);
    let i = 2 * len * b + p;
    assert(0 <= i && i + len < N) by (nonlinear_arith)
        requires
            i == 2 * len * b + p,
            0 <= p < len,
            0 <= b,
            b + 1 <= 128int / len,
            2 * len * (128int / len) == 256,
            len > 0,
    ;
    lemma_block_index(i, len, b, p);
    lemma_block_index(i + len, len, b, p + len);
}

/// The two outputs of inverse butterfly `p` (`p < len`) of block `b`.
pub proof fn lemma_inv_layer_at(prev: Seq<int>, len: int, b: int, p: int)
    requires
        len_ok(len),
        0 <= b < 128int / len,
        0 <= p < len,
    ensures
        ({
            let i = 2 * len * b + p;
            let z = mod_q(-zeta_spec(2 * (128int / len) - 1 - b));
            &&& 0 <= i && i + len < N
            &&& inv_layer(prev, len)[i] == mod_q(prev[i] + prev[i + len])
            &&& inv_layer(prev, len)[i + len] == mod_q(z * mod_q(prev[i] - prev[i + len]))
        }),
{
    lemma_blocks_of_len(len);
    let i = 2 * len * b + p;
    assert(0 <= i && i + len < N) by (nonlinear_arith)
        requires
            i == 2 * len * b + p,
            0 <= p < len,
            0 <= b,
            b + 1 <= 128int / len,
            2 * len * (128int / len) == 256,
            len > 0,
    ;
    lemma_block_index(i, len, b, p);
    lemma_block_index(i + len, len, b, p + len);
}

/// Consecutive forward layers halve the half-block length and double the block count.
pub proof fn lemma_next_len(s: int)
    requires
        0 <= s < 8,
    ensures
        layer_len(s + 1) == layer_len(s) / 2 || s == 7,
        s < 7 ==> 128int / layer_len(s + 1) == 2 * (128int / layer_len(s)),
        s == 7 ==> layer_len(s) / 2 == 0,
        len_ok(layer_len(s)),
{
    let a = layer_len(s);
    let b = layer_len(s + 1);
    assert(s < 7 ==> 128int / b == 2 * (128int / a)) by (nonlinear_arith)
        requires
            (s == 0 && a == 128 && b == 64) || (s == 1 && a == 64 && b == 32) || (s == 2 && a == 32
                && b == 16) || (s == 3 && a == 16 && b == 8) || (s == 4 && a == 8 && b == 4) || (s
                == 5 && a == 4 && b == 2) || (s == 6 && a == 2 && b == 1) || (s == 7 && a == 1),
    ;
}

/// A forward layer part-way done: butterflies at offsets below `j` of the
/// current block (and all earlier blocks) are applied.
pub open spec fn fwd_partial(prev: Seq<int>, len: int, start: int, j: int) -> Seq<int> {
    Seq::new(
        N as nat,
        |k: int|
            if k < j || (start + len <= k < j + len) {
                fwd_layer(prev, len)[k]
            } else {
                prev[k]
            },
    )
}

/// FIPS 204, Algorithm 41 — NTT: maps `w ∈ R_q` to `ŵ ∈ T_q`.
pub fn ntt(w: &Poly) -> (r: PolyNTT)
    ensures
        coeffs_int(r.coeffs) == ntt_spec(coeffs_int(w.coeffs)),
        canonical(coeffs_int(r.coeffs)),
{
    let zt = zetas();
    let mut a = w.coeffs;
    for i in 0..N
        invariant
            forall|k: int| 0 <= k < i ==> (#[trigger] a[k]) as int == mod_q(w.coeffs[k] as int),
            forall|k: int| i <= k < N ==> (#[trigger] a[k]) == w.coeffs[k],
    {
        a[i] = reduce_q(a[i] as i64);
    }
    let ghost a0 = coeffs_int(a);
    assert(a0 =~= reduce_all(coeffs_int(w.coeffs)));
    let mut m: usize = 0;
    let mut len: usize = 128;
    let ghost mut s: nat = 0;
    while len >= 1
        invariant
            s <= 8,
            s < 8 ==> len == layer_len(s as int),
            s == 8 ==> len == 0,
            s < 8 ==> m + 1 == 128int / (len as int),
            coeffs_int(a) == ntt_upto(a0, s),
            canonical(coeffs_int(a)),
            forall|k: int| 0 <= k < N ==> (#[trigger] zt[k]) == zeta_spec(k),
            forall|k: int| 0 <= k < N ==> 0 <= #[trigger] zt[k] < Q,
        decreases len,
    {
        proof {
            assert(len_ok(len as int));
            lemma_blocks_of_len(len as int);
        }
        let ghost prev = coeffs_int(a);
        let ghost nb: int = 128int / (len as int);
        let mut start: usize = 0;
        let ghost mut blk: int = 0;
        assert(coeffs_int(a) =~= fwd_partial(prev, len as int, 0, 0));
        while start < N
            invariant
                len_ok(len as int),
                nb == 128int / (len as int),
                2 * len * nb == N,
                0 <= blk <= nb,
                start == 2 * len * blk,
                m + 1 == nb + blk,
                canonical(prev),
                coeffs_int(a) == fwd_partial(prev, len as int, start as int, start as int),
                forall|k: int| 0 <= k < N ==> (#[trigger] zt[k]) == zeta_spec(k),
                forall|k: int| 0 <= k < N ==> 0 <= #[trigger] zt[k] < Q,
            decreases N - start,
        {
            assert(blk < nb) by (nonlinear_arith)
                requires
                    start == 2 * len * blk,
                    start < N,
                    2 * len * nb == N,
                    len > 0,
            ;
            assert(start + 2 * len <= N) by (nonlinear_arith)
                requires
                    start == 2 * len * blk,
                    blk + 1 <= nb,
                    2 * len * nb == N,
                    len > 0,
            ;
            m += 1;
            let z = zt[m] as i64;
            let mut j = start;
            while j < start + len
                invariant
                    len_ok(len as int),
                    nb == 128int / (len as int),
                    0 <= blk < nb,
                    start == 2 * len * blk,
                    start + 2 * len <= N,
                    start <= j <= start + len,
                    z == zeta_spec(nb + blk),
                    0 <= z < Q,
                    canonical(prev),
                    coeffs_int(a) == fwd_partial(prev, len as int, start as int, j as int),
                decreases start + len - j,
            {
                proof {
                    lemma_fwd_layer_at(prev, len as int, blk, j - start);
                }
                assert(coeffs_int(a)[j + len] == a[j + len as int] as int);
                assert(coeffs_int(a)[j as int] == a[j as int] as int);
                assert(fwd_partial(prev, len as int, start as int, j as int)[j + len] == prev[j
                    + len]);
                assert(fwd_partial(prev, len as int, start as int, j as int)[j as int] == prev[j as int]);
                let aj = a[j] as i64;
                let ajl = a[j + len] as i64;
                assert(0 <= z * ajl < 0x4000_0000_0000_0000) by (nonlinear_arith)
                    requires
                        0 <= z < 8380417,
                        0 <= ajl < 8380417,
                ;
                let ghost before = a;
                let t = reduce_q(z * ajl);
                a[j + len] = reduce_q(aj - t as i64);
                a[j] = reduce_q(aj + t as i64);
                j += 1;
                proof {
                    let jo = j - 1;
                    assert forall|k: int| 0 <= k < N implies coeffs_int(a)[k] == fwd_partial(
                        prev,
                        len as int,
                        start as int,
                        j as int,
                    )[k] by {
                        if k != jo && k != jo + len {
                            assert(a[k] == before[k]);
                            assert(coeffs_int(before)[k] == fwd_partial(
                                prev,
                                len as int,
                                start as int,
                                jo as int,
                            )[k]);
                        }
                    }
                    assert(coeffs_int(a) =~= fwd_partial(prev, len as int, start as int, j as int));
                }
            }
            start += 2 * len;
            proof {
                blk = blk + 1;
                assert(start == 2 * len * blk) by (nonlinear_arith)
                    requires
                        start == 2 * len * (blk - 1) + 2 * len,
                ;
            }
            assert(coeffs_int(a) =~= fwd_partial(prev, len as int, start as int, start as int));
        }
        proof {
            assert(blk == nb) by (nonlinear_arith)
                requires
                    start == 2 * len * blk,
                    start >= N,
                    2 * len * nb == N,
                    blk <= nb,
                    len > 0,
            ;
            assert(coeffs_int(a) =~= fwd_layer(prev, len as int));
            assert(ntt_upto(a0, (s + 1) as nat) == fwd_layer(ntt_upto(a0, s), layer_len(s as int)));
            lemma_fwd_layer_canonical(prev, len as int);
        }
        let ghost old_len = len as int;
        len /= 2;
        proof {
            s = s + 1;
            lemma_next_len(s - 1);
        }
    }
    PolyNTT { coeffs: a }
}

/// An inverse layer part-way done (see [`fwd_partial`]).
pub open spec fn inv_partial(prev: Seq<int>, len: int, start: int, j: int) -> Seq<int> {
    Seq::new(
        N as nat,
        |k: int|
            if k < j || (start + len <= k < j + len) {
                inv_layer(prev, len)[k]
            } else {
                prev[k]
            },
    )
}

/// An inverse layer's output is canonical.
pub proof fn lemma_inv_layer_canonical(a: Seq<int>, len: int)
    ensures
        canonical(inv_layer(a, len)),
{
}

/// Consecutive inverse layers double the half-block length and halve the block count.
pub proof fn lemma_next_inv_len(s: int)
    requires
        0 <= s < 8,
    ensures
        s < 7 ==> layer_len(7 - (s + 1)) == 2 * layer_len(7 - s),
        s < 7 ==> 2 * (128int / layer_len(7 - (s + 1))) == 128int / layer_len(7 - s),
        s == 7 ==> layer_len(7 - s) == 128,
        len_ok(layer_len(7 - s)),
{
    let a = layer_len(7 - s);
    let b = layer_len(7 - (s + 1));
    assert(s < 7 ==> 2 * (128int / b) == 128int / a) by (nonlinear_arith)
        requires
            (s == 0 && a == 1 && b == 2) || (s == 1 && a == 2 && b == 4) || (s == 2 && a == 4 && b
                == 8) || (s == 3 && a == 8 && b == 16) || (s == 4 && a == 16 && b == 32) || (s
                == 5 && a == 32 && b == 64) || (s == 6 && a == 64 && b == 128) || (s == 7 && a
                == 128),
    ;
}

/// FIPS 204, Algorithm 42 — NTT^{-1}: maps `ŵ ∈ T_q` back to `w ∈ R_q`.
pub fn inv_ntt(w_hat: &PolyNTT) -> (r: Poly)
    ensures
        coeffs_int(r.coeffs) == inv_ntt_spec(coeffs_int(w_hat.coeffs)),
        canonical(coeffs_int(r.coeffs)),
{
    let zt = zetas();
    let mut a = w_hat.coeffs;
    for i in 0..N
        invariant
            forall|k: int| 0 <= k < i ==> (#[trigger] a[k]) as int == mod_q(w_hat.coeffs[k] as int),
            forall|k: int| i <= k < N ==> (#[trigger] a[k]) == w_hat.coeffs[k],
    {
        a[i] = reduce_q(a[i] as i64);
    }
    let ghost a0 = coeffs_int(a);
    assert(a0 =~= reduce_all(coeffs_int(w_hat.coeffs)));
    let mut m: usize = 256;
    let mut len: usize = 1;
    let ghost mut s: nat = 0;
    while len < N
        invariant
            s <= 8,
            s < 8 ==> len == layer_len(7 - s),
            s == 8 ==> len == 256,
            s < 8 ==> m == 2 * (128int / (len as int)),
            coeffs_int(a) == inv_upto(a0, s),
            canonical(coeffs_int(a)),
            forall|k: int| 0 <= k < N ==> (#[trigger] zt[k]) == zeta_spec(k),
            forall|k: int| 0 <= k < N ==> 0 <= #[trigger] zt[k] < Q,
        decreases N - len,
    {
        proof {
            lemma_next_inv_len(s as int);
            lemma_blocks_of_len(len as int);
        }
        let ghost prev = coeffs_int(a);
        let ghost nb: int = 128int / (len as int);
        let mut start: usize = 0;
        let ghost mut blk: int = 0;
        assert(coeffs_int(a) =~= inv_partial(prev, len as int, 0, 0));
        while start < N
            invariant
                len_ok(len as int),
                nb == 128int / (len as int),
                2 * len * nb == N,
                0 <= blk <= nb,
                start == 2 * len * blk,
                m == 2 * nb - blk,
                canonical(prev),
                coeffs_int(a) == inv_partial(prev, len as int, start as int, start as int),
                forall|k: int| 0 <= k < N ==> (#[trigger] zt[k]) == zeta_spec(k),
                forall|k: int| 0 <= k < N ==> 0 <= #[trigger] zt[k] < Q,
            decreases N - start,
        {
            assert(blk < nb) by (nonlinear_arith)
                requires
                    start == 2 * len * blk,
                    start < N,
                    2 * len * nb == N,
                    len > 0,
            ;
            assert(start + 2 * len <= N) by (nonlinear_arith)
                requires
                    start == 2 * len * blk,
                    blk + 1 <= nb,
                    2 * len * nb == N,
                    len > 0,
            ;
            m -= 1;
            let z = reduce_q(-(zt[m] as i64)) as i64;
            let mut j = start;
            while j < start + len
                invariant
                    len_ok(len as int),
                    nb == 128int / (len as int),
                    0 <= blk < nb,
                    start == 2 * len * blk,
                    start + 2 * len <= N,
                    start <= j <= start + len,
                    z == mod_q(-zeta_spec(2 * nb - 1 - blk)),
                    0 <= z < Q,
                    canonical(prev),
                    coeffs_int(a) == inv_partial(prev, len as int, start as int, j as int),
                decreases start + len - j,
            {
                proof {
                    lemma_inv_layer_at(prev, len as int, blk, j - start);
                }
                assert(coeffs_int(a)[j + len] == a[j + len as int] as int);
                assert(coeffs_int(a)[j as int] == a[j as int] as int);
                assert(inv_partial(prev, len as int, start as int, j as int)[j + len] == prev[j
                    + len]);
                assert(inv_partial(prev, len as int, start as int, j as int)[j as int] == prev[j as int]);
                let ghost before = a;
                let t = a[j] as i64;
                let u = a[j + len] as i64;
                a[j] = reduce_q(t + u);
                let d = reduce_q(t - u) as i64;
                assert(0 <= z * d < 0x4000_0000_0000_0000) by (nonlinear_arith)
                    requires
                        0 <= z < 8380417,
                        0 <= d < 8380417,
                ;
                a[j + len] = reduce_q(z * d);
                j += 1;
                proof {
                    let jo = j - 1;
                    assert forall|k: int| 0 <= k < N implies coeffs_int(a)[k] == inv_partial(
                        prev,
                        len as int,
                        start as int,
                        j as int,
                    )[k] by {
                        if k != jo && k != jo + len {
                            assert(a[k] == before[k]);
                            assert(coeffs_int(before)[k] == inv_partial(
                                prev,
                                len as int,
                                start as int,
                                jo as int,
                            )[k]);
                        }
                    }
                    assert(coeffs_int(a) =~= inv_partial(prev, len as int, start as int, j as int));
                }
            }
            start += 2 * len;
            proof {
                blk = blk + 1;
                assert(start == 2 * len * blk) by (nonlinear_arith)
                    requires
                        start == 2 * len * (blk - 1) + 2 * len,
                ;
            }
            assert(coeffs_int(a) =~= inv_partial(prev, len as int, start as int, start as int));
        }
        proof {
            assert(blk == nb) by (nonlinear_arith)
                requires
                    start == 2 * len * blk,
                    start >= N,
                    2 * len * nb == N,
                    blk <= nb,
                    len > 0,
            ;
            assert(coeffs_int(a) =~= inv_layer(prev, len as int));
            assert(inv_upto(a0, (s + 1) as nat) == inv_layer(inv_upto(a0, s), layer_len(7 - s)));
            lemma_inv_layer_canonical(prev, len as int);
        }
        len *= 2;
        proof {
            s = s + 1;
        }
    }
    let ghost before_scale = coeffs_int(a);
    for i in 0..N
        invariant
            forall|k: int| 0 <= k < i ==> (#[trigger] a[k]) as int == mod_q(F_256_INV * before_scale[k]),
            forall|k: int| i <= k < N ==> (#[trigger] a[k]) as int == before_scale[k],
            canonical(before_scale),
    {
        let v = a[i] as i64;
        assert(0 <= F_256_INV * v < 0x4000_0000_0000_0000) by (nonlinear_arith)
            requires
                0 <= v < 8380417,
        ;
        a[i] = reduce_q(F_256_INV * v);
    }
    assert(coeffs_int(a) =~= scale(before_scale, F_256_INV as int));
    Poly { coeffs: a }
}

/// `zm` is `z` in Montgomery form: `zm ≡ z·2^32 (mod q)`, witnessed by
/// `zm·2^32 ≡ z·R2`, with `|zm| < q`.
pub open spec fn mont_form(zm: int, z: int) -> bool {
    &&& -Q < zm < Q
    &&& (zm * 0x1_0000_0000 - z * crate::field::R2) % (Q as int) == 0
}

/// The zetas in Montgomery form.
pub fn zetas_mont(zt: &[i32; N]) -> (zm: [i32; N])
    requires
        forall|k: int| 0 <= k < N ==> 0 <= #[trigger] zt[k] < Q,
    ensures
        forall|k: int|
            0 <= k < N ==> #[trigger] zm[k] == montgomery_spec(zt[k] * crate::field::R2),
        forall|k: int| 0 <= k < N ==> mont_form(#[trigger] zm[k] as int, zt[k] as int),
{
    let mut zm = [0i32; N];
    for m in 0..N
        invariant
            forall|k: int| 0 <= k < N ==> 0 <= #[trigger] zt[k] < Q,
            forall|k: int|
                0 <= k < m ==> #[trigger] zm[k] == montgomery_spec(zt[k] * crate::field::R2),
            forall|k: int| 0 <= k < m ==> mont_form(#[trigger] zm[k] as int, zt[k] as int),
    {
        let z = zt[m] as i64;
        assert(0 <= z * crate::field::R2 < 0x8000_0000 * (Q as int)) by (nonlinear_arith)
            requires
                0 <= z < 8380417,
                crate::field::R2 == 2365951,
        ;
        zm[m] = montgomery_reduce(z * crate::field::R2);
    }
    zm
}

/// The negated zetas in Montgomery form.
pub fn zetas_neg_mont(zt: &[i32; N]) -> (zm: [i32; N])
    requires
        forall|k: int| 0 <= k < N ==> 0 <= #[trigger] zt[k] < Q,
    ensures
        forall|k: int|
            0 <= k < N ==> #[trigger] zm[k] == montgomery_spec(-zt[k] * crate::field::R2),
        forall|k: int| 0 <= k < N ==> mont_form(#[trigger] zm[k] as int, -(zt[k] as int)),
{
    let mut zm = [0i32; N];
    for m in 0..N
        invariant
            forall|k: int| 0 <= k < N ==> 0 <= #[trigger] zt[k] < Q,
            forall|k: int|
                0 <= k < m ==> #[trigger] zm[k] == montgomery_spec(-zt[k] * crate::field::R2),
            forall|k: int| 0 <= k < m ==> mont_form(#[trigger] zm[k] as int, -(zt[k] as int)),
    {
        let z = -(zt[m] as i64);
        assert(-0x8000_0000 * (Q as int) < z * crate::field::R2 <= 0) by (nonlinear_arith)
            requires
                -8380417 < z <= 0,
                crate::field::R2 == 2365951,
        ;
        zm[m] = montgomery_reduce(z * crate::field::R2);
    }
    zm
}

/// `z·a mod q` for `z` in Montgomery form, by one Montgomery reduction and a
/// conditional add of `q`.
fn mont_mul_canonical(zmm: i32, a: i32, Ghost(z): Ghost<int>) -> (t: i32)
    requires
        0 <= a < Q,
        mont_form(zmm as int, z),
    ensures
        t == mod_q(z * a),
{
    assert(-0x8000_0000 * (Q as int) < zmm * a < 0x8000_0000 * (Q as int)) by (nonlinear_arith)
        requires
            -8380417 < zmm < 8380417,
            0 <= a < 8380417,
    ;
    let t0 = montgomery_reduce(zmm as i64 * a as i64);
    proof {
        crate::ntt_arith::lemma_mont_zeta(z, zmm as int, a as int, t0 as int);
        crate::ntt_arith::lemma_caddq_residue(t0 as int);
    }
    crate::ct::caddq(t0)
}

/// `(x + y) mod q` for canonical `x`, `y`, by a conditional subtract of `q`.
fn add_canonical(x: i32, y: i32) -> (r: i32)
    requires
        0 <= x < Q,
        0 <= y < Q,
    ensures
        r == mod_q(x + y),
{
    proof {
        if x + y >= Q {
            vstd::arithmetic::div_mod::lemma_mod_sub_multiples_vanish(x + y, Q as int);
            vstd::arithmetic::div_mod::lemma_small_mod((x + y - Q) as nat, Q as nat);
        } else {
            vstd::arithmetic::div_mod::lemma_small_mod((x + y) as nat, Q as nat);
        }
    }
    crate::ct::csubq(x + y)
}

/// `(x − y) mod q` for canonical `x`, `y`, by a conditional add of `q`.
fn sub_canonical(x: i32, y: i32) -> (r: i32)
    requires
        0 <= x < Q,
        0 <= y < Q,
    ensures
        r == mod_q(x - y),
{
    proof {
        crate::ntt_arith::lemma_caddq_residue(x - y);
    }
    crate::ct::caddq(x - y)
}

/// Forward butterfly on the improved path: `(x + z·y, x − z·y) mod q` with `z`
/// given in Montgomery form.
fn butterfly_fwd_mont(aj: i32, ajl: i32, zmm: i32, Ghost(z): Ghost<int>) -> (res: (i32, i32))
    requires
        0 <= aj < Q,
        0 <= ajl < Q,
        mont_form(zmm as int, z),
    ensures
        res.0 == mod_q(aj + mod_q(z * ajl)),
        res.1 == mod_q(aj - mod_q(z * ajl)),
{
    let t = mont_mul_canonical(zmm, ajl, Ghost(z));
    (add_canonical(aj, t), sub_canonical(aj, t))
}

/// Inverse butterfly on the improved path: `(x + y, w·(x − y)) mod q` with `w`
/// given in Montgomery form.
fn butterfly_inv_mont(t: i32, u: i32, zmm: i32, Ghost(w): Ghost<int>) -> (res: (i32, i32))
    requires
        0 <= t < Q,
        0 <= u < Q,
        mont_form(zmm as int, w),
    ensures
        res.0 == mod_q(t + u),
        res.1 == mod_q(mod_q(w) * mod_q(t - u)),
{
    let d = sub_canonical(t, u);
    let p = mont_mul_canonical(zmm, d, Ghost(w));
    proof {
        vstd::arithmetic::div_mod::lemma_mul_mod_noop_left(w, d as int, Q as int);
    }
    (add_canonical(t, u), p)
}

/// [`ntt`] on the improved path: zetas held in Montgomery form, products
/// reduced by Montgomery reduction and sums by branchless conditional add/subtract
/// of `q`, with the same output.
pub fn ntt_fast(w: &Poly) -> (r: PolyNTT)
    ensures
        coeffs_int(r.coeffs) == ntt_spec(coeffs_int(w.coeffs)),
        canonical(coeffs_int(r.coeffs)),
{
    let zt = zetas();
    let zm = zetas_mont(&zt);
    let mut a = w.coeffs;
    for i in 0..N
        invariant
            forall|k: int| 0 <= k < i ==> (#[trigger] a[k]) as int == mod_q(w.coeffs[k] as int),
            forall|k: int| i <= k < N ==> (#[trigger] a[k]) == w.coeffs[k],
    {
        a[i] = crate::field::to_canonical(a[i]);
    }
    let ghost a0 = coeffs_int(a);
    assert(a0 =~= reduce_all(coeffs_int(w.coeffs)));
    let mut m: usize = 0;
    let mut len: usize = 128;
    let ghost mut s: nat = 0;
    while len >= 1
        invariant
            s <= 8,
            s < 8 ==> len == layer_len(s as int),
            s == 8 ==> len == 0,
            s < 8 ==> m + 1 == 128int / (len as int),
            coeffs_int(a) == ntt_upto(a0, s),
            canonical(coeffs_int(a)),
            forall|k: int| 0 <= k < N ==> (#[trigger] zt[k]) == zeta_spec(k),
            forall|k: int| 0 <= k < N ==> 0 <= #[trigger] zt[k] < Q,
            forall|k: int| 0 <= k < N ==> mont_form(#[trigger] zm[k] as int, zt[k] as int),
        decreases len,
    {
        proof {
            assert(len_ok(len as int));
            lemma_blocks_of_len(len as int);
        }
        let ghost prev = coeffs_int(a);
        let ghost nb: int = 128int / (len as int);
        let mut start: usize = 0;
        let ghost mut blk: int = 0;
        assert(coeffs_int(a) =~= fwd_partial(prev, len as int, 0, 0));
        while start < N
            invariant
                len_ok(len as int),
                nb == 128int / (len as int),
                2 * len * nb == N,
                0 <= blk <= nb,
                start == 2 * len * blk,
                m + 1 == nb + blk,
                canonical(prev),
                coeffs_int(a) == fwd_partial(prev, len as int, start as int, start as int),
                forall|k: int| 0 <= k < N ==> (#[trigger] zt[k]) == zeta_spec(k),
                forall|k: int| 0 <= k < N ==> 0 <= #[trigger] zt[k] < Q,
                forall|k: int| 0 <= k < N ==> mont_form(#[trigger] zm[k] as int, zt[k] as int),
            decreases N - start,
        {
            assert(blk < nb) by (nonlinear_arith)
                requires
                    start == 2 * len * blk,
                    start < N,
                    2 * len * nb == N,
                    len > 0,
            ;
            assert(start + 2 * len <= N) by (nonlinear_arith)
                requires
                    start == 2 * len * blk,
                    blk + 1 <= nb,
                    2 * len * nb == N,
                    len > 0,
            ;
            m += 1;
            let z = zt[m] as i64;
            let zmm = zm[m] as i64;
            assert(mont_form(zmm as int, z as int));
            let mut j = start;
            while j < start + len
                invariant
                    len_ok(len as int),
                    nb == 128int / (len as int),
                    0 <= blk < nb,
                    start == 2 * len * blk,
                    start + 2 * len <= N,
                    start <= j <= start + len,
                    z == zeta_spec(nb + blk),
                    0 <= z < Q,
                    mont_form(zmm as int, z as int),
                    canonical(prev),
                    coeffs_int(a) == fwd_partial(prev, len as int, start as int, j as int),
                decreases start + len - j,
            {
                proof {
                    lemma_fwd_layer_at(prev, len as int, blk, j - start);
                }
                assert(coeffs_int(a)[j + len] == a[j + len as int] as int);
                assert(coeffs_int(a)[j as int] == a[j as int] as int);
                assert(fwd_partial(prev, len as int, start as int, j as int)[j + len] == prev[j
                    + len]);
                assert(fwd_partial(prev, len as int, start as int, j as int)[j as int] == prev[j as int]);
                let aj = a[j] as i64;
                let ajl = a[j + len] as i64;
                let ghost before = a;
                let (x, y) = butterfly_fwd_mont(aj as i32, ajl as i32, zmm as i32, Ghost(z as int));
                a[j + len] = y;
                a[j] = x;
                j += 1;
                proof {
                    let jo = j - 1;
                    assert forall|k: int| 0 <= k < N implies coeffs_int(a)[k] == fwd_partial(
                        prev,
                        len as int,
                        start as int,
                        j as int,
                    )[k] by {
                        if k != jo && k != jo + len {
                            assert(a[k] == before[k]);
                            assert(coeffs_int(before)[k] == fwd_partial(
                                prev,
                                len as int,
                                start as int,
                                jo as int,
                            )[k]);
                        }
                    }
                    assert(coeffs_int(a) =~= fwd_partial(prev, len as int, start as int, j as int));
                }
            }
            start += 2 * len;
            proof {
                blk = blk + 1;
                assert(start == 2 * len * blk) by (nonlinear_arith)
                    requires
                        start == 2 * len * (blk - 1) + 2 * len,
                ;
            }
            assert(coeffs_int(a) =~= fwd_partial(prev, len as int, start as int, start as int));
        }
        proof {
            assert(blk == nb) by (nonlinear_arith)
                requires
                    start == 2 * len * blk,
                    start >= N,
                    2 * len * nb == N,
                    blk <= nb,
                    len > 0,
            ;
            assert(coeffs_int(a) =~= fwd_layer(prev, len as int));
            assert(ntt_upto(a0, (s + 1) as nat) == fwd_layer(ntt_upto(a0, s), layer_len(s as int)));
            lemma_fwd_layer_canonical(prev, len as int);
        }
        let ghost old_len = len as int;
        len /= 2;
        proof {
            s = s + 1;
            lemma_next_len(s - 1);
        }
    }
    PolyNTT { coeffs: a }
}

/// [`inv_ntt`] on the improved path (Montgomery products, branchless
/// reductions), with the same output.
pub fn inv_ntt_fast(w_hat: &PolyNTT) -> (r: Poly)
    ensures
        coeffs_int(r.coeffs) == inv_ntt_spec(coeffs_int(w_hat.coeffs)),
        canonical(coeffs_int(r.coeffs)),
{
    let zt = zetas();
    let zm = zetas_neg_mont(&zt);
    let mut a = w_hat.coeffs;
    for i in 0..N
        invariant
            forall|k: int| 0 <= k < i ==> (#[trigger] a[k]) as int == mod_q(w_hat.coeffs[k] as int),
            forall|k: int| i <= k < N ==> (#[trigger] a[k]) == w_hat.coeffs[k],
    {
        a[i] = crate::field::to_canonical(a[i]);
    }
    let ghost a0 = coeffs_int(a);
    assert(a0 =~= reduce_all(coeffs_int(w_hat.coeffs)));
    let mut m: usize = 256;
    let mut len: usize = 1;
    let ghost mut s: nat = 0;
    while len < N
        invariant
            s <= 8,
            s < 8 ==> len == layer_len(7 - s),
            s == 8 ==> len == 256,
            s < 8 ==> m == 2 * (128int / (len as int)),
            coeffs_int(a) == inv_upto(a0, s),
            canonical(coeffs_int(a)),
            forall|k: int| 0 <= k < N ==> (#[trigger] zt[k]) == zeta_spec(k),
            forall|k: int| 0 <= k < N ==> 0 <= #[trigger] zt[k] < Q,
            forall|k: int| 0 <= k < N ==> mont_form(#[trigger] zm[k] as int, -(zt[k] as int)),
        decreases N - len,
    {
        proof {
            lemma_next_inv_len(s as int);
            lemma_blocks_of_len(len as int);
        }
        let ghost prev = coeffs_int(a);
        let ghost nb: int = 128int / (len as int);
        let mut start: usize = 0;
        let ghost mut blk: int = 0;
        assert(coeffs_int(a) =~= inv_partial(prev, len as int, 0, 0));
        while start < N
            invariant
                len_ok(len as int),
                nb == 128int / (len as int),
                2 * len * nb == N,
                0 <= blk <= nb,
                start == 2 * len * blk,
                m == 2 * nb - blk,
                canonical(prev),
                coeffs_int(a) == inv_partial(prev, len as int, start as int, start as int),
                forall|k: int| 0 <= k < N ==> (#[trigger] zt[k]) == zeta_spec(k),
                forall|k: int| 0 <= k < N ==> 0 <= #[trigger] zt[k] < Q,
                forall|k: int| 0 <= k < N ==> mont_form(#[trigger] zm[k] as int, -(zt[k] as int)),
            decreases N - start,
        {
            assert(blk < nb) by (nonlinear_arith)
                requires
                    start == 2 * len * blk,
                    start < N,
                    2 * len * nb == N,
                    len > 0,
            ;
            assert(start + 2 * len <= N) by (nonlinear_arith)
                requires
                    start == 2 * len * blk,
                    blk + 1 <= nb,
                    2 * len * nb == N,
                    len > 0,
            ;
            m -= 1;
            let zmm = zm[m] as i64;
            let ghost zneg = -(zt[m as int] as int);
            assert(mont_form(zmm as int, zneg));
            let ghost z = mod_q(zneg);
            let mut j = start;
            while j < start + len
                invariant
                    len_ok(len as int),
                    nb == 128int / (len as int),
                    0 <= blk < nb,
                    start == 2 * len * blk,
                    start + 2 * len <= N,
                    start <= j <= start + len,
                    z == mod_q(-zeta_spec(2 * nb - 1 - blk)),
                    z == mod_q(zneg),
                    mont_form(zmm as int, zneg),
                    canonical(prev),
                    coeffs_int(a) == inv_partial(prev, len as int, start as int, j as int),
                decreases start + len - j,
            {
                proof {
                    lemma_inv_layer_at(prev, len as int, blk, j - start);
                }
                assert(coeffs_int(a)[j + len] == a[j + len as int] as int);
                assert(coeffs_int(a)[j as int] == a[j as int] as int);
                assert(inv_partial(prev, len as int, start as int, j as int)[j + len] == prev[j
                    + len]);
                assert(inv_partial(prev, len as int, start as int, j as int)[j as int] == prev[j as int]);
                let ghost before = a;
                let (x, y) = butterfly_inv_mont(a[j], a[j + len], zmm as i32, Ghost(zneg));
                a[j] = x;
                a[j + len] = y;
                j += 1;
                proof {
                    let jo = j - 1;
                    assert forall|k: int| 0 <= k < N implies coeffs_int(a)[k] == inv_partial(
                        prev,
                        len as int,
                        start as int,
                        j as int,
                    )[k] by {
                        if k != jo && k != jo + len {
                            assert(a[k] == before[k]);
                            assert(coeffs_int(before)[k] == inv_partial(
                                prev,
                                len as int,
                                start as int,
                                jo as int,
                            )[k]);
                        }
                    }
                    assert(coeffs_int(a) =~= inv_partial(prev, len as int, start as int, j as int));
                }
            }
            start += 2 * len;
            proof {
                blk = blk + 1;
                assert(start == 2 * len * blk) by (nonlinear_arith)
                    requires
                        start == 2 * len * (blk - 1) + 2 * len,
                ;
            }
            assert(coeffs_int(a) =~= inv_partial(prev, len as int, start as int, start as int));
        }
        proof {
            assert(blk == nb) by (nonlinear_arith)
                requires
                    start == 2 * len * blk,
                    start >= N,
                    2 * len * nb == N,
                    blk <= nb,
                    len > 0,
            ;
            assert(coeffs_int(a) =~= inv_layer(prev, len as int));
            assert(inv_upto(a0, (s + 1) as nat) == inv_layer(inv_upto(a0, s), layer_len(7 - s)));
            lemma_inv_layer_canonical(prev, len as int);
        }
        len *= 2;
        proof {
            s = s + 1;
        }
    }
    let fm = montgomery_reduce(F_256_INV * crate::field::R2);
    proof {
        crate::field::lemma_montgomery_constants();
    }
    let ghost before_scale = coeffs_int(a);
    for i in 0..N
        invariant
            forall|k: int| 0 <= k < i ==> (#[trigger] a[k]) as int == mod_q(F_256_INV * before_scale[k]),
            forall|k: int| i <= k < N ==> (#[trigger] a[k]) as int == before_scale[k],
            canonical(before_scale),
            mont_form(fm as int, F_256_INV as int),
    {
        let v = a[i] as i64;
        assert(-0x8000_0000 * (Q as int) < fm * v < 0x8000_0000 * (Q as int)) by (nonlinear_arith)
            requires
                -8380417 < fm < 8380417,
                0 <= v < 8380417,
        ;
        let p0 = montgomery_reduce(fm as i64 * v);
        proof {
            crate::ntt_arith::lemma_mont_zeta(F_256_INV as int, fm as int, v as int, p0 as int);
            crate::ntt_arith::lemma_caddq_residue(p0 as int);
        }
        a[i] = crate::ct::caddq(p0);
    }
    assert(coeffs_int(a) =~= scale(before_scale, F_256_INV as int));
    Poly { coeffs: a }
}

} // verus!
