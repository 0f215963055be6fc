//! The algebra of the number-theoretic transform: NTT and NTT⁻¹ are mutually inverse
//! on canonical coefficients, both are linear modulo `q`, and the NTT turns the
//! negacyclic product of `R_q = Z_q[X]/(X²⁵⁶ + 1)` into the pointwise product of `T_q`.
use crate::field::mod_q;
use crate::ntt::{
    canonical, fwd_layer, inv_layer, inv_ntt_spec, inv_upto, layer_len, len_ok, lemma_blocks_of_len,
    lemma_layer_index, lemma_scale_one, lemma_scale_scale, lemma_zeta_pair, ntt_spec, ntt_upto,
    reduce_all, scale, two_pow, zeta_spec, F_256_INV,
};
use crate::params::{N, Q};
use vstd::arithmetic::div_mod::{
    lemma_add_mod_noop, lemma_mod_multiples_vanish, lemma_mul_mod_noop, lemma_mul_mod_noop_right,
    lemma_sub_mod_noop,
};
use vstd::arithmetic::power::pow;
use vstd::prelude::*;

verus! {

/// The forward butterfly undoes the inverse one, up to a factor of 2.
proof fn lemma_butterfly_fwd_inv(x: int, y: int, z: int, zp: int)
    requires
        (z * zp) % (Q as int) == Q - 1,
    ensures
        ({
            let a = mod_q(x + y);
            let d = mod_q(mod_q(-zp) * mod_q(x - y));
            let t = mod_q(z * d);
            &&& mod_q(a + t) == mod_q(2 * x)
            &&& mod_q(a - t) == mod_q(2 * y)
        }),
{
    let q = Q as int;
    let a = mod_q(x + y);
    let d = mod_q(mod_q(-zp) * mod_q(x - y));
    let t = mod_q(z * d);
    lemma_mul_mod_noop(-zp, x - y, q);
    lemma_mul_mod_noop_right(z, -zp * (x - y), q);
    let m = (z * zp) / q;
    vstd::arithmetic::div_mod::lemma_fundamental_div_mod(z * zp, q);
    assert(z * (-zp * (x - y)) == q * (-(m + 1) * (x - y)) + (x - y)) by (nonlinear_arith)
        requires
            z * zp == q * m + (q - 1),
    ;
    lemma_mod_multiples_vanish(-(m + 1) * (x - y), x - y, q);
    assert(t == mod_q(x - y));
    lemma_add_mod_noop(x + y, x - y, q);
    lemma_sub_mod_noop(x + y, x - y, q);
    assert((x + y) + (x - y) == 2 * x);
    assert((x + y) - (x - y) == 2 * y);
}

/// A forward layer after an inverse layer of the same length doubles every coefficient.
pub proof fn lemma_fwd_inv_layer(a: Seq<int>, len: int)
    requires
        len_ok(len),
        a.len() == N,
    ensures
        fwd_layer(inv_layer(a, len), len) == scale(a, 2),
{
    lemma_blocks_of_len(len);
    let nb = 128int / len;
    assert forall|i: int| 0 <= i < N implies fwd_layer(inv_layer(a, len), len)[i] == scale(a, 2)[i] by {
        let b = i / (2 * len);
        let p = i % (2 * len);
        lemma_layer_index(i, len);
        lemma_zeta_pair(nb, nb + b);
        assert(3 * nb - 1 - (nb + b) == 2 * nb - 1 - b);
        let z = zeta_spec(nb + b);
        let zp = zeta_spec(2 * nb - 1 - b);
        if p < len {
            lemma_layer_index(i + len, len);
            lemma_butterfly_fwd_inv(a[i], a[i + len], z, zp);
        } else {
            lemma_layer_index(i - len, len);
            lemma_butterfly_fwd_inv(a[i - len], a[i], z, zp);
        }
    }
    assert(fwd_layer(inv_layer(a, len), len) =~= scale(a, 2));
}

/// The forward butterfly commutes with scaling by `c`.
proof fn lemma_fwd_butterfly_linear(x: int, y: int, z: int, c: int)
    ensures
        mod_q(mod_q(c * x) + mod_q(z * mod_q(c * y))) == mod_q(c * mod_q(x + mod_q(z * y))),
        mod_q(mod_q(c * x) - mod_q(z * mod_q(c * y))) == mod_q(c * mod_q(x - mod_q(z * y))),
{
    let q = Q as int;
    lemma_mul_mod_noop_right(z, c * y, q);
    lemma_mul_mod_noop_right(c, z * y, q);
    assert(z * (c * y) == c * (z * y)) by (nonlinear_arith);
    lemma_add_mod_noop(c * x, c * (z * y), q);
    lemma_sub_mod_noop(c * x, c * (z * y), q);
    lemma_mul_mod_noop_right(c, x + mod_q(z * y), q);
    lemma_mul_mod_noop_right(c, x - mod_q(z * y), q);
    assert(c * (x + mod_q(z * y)) == c * x + c * mod_q(z * y)) by (nonlinear_arith);
    assert(c * (x - mod_q(z * y)) == c * x - c * mod_q(z * y)) by (nonlinear_arith);
    lemma_add_mod_noop(c * x, c * mod_q(z * y), q);
    lemma_sub_mod_noop(c * x, c * mod_q(z * y), q);
}

/// A forward layer commutes with scaling.
pub proof fn lemma_fwd_layer_scale(a: Seq<int>, len: int, c: int)
    requires
        len_ok(len),
        a.len() == N,
    ensures
        fwd_layer(scale(a, c), len) == scale(fwd_layer(a, len), c),
{
    lemma_blocks_of_len(len);
    assert forall|i: int| 0 <= i < N implies fwd_layer(scale(a, c), len)[i] == scale(
        fwd_layer(a, len),
        c,
    )[i] by {
        let b = i / (2 * len);
        let p = i % (2 * len);
        lemma_layer_index(i, len);
        let z = zeta_spec(128int / len + b);
        if p < len {
            lemma_fwd_butterfly_linear(a[i], a[i + len], z, c);
        } else {
            lemma_fwd_butterfly_linear(a[i - len], a[i], z, c);
        }
    }
    assert(fwd_layer(scale(a, c), len) =~= scale(fwd_layer(a, len), c));
}

/// The forward layers commute with scaling.
proof fn lemma_ntt_upto_scale(a: Seq<int>, s: nat, c: int)
    requires
        a.len() == N,
        s <= 8,
    ensures
        ntt_upto(scale(a, c), s) == scale(ntt_upto(a, s), c),
    decreases s,
{
    if s > 0 {
        lemma_ntt_upto_scale(a, (s - 1) as nat, c);
        let len = layer_len(s - 1);
        assert(len_ok(len));
        lemma_ntt_upto_len(a, (s - 1) as nat);
        lemma_fwd_layer_scale(ntt_upto(a, (s - 1) as nat), len, c);
    }
}

/// Every prefix of forward layers keeps 256 coefficients.
proof fn lemma_ntt_upto_len(a: Seq<int>, s: nat)
    requires
        a.len() == N,
    ensures
        ntt_upto(a, s).len() == N,
    decreases s,
{
    if s > 0 {
        lemma_ntt_upto_len(a, (s - 1) as nat);
    }
}

/// Every prefix of inverse layers keeps 256 coefficients.
proof fn lemma_inv_upto_len(a: Seq<int>, s: nat)
    requires
        a.len() == N,
    ensures
        inv_upto(a, s).len() == N,
    decreases s,
{
    if s > 0 {
        lemma_inv_upto_len(a, (s - 1) as nat);
    }
}

/// The first `j` forward layers undo the last `j` inverse layers, up to `2^j`.
proof fn lemma_ntt_upto_inv_upto(a: Seq<int>, j: nat)
    requires
        a.len() == N,
        j <= 8,
    ensures
        ntt_upto(inv_upto(a, 8), j) == scale(inv_upto(a, (8 - j) as nat), two_pow(j)),
    decreases j,
{
    lemma_inv_upto_len(a, 8);
    if j == 0 {
        assert(inv_upto(a, 8) == inv_layer(inv_upto(a, 7), layer_len(0)));
        assert(canonical(inv_upto(a, 8)));
        lemma_scale_one(inv_upto(a, 8));
    } else {
        lemma_ntt_upto_inv_upto(a, (j - 1) as nat);
        let k = (8 - j) as nat;
        let len = layer_len((j - 1) as int);
        assert(len_ok(len));
        lemma_inv_upto_len(a, k);
        let c = inv_upto(a, k);
        assert(inv_upto(a, (k + 1) as nat) == inv_layer(c, len));
        lemma_inv_upto_len(a, (k + 1) as nat);
        lemma_fwd_layer_scale(inv_layer(c, len), len, two_pow((j - 1) as nat));
        lemma_fwd_inv_layer(c, len);
        lemma_scale_scale(c, 2, two_pow((j - 1) as nat));
    }
}

/// NTT is a left inverse of NTT⁻¹ on canonical coefficients: `NTT(NTT⁻¹(ŵ)) = ŵ`.
pub proof fn lemma_ntt_of_inv_ntt(w: Seq<int>)
    requires
        canonical(w),
    ensures
        ntt_spec(inv_ntt_spec(w)) == w,
{
    let q = Q as int;
    lemma_scale_one(w);
    let v = inv_upto(w, 8);
    lemma_inv_upto_len(w, 8);
    let x = scale(v, F_256_INV as int);
    assert(canonical(x));
    lemma_scale_one(x);
    lemma_ntt_upto_scale(v, 8, F_256_INV as int);
    lemma_ntt_upto_inv_upto(w, 8);
    reveal_with_fuel(two_pow, 9);
    assert(two_pow(8) == 256);
    lemma_scale_scale(w, 256, F_256_INV as int);
    assert forall|i: int| 0 <= i < N implies scale(w, F_256_INV * 256)[i] == w[i] by {
        vstd::arithmetic::div_mod::lemma_mul_mod_noop_left(F_256_INV * 256, w[i], q);
        vstd::arithmetic::div_mod::lemma_small_mod(w[i] as nat, q as nat);
    }
    assert(scale(w, F_256_INV * 256) =~= w);
}


/// `Σ_{k<n} a[j + k·B]·x^k`: coefficient `j` of `a` reduced modulo `X^B − x`, summed
/// over the first `n` strides of length `B`.
pub open spec fn rsum(a: Seq<int>, bsz: int, x: int, j: int, n: nat) -> int
    decreases n,
{
    if n == 0 {
        0
    } else {
        rsum(a, bsz, x, j, (n - 1) as nat) + a[j + (n - 1) * bsz] * pow(x, (n - 1) as nat)
    }
}

/// Reducing modulo `X^{len} − z` splits into reducing modulo `X^{2·len} − z²` the even and
/// the odd strides: the butterfly identity, over the integers.
proof fn lemma_rsum_split(a: Seq<int>, len: int, z: int, j: int, n: nat)
    ensures
        rsum(a, len, z, j, 2 * n) == rsum(a, 2 * len, z * z, j, n) + z * rsum(
            a,
            2 * len,
            z * z,
            j + len,
            n,
        ),
    decreases n,
{
    if n > 0 {
        let m = (n - 1) as nat;
        lemma_rsum_split(a, len, z, j, m);
        assert(rsum(a, len, z, j, 2 * n) == rsum(a, len, z, j, (2 * m + 1) as nat) + a[j + (2 * m
            + 1) * len] * pow(z, (2 * m + 1) as nat));
        assert(rsum(a, len, z, j, (2 * m + 1) as nat) == rsum(a, len, z, j, 2 * m) + a[j + (2
            * m) * len] * pow(z, 2 * m));
        vstd::arithmetic::power::lemma_pow_multiplies(z, 2, m);
        vstd::arithmetic::power::lemma_square_is_pow2(z);
        reveal(pow);
        assert(pow(z, (2 * m + 1) as nat) == z * pow(z, 2 * m));
        assert(pow(z, 2 * m) == pow(z * z, m)) by {
            assert(pow(z, 2) == z * z) by {
                reveal_with_fuel(pow, 3);
            }
        }
        assert(j + (2 * m) * len == j + m * (2 * len)) by (nonlinear_arith);
        assert(j + (2 * m + 1) * len == (j + len) + m * (2 * len)) by (nonlinear_arith);
        let e = a[j + m * (2 * len)];
        let o = a[(j + len) + m * (2 * len)];
        let pz = pow(z * z, m);
        assert(o * (z * pz) == z * (o * pz)) by (nonlinear_arith);
        assert(z * (rsum(a, 2 * len, z * z, j + len, m) + o * pz) == z * rsum(
            a,
            2 * len,
            z * z,
            j + len,
            m,
        ) + z * (o * pz)) by (nonlinear_arith);
    }
}

/// The strided sum modulo `q` depends on `x` only modulo `q`.
proof fn lemma_rsum_root_mod(a: Seq<int>, bsz: int, x: int, y: int, j: int, n: nat)
    requires
        mod_q(x) == mod_q(y),
    ensures
        mod_q(rsum(a, bsz, x, j, n)) == mod_q(rsum(a, bsz, y, j, n)),
    decreases n,
{
    let q = Q as int;
    if n > 0 {
        let m = (n - 1) as nat;
        lemma_rsum_root_mod(a, bsz, x, y, j, m);
        vstd::arithmetic::power::lemma_pow_mod_noop(x, m, q);
        vstd::arithmetic::power::lemma_pow_mod_noop(y, m, q);
        let c = a[j + m * bsz];
        lemma_mul_mod_noop_right(c, pow(x, m), q);
        lemma_mul_mod_noop_right(c, pow(y, m), q);
        lemma_add_mod_noop(rsum(a, bsz, x, j, m), c * pow(x, m), q);
        lemma_add_mod_noop(rsum(a, bsz, y, j, m), c * pow(y, m), q);
    }
}

/// The strided sum modulo `q` depends on the coefficients only modulo `q`.
proof fn lemma_rsum_coeff_mod(a: Seq<int>, b: Seq<int>, bsz: int, x: int, j: int, n: nat)
    requires
        forall|k: int| 0 <= k < n ==> #[trigger] mod_q(a[j + k * bsz]) == mod_q(b[j + k * bsz]),
    ensures
        mod_q(rsum(a, bsz, x, j, n)) == mod_q(rsum(b, bsz, x, j, n)),
    decreases n,
{
    let q = Q as int;
    if n > 0 {
        let m = (n - 1) as nat;
        lemma_rsum_coeff_mod(a, b, bsz, x, j, m);
        assert(mod_q(a[j + m * bsz]) == mod_q(b[j + m * bsz]));
        vstd::arithmetic::div_mod::lemma_mul_mod_noop_left(a[j + m * bsz], pow(x, m), q);
        vstd::arithmetic::div_mod::lemma_mul_mod_noop_left(b[j + m * bsz], pow(x, m), q);
        lemma_add_mod_noop(rsum(a, bsz, x, j, m), a[j + m * bsz] * pow(x, m), q);
        lemma_add_mod_noop(rsum(b, bsz, x, j, m), b[j + m * bsz] * pow(x, m), q);
    }
}


/// Block size after `s` forward layers: `256, 128, ..., 1`.
pub open spec fn bsize(s: int) -> int {
    if s <= 0 {
        256
    } else {
        layer_len(s - 1)
    }
}

/// Number of blocks after `s` forward layers: `2^s`.
pub open spec fn blocks(s: int) -> int {
    256int / bsize(s)
}

/// The sizes of consecutive stages.
proof fn lemma_stage_sizes(s: int)
    requires
        0 <= s <= 8,
    ensures
        bsize(s) * blocks(s) == 256,
        bsize(s) >= 1,
        blocks(s) >= 1,
        s < 8 ==> bsize(s) == 2 * layer_len(s) && bsize(s + 1) == layer_len(s) && blocks(s + 1)
            == 2 * blocks(s) && blocks(s) == 128int / layer_len(s) && len_ok(layer_len(s)),
        s == 8 ==> bsize(s) == 1 && blocks(s) == 256,
        s == 0 ==> bsize(s) == 256 && blocks(s) == 1,
        1 <= s ==> blocks(s) == 2 * blocks(s - 1),
{
    assert(256int / 256 == 1 && 256int / 128 == 2 && 256int / 64 == 4 && 256int / 32 == 8
        && 256int / 16 == 16 && 256int / 8 == 32 && 256int / 4 == 64 && 256int / 2 == 128
        && 256int / 1 == 256);
    assert(128int / 128 == 1 && 128int / 64 == 2 && 128int / 32 == 4 && 128int / 16 == 8
        && 128int / 8 == 16 && 128int / 4 == 32 && 128int / 2 == 64 && 128int / 1 == 128);
    if s == 0 {
        assert(bsize(s) == 256 && blocks(s) == 1);
    } else if s == 1 {
        assert(bsize(s) == 128 && blocks(s) == 2);
    } else if s == 2 {
        assert(bsize(s) == 64 && blocks(s) == 4);
    } else if s == 3 {
        assert(bsize(s) == 32 && blocks(s) == 8);
    } else if s == 4 {
        assert(bsize(s) == 16 && blocks(s) == 16);
    } else if s == 5 {
        assert(bsize(s) == 8 && blocks(s) == 32);
    } else if s == 6 {
        assert(bsize(s) == 4 && blocks(s) == 64);
    } else if s == 7 {
        assert(bsize(s) == 2 && blocks(s) == 128);
    } else {
        assert(bsize(s) == 1 && blocks(s) == 256);
    }
}

/// BitRev8 of `2m` and `2m + 1` in terms of BitRev8 of `m`, for `m < 128`.
proof fn lemma_bit_rev_double(m: u8)
    by (bit_vector)
    requires
        m < 128,
    ensures
        2 * (crate::ntt::bit_rev_8_spec((2 * m) as u8) as u16) == crate::ntt::bit_rev_8_spec(m) as u16,
        2 * (crate::ntt::bit_rev_8_spec((2 * m + 1) as u8) as u16) == crate::ntt::bit_rev_8_spec(m)
            as u16 + 256,
{
}

/// Squaring a power of `ζ` modulo `q`.
proof fn lemma_zeta_pow_square(e: nat)
    ensures
        mod_q(mod_q(pow(crate::ntt::ZETA as int, e)) * mod_q(pow(crate::ntt::ZETA as int, e)))
            == mod_q(pow(crate::ntt::ZETA as int, 2 * e)),
{
    let z = crate::ntt::ZETA as int;
    vstd::arithmetic::power::lemma_pow_adds(z, e, e);
    lemma_mul_mod_noop(pow(z, e), pow(z, e), Q as int);
    assert(e + e == 2 * e);
}

/// The roots of the blocks after `s` layers: block `b` of stage `s` holds the residue
/// modulo `X^{bsize(s)} − root(s, b)`.
pub open spec fn root(s: int, b: int) -> int {
    if s <= 0 {
        Q - 1
    } else {
        let m = blocks(s - 1) + b / 2;
        if b % 2 == 0 {
            zeta_spec(m)
        } else {
            mod_q(-zeta_spec(m))
        }
    }
}

/// The zeta of block `b` at layer `s` squares to the block's root.
proof fn lemma_root_square(s: int, b: int)
    requires
        0 <= s < 8,
        0 <= b < blocks(s),
    ensures
        mod_q(zeta_spec(blocks(s) + b) * zeta_spec(blocks(s) + b)) == mod_q(root(s, b)),
        mod_q(root(s + 1, 2 * b)) == mod_q(zeta_spec(blocks(s) + b)),
        mod_q(root(s + 1, 2 * b + 1)) == mod_q(-zeta_spec(blocks(s) + b)),
{
    let q = Q as int;
    let zt = crate::ntt::ZETA as int;
    lemma_stage_sizes(s);
    lemma_stage_sizes(s + 1);
    let mp = blocks(s) + b;
    assert(blocks(s) <= 128) by {
        if s == 7 {
        } else if s < 7 {
            lemma_stage_sizes(s + 1);
        }
    }
    assert(1 <= mp < 256);
    lemma_zeta_pow_square(crate::ntt::bit_rev_8_spec(mp as u8) as nat);
    assert(zeta_spec(mp) == mod_q(pow(zt, crate::ntt::bit_rev_8_spec(mp as u8) as nat)));
    let e2 = 2 * (crate::ntt::bit_rev_8_spec(mp as u8) as nat);
    if s == 0 {
        assert(mp == 1);
        assert(crate::ntt::bit_rev_8_spec(1u8) == 128) by (bit_vector);
        crate::ntt::lemma_zeta_pow_256();
        assert(root(1, 0) == zeta_spec(1));
        assert(root(1, 1) == mod_q(-zeta_spec(1)));
    } else {
        let m = blocks(s - 1) + b / 2;
        assert(1 <= m < 128) by {
            lemma_stage_sizes(s - 1);
        }
        lemma_bit_rev_double(m as u8);
        assert(2 * m == (2 * m) as u8);
        if b % 2 == 0 {
            assert(mp == 2 * m);
            assert(e2 == crate::ntt::bit_rev_8_spec(m as u8) as nat);
            assert(zeta_spec(m) == mod_q(pow(zt, crate::ntt::bit_rev_8_spec(m as u8) as nat)));
            vstd::arithmetic::div_mod::lemma_mod_twice(pow(zt, e2), q);
        } else {
            assert(mp == 2 * m + 1);
            let em = crate::ntt::bit_rev_8_spec(m as u8) as nat;
            assert(e2 == em + 256);
            vstd::arithmetic::power::lemma_pow_adds(zt, em, 256);
            crate::ntt::lemma_zeta_pow_256();
            lemma_mul_mod_noop(pow(zt, em), pow(zt, 256), q);
            let v = mod_q(pow(zt, em));
            assert(zeta_spec(m) == v);
            assert(v * (q - 1) == -v + q * v) by (nonlinear_arith);
            lemma_mod_multiples_vanish(v, -v, q);
            vstd::arithmetic::div_mod::lemma_mod_twice(-v, q);
        }
        assert(root(s + 1, 2 * b) == zeta_spec(blocks(s) + (2 * b) / 2));
        assert(root(s + 1, 2 * b + 1) == mod_q(-zeta_spec(blocks(s) + (2 * b + 1) / 2)));
    }
    vstd::arithmetic::div_mod::lemma_mod_twice(zeta_spec(mp), q);
    vstd::arithmetic::div_mod::lemma_mod_twice(-zeta_spec(mp), q);
    lemma_mul_mod_noop(zeta_spec(mp), zeta_spec(mp), q);
}


/// Coefficient `j` of block `b` in the layout after `s` layers.
pub open spec fn at(v: Seq<int>, s: int, b: int, j: int) -> int {
    v[bsize(s) * b + j]
}

/// After `s` forward layers, block `b` holds `a` reduced modulo `X^{bsize(s)} − root(s, b)`.
pub open spec fn stage_ok(a: Seq<int>, v: Seq<int>, s: int) -> bool {
    forall|b: int, j: int|
        0 <= b < blocks(s) && 0 <= j < bsize(s) ==> #[trigger] at(v, s, b, j) == mod_q(
            rsum(a, bsize(s), root(s, b), j, blocks(s) as nat),
        )
}

/// A canonical input is its own residue modulo `X^256 + 1`.
proof fn lemma_stage_zero(a: Seq<int>)
    requires
        canonical(a),
    ensures
        stage_ok(a, a, 0),
{
    lemma_stage_sizes(0);
    assert forall|b: int, j: int| 0 <= b < blocks(0) && 0 <= j < bsize(0) implies #[trigger] at(
        a,
        0,
        b,
        j,
    ) == mod_q(rsum(a, bsize(0), root(0, b), j, blocks(0) as nat)) by {
        assert(b == 0);
        vstd::arithmetic::power::lemma_pow0(root(0, b));
        assert(rsum(a, 256, root(0, b), j, 1) == rsum(a, 256, root(0, b), j, 0) + a[j + 0 * 256]
            * pow(root(0, b), 0));
        vstd::arithmetic::div_mod::lemma_small_mod(a[j] as nat, Q as nat);
    }
}

/// One butterfly in residue form: `x ± z·y` of the residues modulo `X^{2·len} − z²` are
/// the residues modulo `X^{len} ∓ z`.
proof fn lemma_butterfly_residue(a: Seq<int>, len: int, g: int, z: int, r: int, j: int, nb: nat, sign: int)
    requires
        sign == 1 || sign == -1,
        mod_q(z * z) == mod_q(g),
        mod_q(r) == mod_q(sign * z),
    ensures
        mod_q(rsum(a, len, r, j, 2 * nb)) == mod_q(
            mod_q(rsum(a, 2 * len, g, j, nb)) + sign * mod_q(z * mod_q(rsum(a, 2 * len, g, j + len, nb))),
        ),
{
    let q = Q as int;
    let zs = sign * z;
    lemma_rsum_root_mod(a, len, r, zs, j, 2 * nb);
    lemma_rsum_split(a, len, zs, j, nb);
    assert(zs * zs == z * z) by (nonlinear_arith)
        requires
            zs == sign * z,
            sign == 1 || sign == -1,
    ;
    lemma_rsum_root_mod(a, 2 * len, zs * zs, g, j, nb);
    lemma_rsum_root_mod(a, 2 * len, zs * zs, g, j + len, nb);
    let x0 = rsum(a, 2 * len, zs * zs, j, nb);
    let y0 = rsum(a, 2 * len, zs * zs, j + len, nb);
    let x1 = rsum(a, 2 * len, g, j, nb);
    let y1 = rsum(a, 2 * len, g, j + len, nb);
    // x0 + zs·y0 ≡ x1 + sign·(z·y1)
    lemma_mul_mod_noop_right(z, y0, q);
    lemma_mul_mod_noop_right(z, y1, q);
    assert(zs * y0 == sign * (z * y0)) by (nonlinear_arith)
        requires
            zs == sign * z,
    ;
    lemma_mul_mod_noop_right(sign, z * y0, q);
    lemma_mul_mod_noop_right(sign, mod_q(z * y1), q);
    lemma_mul_mod_noop_right(sign, z * y1, q);
    lemma_add_mod_noop(x0, zs * y0, q);
    lemma_add_mod_noop(x1, sign * mod_q(z * mod_q(y1)), q);
    lemma_add_mod_noop(mod_q(x1), sign * mod_q(z * mod_q(y1)), q);
    vstd::arithmetic::div_mod::lemma_mod_twice(x1, q);
}

/// One forward layer takes the residues of stage `s` to those of stage `s + 1`.
proof fn lemma_stage_step(a: Seq<int>, v: Seq<int>, s: int)
    requires
        0 <= s < 8,
        v.len() == N,
        stage_ok(a, v, s),
    ensures
        stage_ok(a, fwd_layer(v, layer_len(s)), s + 1),
{
    lemma_stage_sizes(s);
    lemma_stage_sizes(s + 1);
    let len = layer_len(s);
    let nb = blocks(s);
    let w = fwd_layer(v, len);
    assert forall|bp: int, j: int| 0 <= bp < blocks(s + 1) && 0 <= j < bsize(s + 1) implies #[trigger] at(
        w,
        s + 1,
        bp,
        j,
    ) == mod_q(rsum(a, bsize(s + 1), root(s + 1, bp), j, blocks(s + 1) as nat)) by {
        let b = bp / 2;
        assert(0 <= b < nb);
        lemma_root_square(s, b);
        crate::ntt::lemma_fwd_layer_at(v, len, b, j);
        let z = zeta_spec(nb + b);
        let g = root(s, b);
        let i0 = 2 * len * b + j;
        assert(at(v, s, b, j) == v[i0]) by {
            assert(bsize(s) * b + j == i0) by (nonlinear_arith)
                requires
                    bsize(s) == 2 * len,
                    i0 == 2 * len * b + j,
            ;
        }
        assert(at(v, s, b, j + len) == v[i0 + len]) by {
            assert(bsize(s) * b + (j + len) == i0 + len) by (nonlinear_arith)
                requires
                    bsize(s) == 2 * len,
                    i0 == 2 * len * b + j,
            ;
        }
        assert(2 * (nb as nat) == blocks(s + 1) as nat);
        if bp % 2 == 0 {
            assert(bsize(s + 1) * bp + j == i0) by (nonlinear_arith)
                requires
                    bsize(s + 1) == len,
                    bp == 2 * b,
                    i0 == 2 * len * b + j,
            ;
            lemma_butterfly_residue(a, len, g, z, root(s + 1, bp), j, nb as nat, 1);
            assert(bp == 2 * b);
        } else {
            assert(bsize(s + 1) * bp + j == i0 + len) by (nonlinear_arith)
                requires
                    bsize(s + 1) == len,
                    bp == 2 * b + 1,
                    i0 == 2 * len * b + j,
            ;
            assert(mod_q(-1 * z) == mod_q(-z));
            lemma_butterfly_residue(a, len, g, z, root(s + 1, bp), j, nb as nat, -1);
            assert(bp == 2 * b + 1);
            let y1 = mod_q(z * mod_q(rsum(a, 2 * len, g, j + len, nb as nat)));
            assert(-1 * y1 == -y1);
        }
    }
}

/// After every prefix of forward layers, the blocks hold the residues of the input.
proof fn lemma_stage_upto(a: Seq<int>, s: nat)
    requires
        canonical(a),
        s <= 8,
    ensures
        stage_ok(a, ntt_upto(a, s), s as int),
    decreases s,
{
    if s == 0 {
        lemma_stage_zero(a);
    } else {
        lemma_stage_upto(a, (s - 1) as nat);
        lemma_ntt_upto_len(a, (s - 1) as nat);
        lemma_stage_step(a, ntt_upto(a, (s - 1) as nat), s - 1);
    }
}

/// The NTT evaluates: slot `i` of `NTT(w)` is `w(root(8, i)) mod q`.
pub proof fn lemma_ntt_eval(w: Seq<int>, i: int)
    requires
        w.len() == N,
        0 <= i < N,
    ensures
        ntt_spec(w)[i] == mod_q(rsum(w, 1, root(8, i), 0, 256)),
{
    let a = reduce_all(w);
    assert(canonical(a));
    lemma_stage_upto(a, 8);
    lemma_stage_sizes(8);
    assert(at(ntt_upto(a, 8), 8, i, 0) == ntt_spec(w)[i]);
    assert forall|k: int| 0 <= k < 256 implies #[trigger] mod_q(a[0 + k * 1]) == mod_q(w[0 + k * 1]) by {
        vstd::arithmetic::div_mod::lemma_mod_twice(w[k], Q as int);
    }
    lemma_rsum_coeff_mod(a, w, 1, root(8, i), 0, 256);
}


/// Every root of stage `s` is a `2^s`-th root of `−1` modulo `q`.
proof fn lemma_root_pow(s: int, b: int)
    requires
        0 <= s <= 8,
        0 <= b < blocks(s),
    ensures
        mod_q(pow(root(s, b), blocks(s) as nat)) == Q - 1,
    decreases s,
{
    let q = Q as int;
    lemma_stage_sizes(s);
    if s == 0 {
        vstd::arithmetic::power::lemma_pow1(root(0, b));
    } else {
        let c = b / 2;
        lemma_stage_sizes(s - 1);
        lemma_root_pow(s - 1, c);
        lemma_root_square(s - 1, c);
        let r = root(s, b);
        let g = root(s - 1, c);
        let n = blocks(s - 1) as nat;
        // r² ≡ g
        assert(mod_q(r * r) == mod_q(g)) by {
            let z = zeta_spec(blocks(s - 1) + c);
            lemma_mul_mod_noop(r, r, q);
            lemma_mul_mod_noop(z, z, q);
            if b % 2 == 0 {
                assert(b == 2 * c);
            } else {
                assert(b == 2 * c + 1);
                lemma_mul_mod_noop(-z, -z, q);
                assert((-z) * (-z) == z * z) by (nonlinear_arith);
                vstd::arithmetic::div_mod::lemma_mod_twice(-z, q);
            }
        }
        vstd::arithmetic::power::lemma_square_is_pow2(r);
        assert(pow(r, 2) == r * r) by {
            reveal_with_fuel(pow, 3);
        }
        vstd::arithmetic::power::lemma_pow_multiplies(r, 2, n);
        assert(2 * n == blocks(s) as nat);
        vstd::arithmetic::power::lemma_pow_mod_noop(r * r, n, q);
        vstd::arithmetic::power::lemma_pow_mod_noop(g, n, q);
    }
}

/// `p(x) = Σ_{k<256} p[k]·x^k`.
pub open spec fn eval(p: Seq<int>, x: int) -> int {
    rsum(p, 1, x, 0, 256)
}

/// Multiplication by `X` in `Z[X]/(X²⁵⁶ + 1)`: a negacyclic shift.
pub open spec fn nshift(b: Seq<int>) -> Seq<int> {
    Seq::new(N as nat, |k: int| if k == 0 { -b[255] } else { b[k - 1] })
}

/// Multiplication by `X^i` in `Z[X]/(X²⁵⁶ + 1)`.
pub open spec fn nshift_pow(b: Seq<int>, i: nat) -> Seq<int>
    decreases i,
{
    if i == 0 {
        b
    } else {
        nshift(nshift_pow(b, (i - 1) as nat))
    }
}

/// Coefficient `k` of `Σ_{i<n} a[i]·X^i·b` in `Z[X]/(X²⁵⁶ + 1)`.
pub open spec fn nprod(a: Seq<int>, b: Seq<int>, n: nat, k: int) -> int
    decreases n,
{
    if n == 0 {
        0
    } else {
        nprod(a, b, (n - 1) as nat, k) + a[n - 1] * nshift_pow(b, (n - 1) as nat)[k]
    }
}

/// The negacyclic product `a·b` in `Z[X]/(X²⁵⁶ + 1)`, over the integers.
pub open spec fn negacyclic(a: Seq<int>, b: Seq<int>) -> Seq<int> {
    Seq::new(N as nat, |k: int| nprod(a, b, 256, k))
}

/// Prefix sums of a shifted polynomial.
proof fn lemma_rsum_nshift(b: Seq<int>, x: int, n: nat)
    requires
        1 <= n <= 256,
    ensures
        rsum(nshift(b), 1, x, 0, n) == -b[255] + x * rsum(b, 1, x, 0, (n - 1) as nat),
    decreases n,
{
    reveal(pow);
    if n == 1 {
        assert(0 + (1 - 1) * 1 == 0);
        assert(rsum(nshift(b), 1, x, 0, 1) == rsum(nshift(b), 1, x, 0, 0) + nshift(b)[0] * pow(x, 0));
        assert(rsum(b, 1, x, 0, 0) == 0);
        assert(x * 0 == 0);
    } else {
        let m = (n - 1) as nat;
        lemma_rsum_nshift(b, x, m);
        assert(0 + m * 1 == m);
        assert(0 + (m - 1) * 1 == m - 1);
        assert(nshift(b)[m as int] == b[m - 1]);
        assert(pow(x, m) == x * pow(x, (m - 1) as nat));
        let r = rsum(b, 1, x, 0, (m - 1) as nat);
        assert(x * (r + b[m - 1] * pow(x, (m - 1) as nat)) == x * r + b[m - 1] * (x * pow(
            x,
            (m - 1) as nat,
        ))) by (nonlinear_arith);
    }
}

/// Evaluation at a root of `X²⁵⁶ + 1` turns the shift into multiplication by the root.
proof fn lemma_eval_nshift(b: Seq<int>, x: int)
    requires
        mod_q(pow(x, 256)) == Q - 1,
    ensures
        mod_q(eval(nshift(b), x)) == mod_q(x * eval(b, x)),
{
    let q = Q as int;
    lemma_rsum_nshift(b, x, 256);
    reveal(pow);
    let r = rsum(b, 1, x, 0, 255);
    assert(eval(b, x) == r + b[255] * pow(x, 255)) by {
        assert(0 + 255 * 1 == 255);
    }
    assert(pow(x, 256) == x * pow(x, 255));
    let p = pow(x, 256);
    assert(x * (r + b[255] * pow(x, 255)) == x * r + b[255] * p) by (nonlinear_arith)
        requires
            p == x * pow(x, 255),
    ;
    // x·eval(b) − eval(nshift(b)) = b[255]·(p + 1) ≡ 0
    let m = p / q;
    vstd::arithmetic::div_mod::lemma_fundamental_div_mod(p, q);
    assert(b[255] * p == -b[255] + q * (b[255] * (m + 1))) by (nonlinear_arith)
        requires
            p == q * m + (q - 1),
    ;
    assert(x * r + b[255] * p == (-b[255] + x * r) + q * (b[255] * (m + 1)));
    lemma_mod_multiples_vanish(b[255] * (m + 1), -b[255] + x * r, q);
}

/// Evaluation at a root of `X²⁵⁶ + 1` turns `X^i·b` into `x^i·b(x)`.
proof fn lemma_eval_nshift_pow(b: Seq<int>, x: int, i: nat)
    requires
        mod_q(pow(x, 256)) == Q - 1,
    ensures
        mod_q(eval(nshift_pow(b, i), x)) == mod_q(pow(x, i) * eval(b, x)),
    decreases i,
{
    let q = Q as int;
    reveal(pow);
    if i == 0 {
        assert(pow(x, 0) == 1);
    } else {
        let j = (i - 1) as nat;
        lemma_eval_nshift_pow(b, x, j);
        lemma_eval_nshift(nshift_pow(b, j), x);
        let e = eval(nshift_pow(b, j), x);
        lemma_mul_mod_noop_right(x, e, q);
        lemma_mul_mod_noop_right(x, pow(x, j) * eval(b, x), q);
        assert(x * (pow(x, j) * eval(b, x)) == pow(x, i) * eval(b, x)) by (nonlinear_arith)
            requires
                pow(x, i) == x * pow(x, j),
        ;
    }
}

/// Evaluation is linear: `(u + c·v)(x) = u(x) + c·v(x)` on the first `n` terms.
proof fn lemma_rsum_lin(p: Seq<int>, u: Seq<int>, v: Seq<int>, c: int, x: int, n: nat)
    requires
        n <= 256,
        forall|k: int| 0 <= k < n ==> #[trigger] p[k] == u[k] + c * v[k],
    ensures
        rsum(p, 1, x, 0, n) == rsum(u, 1, x, 0, n) + c * rsum(v, 1, x, 0, n),
    decreases n,
{
    if n > 0 {
        let m = (n - 1) as nat;
        lemma_rsum_lin(p, u, v, c, x, m);
        assert(0 + m * 1 == m);
        assert(p[m as int] == u[m as int] + c * v[m as int]);
        let w = pow(x, m);
        assert((u[m as int] + c * v[m as int]) * w == u[m as int] * w + c * (v[m as int] * w))
            by (nonlinear_arith);
        assert(c * (rsum(v, 1, x, 0, m) + v[m as int] * w) == c * rsum(v, 1, x, 0, m) + c * (v[m as int] * w))
            by (nonlinear_arith);
    }
}

/// Evaluation at a root of `X²⁵⁶ + 1` of the partial products.
proof fn lemma_eval_nprod(a: Seq<int>, b: Seq<int>, x: int, n: nat)
    requires
        mod_q(pow(x, 256)) == Q - 1,
        n <= 256,
    ensures
        mod_q(eval(Seq::new(N as nat, |k: int| nprod(a, b, n, k)), x)) == mod_q(
            rsum(a, 1, x, 0, n) * eval(b, x),
        ),
    decreases n,
{
    let q = Q as int;
    let pn = Seq::new(N as nat, |k: int| nprod(a, b, n, k));
    if n == 0 {
        assert(eval(pn, x) == 0) by {
            lemma_rsum_lin(pn, pn, pn, 0, x, 256);
            assert forall|k: int| 0 <= k < 256 implies #[trigger] pn[k] == pn[k] + 0 * pn[k] by {}
            assert forall|k: int| 0 <= k < 256 implies #[trigger] pn[k] == 0 by {}
            lemma_rsum_zero(pn, x, 256);
        }
        assert(rsum(a, 1, x, 0, 0) * eval(b, x) == 0);
    } else {
        let m = (n - 1) as nat;
        lemma_eval_nprod(a, b, x, m);
        let pm = Seq::new(N as nat, |k: int| nprod(a, b, m, k));
        let s = nshift_pow(b, m);
        let c = a[m as int];
        lemma_rsum_lin(pn, pm, s, c, x, 256);
        lemma_eval_nshift_pow(b, x, m);
        // eval(pn) = eval(pm) + c·eval(s) ≡ rsum(a, m)·eval(b) + c·x^m·eval(b)
        lemma_mul_mod_noop_right(c, eval(s, x), q);
        lemma_mul_mod_noop_right(c, pow(x, m) * eval(b, x), q);
        lemma_add_mod_noop(eval(pm, x), c * eval(s, x), q);
        lemma_add_mod_noop(rsum(a, 1, x, 0, m) * eval(b, x), c * (pow(x, m) * eval(b, x)), q);
        assert(0 + m * 1 == m);
        assert(rsum(a, 1, x, 0, n) == rsum(a, 1, x, 0, m) + c * pow(x, m));
        assert(rsum(a, 1, x, 0, m) * eval(b, x) + c * (pow(x, m) * eval(b, x)) == rsum(a, 1, x, 0, n)
            * eval(b, x)) by (nonlinear_arith)
            requires
                rsum(a, 1, x, 0, n) == rsum(a, 1, x, 0, m) + c * pow(x, m),
        ;
    }
}

/// A sum of zero coefficients is zero.
proof fn lemma_rsum_zero(p: Seq<int>, x: int, n: nat)
    requires
        n <= 256,
        forall|k: int| 0 <= k < 256 ==> #[trigger] p[k] == 0,
    ensures
        rsum(p, 1, x, 0, n) == 0,
    decreases n,
{
    if n > 0 {
        lemma_rsum_zero(p, x, (n - 1) as nat);
        assert(0 + (n - 1) * 1 == n - 1);
    }
}

/// The convolution theorem: the NTT of the negacyclic product is the pointwise product
/// of the NTTs.
pub proof fn lemma_ntt_negacyclic(a: Seq<int>, b: Seq<int>)
    requires
        a.len() == N,
        b.len() == N,
    ensures
        ntt_spec(negacyclic(a, b)) == Seq::new(
            N as nat,
            |i: int| mod_q(ntt_spec(a)[i] * ntt_spec(b)[i]),
        ),
{
    let q = Q as int;
    let c = negacyclic(a, b);
    lemma_ntt_upto_len(reduce_all(c), 8);
    assert forall|i: int| 0 <= i < N implies ntt_spec(c)[i] == mod_q(ntt_spec(a)[i] * ntt_spec(b)[i]) by {
        let x = root(8, i);
        lemma_stage_sizes(8);
        lemma_root_pow(8, i);
        lemma_ntt_eval(c, i);
        lemma_ntt_eval(a, i);
        lemma_ntt_eval(b, i);
        lemma_eval_nprod(a, b, x, 256);
        assert(c =~= Seq::new(N as nat, |k: int| nprod(a, b, 256, k)));
        lemma_mul_mod_noop(eval(a, x), eval(b, x), q);
    }
    assert(ntt_spec(c) =~= Seq::new(N as nat, |i: int| mod_q(ntt_spec(a)[i] * ntt_spec(b)[i])));
}


/// The NTT is linear modulo `q`: `NTT(u + c·v) = NTT(u) + c·NTT(v)`.
pub proof fn lemma_ntt_linear(u: Seq<int>, v: Seq<int>, c: int)
    requires
        u.len() == N,
        v.len() == N,
    ensures
        ntt_spec(Seq::new(N as nat, |k: int| u[k] + c * v[k])) == Seq::new(
            N as nat,
            |i: int| mod_q(ntt_spec(u)[i] + c * ntt_spec(v)[i]),
        ),
{
    let q = Q as int;
    let p = Seq::new(N as nat, |k: int| u[k] + c * v[k]);
    lemma_ntt_upto_len(reduce_all(p), 8);
    assert forall|i: int| 0 <= i < N implies ntt_spec(p)[i] == mod_q(ntt_spec(u)[i] + c * ntt_spec(v)[i]) by {
        let x = root(8, i);
        lemma_ntt_eval(p, i);
        lemma_ntt_eval(u, i);
        lemma_ntt_eval(v, i);
        lemma_rsum_lin(p, u, v, c, x, 256);
        lemma_mul_mod_noop_right(c, eval(v, x), q);
        lemma_add_mod_noop(eval(u, x), c * eval(v, x), q);
        lemma_add_mod_noop(eval(u, x), c * mod_q(eval(v, x)), q);
        vstd::arithmetic::div_mod::lemma_mod_twice(eval(u, x), q);
    }
    assert(ntt_spec(p) =~= Seq::new(N as nat, |i: int| mod_q(ntt_spec(u)[i] + c * ntt_spec(v)[i])));
}

/// The NTT reads its input modulo `q`.
pub proof fn lemma_ntt_congruent(u: Seq<int>, v: Seq<int>)
    requires
        u.len() == N,
        v.len() == N,
        forall|k: int| 0 <= k < N ==> #[trigger] mod_q(u[k]) == mod_q(v[k]),
    ensures
        ntt_spec(u) == ntt_spec(v),
{
    assert(reduce_all(u) =~= reduce_all(v));
}

/// NTT⁻¹ reads its input modulo `q`.
pub proof fn lemma_inv_ntt_congruent(u: Seq<int>, v: Seq<int>)
    requires
        u.len() == N,
        v.len() == N,
        forall|k: int| 0 <= k < N ==> #[trigger] mod_q(u[k]) == mod_q(v[k]),
    ensures
        inv_ntt_spec(u) == inv_ntt_spec(v),
{
    assert(reduce_all(u) =~= reduce_all(v));
}

/// NTT⁻¹ is linear modulo `q`: `NTT⁻¹(x + c·y) = NTT⁻¹(x) + c·NTT⁻¹(y) mod q`.
pub proof fn lemma_inv_ntt_linear(x: Seq<int>, y: Seq<int>, c: int)
    requires
        x.len() == N,
        y.len() == N,
    ensures
        inv_ntt_spec(Seq::new(N as nat, |k: int| x[k] + c * y[k])) == Seq::new(
            N as nat,
            |k: int| mod_q(inv_ntt_spec(x)[k] + c * inv_ntt_spec(y)[k]),
        ),
{
    let q = Q as int;
    let xr = reduce_all(x);
    let yr = reduce_all(y);
    lemma_inv_ntt_congruent(x, xr);
    lemma_inv_ntt_congruent(y, yr);
    assert forall|k: int| 0 <= k < N implies #[trigger] mod_q(xr[k]) == mod_q(x[k]) by {
        vstd::arithmetic::div_mod::lemma_mod_twice(x[k], q);
    }
    assert forall|k: int| 0 <= k < N implies #[trigger] mod_q(yr[k]) == mod_q(y[k]) by {
        vstd::arithmetic::div_mod::lemma_mod_twice(y[k], q);
    }
    let a = inv_ntt_spec(xr);
    let b = inv_ntt_spec(yr);
    lemma_ntt_of_inv_ntt(xr);
    lemma_ntt_of_inv_ntt(yr);
    let p = Seq::new(N as nat, |k: int| a[k] + c * b[k]);
    lemma_ntt_linear(a, b, c);
    // NTT(p) ≡ x + c·y, so NTT⁻¹ of both agree with reduce_all(p)
    let lhs = Seq::new(N as nat, |k: int| x[k] + c * y[k]);
    assert forall|k: int| 0 <= k < N implies #[trigger] mod_q(ntt_spec(p)[k]) == mod_q(lhs[k]) by {
        lemma_mul_mod_noop_right(c, y[k], q);
        lemma_add_mod_noop(x[k], c * y[k], q);
        lemma_add_mod_noop(xr[k], c * yr[k], q);
        vstd::arithmetic::div_mod::lemma_mod_twice(x[k], q);
        vstd::arithmetic::div_mod::lemma_mod_twice(xr[k] + c * yr[k], q);
    }
    lemma_ntt_upto_len(reduce_all(p), 8);
    lemma_inv_ntt_congruent(ntt_spec(p), lhs);
    crate::ntt::lemma_inv_ntt_of_ntt(p);
    assert(reduce_all(p) =~= Seq::new(N as nat, |k: int| mod_q(inv_ntt_spec(x)[k] + c * inv_ntt_spec(y)[k])));
}

/// NTT⁻¹ of the pointwise product of two NTTs is the negacyclic product modulo `q`.
pub proof fn lemma_ntt_multiply_is_negacyclic(a: Seq<int>, b: Seq<int>)
    requires
        a.len() == N,
        b.len() == N,
    ensures
        inv_ntt_spec(Seq::new(N as nat, |i: int| mod_q(ntt_spec(a)[i] * ntt_spec(b)[i])))
            == reduce_all(negacyclic(a, b)),
{
    lemma_ntt_negacyclic(a, b);
    crate::ntt::lemma_inv_ntt_of_ntt(negacyclic(a, b));
}


/// Shifting negacyclically keeps every coefficient within `[−η, η]`.
proof fn lemma_nshift_pow_bound(b: Seq<int>, i: nat, eta: int)
    requires
        b.len() == N,
        forall|k: int| 0 <= k < N ==> -eta <= #[trigger] b[k] <= eta,
    ensures
        nshift_pow(b, i).len() == N,
        forall|k: int| 0 <= k < N ==> -eta <= #[trigger] nshift_pow(b, i)[k] <= eta,
    decreases i,
{
    if i > 0 {
        lemma_nshift_pow_bound(b, (i - 1) as nat, eta);
        let p = nshift_pow(b, (i - 1) as nat);
        assert forall|k: int| 0 <= k < N implies -eta <= #[trigger] nshift(p)[k] <= eta by {
            if k == 0 {
                assert(-eta <= p[255] <= eta);
            } else {
                assert(-eta <= p[k - 1] <= eta);
            }
        }
    }
}

/// A product with a polynomial of `w` coefficients in `{−1, 0, 1}` (the others zero)
/// stays within `w·η`.
proof fn lemma_nprod_bound(c: Seq<int>, b: Seq<int>, eta: int, n: nat, k: int)
    requires
        c.len() == N,
        b.len() == N,
        n <= N,
        0 <= k < N,
        eta >= 0,
        forall|i: int| 0 <= i < N ==> -1 <= #[trigger] c[i] <= 1,
        forall|j: int| 0 <= j < N ==> -eta <= #[trigger] b[j] <= eta,
    ensures
        -(eta * crate::sample::nonzero_count(c, n as int)) <= nprod(c, b, n, k) <= eta
            * crate::sample::nonzero_count(c, n as int),
    decreases n,
{
    if n > 0 {
        let m = (n - 1) as nat;
        lemma_nprod_bound(c, b, eta, m, k);
        lemma_nshift_pow_bound(b, m, eta);
        let x = nshift_pow(b, m)[k];
        let w = crate::sample::nonzero_count(c, m as int);
        assert(crate::sample::nonzero_count(c, n as int) == w + if c[m as int] != 0 {
            1nat
        } else {
            0nat
        });
        if c[m as int] == 0 {
            assert(c[m as int] * x == 0);
        } else if c[m as int] == 1 {
            assert(c[m as int] * x == x);
            assert(eta * (w + 1) == eta * w + eta) by (nonlinear_arith);
        } else {
            assert(c[m as int] == -1);
            assert(c[m as int] * x == -x) by (nonlinear_arith)
                requires
                    c[m as int] == -1,
            ;
            assert(eta * (w + 1) == eta * w + eta) by (nonlinear_arith);
        }
    }
}

/// The negacyclic product of a polynomial with `τ` coefficients `±1` (the rest zero) and
/// one with coefficients in `[−η, η]` has coefficients in `[−τ·η, τ·η]`.
pub proof fn lemma_negacyclic_bound(c: Seq<int>, b: Seq<int>, tau: int, eta: int)
    requires
        c.len() == N,
        b.len() == N,
        eta >= 0,
        forall|i: int| 0 <= i < N ==> -1 <= #[trigger] c[i] <= 1,
        crate::sample::nonzero_count(c, N as int) == tau,
        forall|j: int| 0 <= j < N ==> -eta <= #[trigger] b[j] <= eta,
    ensures
        forall|k: int| 0 <= k < N ==> -(tau * eta) <= #[trigger] negacyclic(c, b)[k] <= tau * eta,
{
    assert forall|k: int| 0 <= k < N implies -(tau * eta) <= #[trigger] negacyclic(c, b)[k] <= tau * eta by {
        lemma_nprod_bound(c, b, eta, 256, k);
        assert(eta * tau == tau * eta) by (nonlinear_arith);
    }
}


/// Both transforms give 256 coefficients in `[0, q)`.
pub proof fn lemma_ntt_canonical(w: Seq<int>)
    ensures
        canonical(ntt_spec(w)),
        canonical(inv_ntt_spec(w)),
{
    assert(ntt_upto(reduce_all(w), 8) == fwd_layer(ntt_upto(reduce_all(w), 7), layer_len(7)));
}

} // verus!
