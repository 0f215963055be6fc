//! `Z_q` modular arithmetic primitives. The baseline reduces with a division;
//! the improved path uses division-free Montgomery reduction.
use crate::ct::caddq;
use crate::params::Q;
use vstd::prelude::*;

verus! {

/// `x mod q` in `[0, q)` (Euclidean remainder on mathematical integers).
pub open spec fn mod_q(x: int) -> int {
    x % (Q as int)
}

/// Reduce a wide value into the canonical range `[0, q)`.
pub fn reduce_q(x: i64) -> (r: i32)
    ensures
        r == mod_q(x as int),
        0 <= r < Q,
{
    let q: i64 = Q as i64;
    let m = x % q;
    let r = if m < 0 {
        m + q
    } else {
        m
    };
    assert(r as int % (Q as int) == x as int % (Q as int)) by {
        vstd::arithmetic::div_mod::lemma_mod_add_multiples_vanish(m as int, Q as int);
    }
    proof { vstd::arithmetic::div_mod::lemma_small_mod(r as nat, Q as nat); }
    r as i32
}

/// `q^{-1} mod 2^32`.
pub const QINV: u32 = 58_728_449;

/// `R^2 mod q` where `R = 2^32`.
pub const R2: i64 = 2_365_951;

/// `q · QINV ≡ 1 (mod 2^32)` and `R2 = 2^64 mod q`.
pub proof fn lemma_montgomery_constants()
    ensures
        (Q as int * QINV as int) % 0x1_0000_0000 == 1,
        R2 as int == 0x1_0000_0000_0000_0000int % (Q as int),
        0 <= R2 < Q,
{
}

/// The low 32 bits of `q · t` give back `a` when `t = a · q^{-1} mod 2^32`.
proof fn lemma_montgomery_low_product(al: u32, t: i32)
    by (bit_vector)
    requires
        t == ((al * 58728449u32) as u32) as i32,
    ensures
        (((t as u32) * 8380417u32) as u32) == al,
{
}

/// `a − t·q` is a multiple of `2^32` when the low words of `a` and `t·q` agree.
proof fn lemma_montgomery_divisible(a: i64, t: i32)
    by (bit_vector)
    requires
        (((t as u32) * 8380417u32) as u32) == a as u32,
    ensures
        ((a - (t as i64) * 8380417i64) as i64) & 0xffff_ffffi64 == 0,
{
}

/// An arithmetic shift by 32 is exact on a multiple of `2^32`.
proof fn lemma_shift_exact(x: i64)
    by (bit_vector)
    requires
        x & 0xffff_ffffi64 == 0,
    ensures
        (x >> 32) * 0x1_0000_0000i64 == x,
{
}

/// `a · q^{-1} mod 2^32`, taken in `[-2^31, 2^31)`: the `t` of Algorithm 49.
pub open spec fn montgomery_t(a: int) -> int {
    let u = (a * QINV as int) % 0x1_0000_0000;
    if u >= 0x8000_0000 {
        u - 0x1_0000_0000
    } else {
        u
    }
}

/// Algorithm 49's result, `(a − t·q) / 2^32`, where the division is exact.
pub open spec fn montgomery_spec(a: int) -> int {
    (a - montgomery_t(a) * Q as int) / 0x1_0000_0000
}

/// `t` is the only value in `[-2^31, 2^31)` with `a − t·q` a multiple of `2^32`.
proof fn lemma_montgomery_t_unique(a: int, t: int, k: int)
    requires
        -0x8000_0000 <= t < 0x8000_0000,
        a - t * (Q as int) == k * 0x1_0000_0000,
    ensures
        t == montgomery_t(a),
        montgomery_spec(a) == k,
{
    let j = t * 114592 + k * (QINV as int);
    assert(a * (QINV as int) == t + j * 0x1_0000_0000) by (nonlinear_arith)
        requires
            a - t * 8380417 == k * 0x1_0000_0000,
            j == t * 114592 + k * 58728449,
            QINV == 58728449,
    ;
    vstd::arithmetic::div_mod::lemma_mod_multiples_vanish(j, t, 0x1_0000_0000);
    if t >= 0 {
        vstd::arithmetic::div_mod::lemma_small_mod(t as nat, 0x1_0000_0000);
    } else {
        vstd::arithmetic::div_mod::lemma_mod_multiples_vanish(-1, t + 0x1_0000_0000, 0x1_0000_0000);
        vstd::arithmetic::div_mod::lemma_small_mod((t + 0x1_0000_0000) as nat, 0x1_0000_0000);
    }
    assert(a - montgomery_t(a) * (Q as int) == k * 0x1_0000_0000);
    vstd::arithmetic::div_mod::lemma_div_multiples_vanish(k, 0x1_0000_0000);
}

/// FIPS 204, Algorithm 49 — MontgomeryReduce: `r ≡ a · 2^{-32} (mod q)` with `|r| < q`.
pub fn montgomery_reduce(a: i64) -> (r: i32)
    requires
        -0x8000_0000 * (Q as int) < a < 0x8000_0000 * (Q as int),
    ensures
        r == montgomery_spec(a as int),
        -Q < r < Q,
        (r as int * 0x1_0000_0000 - a as int) % (Q as int) == 0,
{
    let al = a as u32;
    let tu = al.wrapping_mul(QINV);
    let t = tu as i32;
    proof {
        assert(tu == ((al * 58728449u32) as u32)) by (bit_vector)
            requires
                tu == ((al as nat * 58728449nat) % 0x1_0000_0000) as u32,
        ;
        lemma_montgomery_low_product(al, t);
        lemma_montgomery_divisible(a, t);
    }
    let x: i64 = a - t as i64 * Q as i64;
    assert(x == ((a - (t as i64) * 8380417i64) as i64));
    let r = x >> 32;
    proof {
        lemma_shift_exact(x);
    }
    assert(-Q < r < Q);
    assert((r as int * 0x1_0000_0000 - a as int) == -(t as int) * (Q as int));
    proof {
        vstd::arithmetic::div_mod::lemma_mod_multiples_basic(-(t as int), Q as int);
        lemma_montgomery_t_unique(a as int, t as int, r as int);
    }
    r as i32
}

/// `a − round(a / 2^23) · q`, rounding halves up: what `reduce32` computes.
pub open spec fn reduce32_spec(a: int) -> int {
    a - ((a + 0x40_0000) / 0x80_0000) * (Q as int)
}

/// For any i32, returns `r ≡ a (mod q)` with `|r| < q`, via one shift and one multiply.
pub fn reduce32(a: i32) -> (r: i32)
    ensures
        r == reduce32_spec(a as int),
        mod_q(r as int) == mod_q(a as int),
        -6_283_009 <= r <= 6_283_008,
{
    let s: i64 = a as i64 + 0x40_0000;
    let sh = s >> 23;
    assert(-256 <= sh <= 256 && -6_283_009 <= a as i64 - sh * 8380417i64 <= 6_283_008
        && sh * 0x80_0000 <= s < sh * 0x80_0000 + 0x80_0000) by (bit_vector)
        requires
            s == a as i64 + 0x40_0000i64,
            sh == s >> 23,
    ;
    proof {
        vstd::arithmetic::div_mod::lemma_fundamental_div_mod_converse(
            s as int,
            0x80_0000,
            sh as int,
            s as int - sh as int * 0x80_0000,
        );
    }
    let t = sh as i32;
    let r = (a as i64 - t as i64 * Q as i64) as i32;
    assert(a as int - r as int == t as int * (Q as int));
    proof {
        vstd::arithmetic::div_mod::lemma_mod_multiples_vanish(t as int, r as int, Q as int);
    }
    r
}

/// Branchless canonicalization to `[0, q)` without division and branch.
pub fn to_canonical(a: i32) -> (r: i32)
    ensures
        r == mod_q(a as int),
{
    let b = reduce32(a);
    let r = caddq(b);
    assert(mod_q(r as int) == mod_q(b as int)) by {
        vstd::arithmetic::div_mod::lemma_mod_add_multiples_vanish(b as int, Q as int);
    }
    proof { vstd::arithmetic::div_mod::lemma_small_mod(r as nat, Q as nat); }
    r
}

/// `|a|`.
pub open spec fn abs_int(a: int) -> int {
    if a < 0 {
        -a
    } else {
        a
    }
}

/// Rust's `alpha / 2` (division truncating towards zero).
pub open spec fn half_trunc(alpha: int) -> int {
    if alpha >= 0 {
        alpha / 2
    } else {
        -((-alpha) / 2)
    }
}

/// The representative of `r` that `mod±` gives: `r mod |alpha|`, less `alpha`
/// when above `alpha / 2`. For `alpha > 0` this is the value in
/// `(-alpha/2, alpha/2]` congruent to `r`.
pub open spec fn mod_pm_spec(r: int, alpha: int) -> int {
    let x = r % abs_int(alpha);
    if x > half_trunc(alpha) {
        x - alpha
    } else {
        x
    }
}

/// The representative of `r` in `(-alpha/2, alpha/2]`.
pub fn mod_pm(r: i32, alpha: i32) -> (res: i32)
    requires
        alpha != 0,
        !(r == i32::MIN && alpha == -1),
        i32::MIN <= mod_pm_spec(r as int, alpha as int) <= i32::MAX,
    ensures
        res == mod_pm_spec(r as int, alpha as int),
{
    let ghost a = alpha as int;
    assert(alpha != i32::MIN) by {
        if alpha == i32::MIN {
            assert(mod_pm_spec(r as int, a) == r as int % abs_int(a) - a);
        }
    }
    let abs_alpha: i32 = if alpha < 0 {
        -alpha
    } else {
        alpha
    };
    let m = r % abs_alpha;
    assert(abs_alpha as int == abs_int(a));
    assert(r >= 0 ==> m as int == (r as int) % (abs_alpha as int));
    assert(r < 0 ==> m as int == -((-(r as int)) % (abs_alpha as int)));
    let x = if m < 0 {
        m + abs_alpha
    } else {
        m
    };
    proof {
        vstd::arithmetic::div_mod::lemma_mod_add_multiples_vanish(m as int, abs_alpha as int);
        vstd::arithmetic::div_mod::lemma_small_mod(x as nat, abs_alpha as nat);
    }
    assert(x as int == r as int % abs_int(a)) by {
        let aa = abs_alpha as int;
        if r < 0 {
            let u = (-(r as int)) % aa;
            let k = (-(r as int)) / aa;
            vstd::arithmetic::div_mod::lemma_fundamental_div_mod(-(r as int), aa);
            if u == 0 {
                assert(r as int == aa * (-k)) by (nonlinear_arith)
                    requires
                        -(r as int) == aa * k + u,
                        u == 0,
                ;
                vstd::arithmetic::div_mod::lemma_mod_multiples_basic(-k, aa);
                vstd::arithmetic::mul::lemma_mul_is_commutative(-k, aa);
            } else {
                assert(r as int == aa * (-k - 1) + (aa - u)) by (nonlinear_arith)
                    requires
                        -(r as int) == aa * k + u,
                ;
                vstd::arithmetic::div_mod::lemma_mod_multiples_vanish(-k - 1, aa - u, aa);
                vstd::arithmetic::div_mod::lemma_small_mod((aa - u) as nat, aa as nat);
            }
        }
    }
    let half = if alpha >= 0 {
        alpha / 2
    } else {
        -(abs_alpha / 2)
    };
    assert(half == half_trunc(a));
    if x > half {
        assert(mod_pm_spec(r as int, a) == x - a);
        x - alpha
    } else {
        x
    }
}

} // verus!
