//! FIPS 204 §7.4 — rounding and hints (Algorithms 35–40), their branchless
//! (constant-time) counterparts, and componentwise `Poly` variants.
use crate::field::{abs_int, half_trunc, mod_pm, mod_pm_spec, mod_q, to_canonical};
use crate::params::{lemma_valid, valid_params, ParameterSet, D, N, Q};
use crate::poly::Poly;
use vstd::prelude::*;

verus! {

/// `2^d`.
pub const TWO_POW_D: i32 = 8192;

/// FIPS 204 Algorithm 35 on integers: `(r1, r0)` with `r mod q = r1·2^d + r0`.
pub open spec fn power2round_spec(r: int) -> (int, int) {
    let rp = mod_q(r);
    let r0 = mod_pm_spec(rp, 8192);
    ((rp - r0) / 8192, r0)
}

/// FIPS 204 Algorithm 36 on integers, for a given `gamma2`.
pub open spec fn decompose_spec(r: int, gamma2: int) -> (int, int) {
    let rp = mod_q(r);
    let r0 = mod_pm_spec(rp, 2 * gamma2);
    if rp - r0 == Q - 1 {
        (0, r0 - 1)
    } else {
        ((rp - r0) / (2 * gamma2), r0)
    }
}

/// FIPS 204 Algorithm 37: the `r1` part of Decompose.
pub open spec fn high_bits_spec(r: int, gamma2: int) -> int {
    decompose_spec(r, gamma2).0
}

/// FIPS 204 Algorithm 38: the `r0` part of Decompose.
pub open spec fn low_bits_spec(r: int, gamma2: int) -> int {
    decompose_spec(r, gamma2).1
}

/// FIPS 204 Algorithm 39: does adding `z` change the high bits of `r`?
pub open spec fn make_hint_spec(z: int, r: int, gamma2: int) -> bool {
    high_bits_spec(r, gamma2) != high_bits_spec(r + z, gamma2)
}

/// FIPS 204 Algorithm 40: high bits of `r`, adjusted by hint `h`.
pub open spec fn use_hint_spec(h: bool, r: int, gamma2: int) -> int {
    let m = (Q - 1) / (2 * gamma2);
    let (r1, r0) = decompose_spec(r, gamma2);
    if h && r0 > 0 {
        (r1 + 1) % m
    } else if h && r0 <= 0 {
        (r1 - 1) % m
    } else {
        r1
    }
}

/// The two `gamma2` values that FIPS 204 uses.
pub open spec fn gamma2_ok(gamma2: int) -> bool {
    gamma2 == 95232 || gamma2 == 261888
}

/// `m = (q-1)/(2γ2)` is 44 or 16, and `2γ2 · m = q - 1` exactly.
pub proof fn lemma_gamma2_m(gamma2: int)
    requires
        gamma2_ok(gamma2),
    ensures
        (Q - 1) / (2 * gamma2) == (if gamma2 == 95232 { 44int } else { 16int }),
        (2 * gamma2) * ((Q - 1) / (2 * gamma2)) == Q - 1,
{
    if gamma2 == 95232 {
        vstd::arithmetic::div_mod::lemma_fundamental_div_mod_converse(Q - 1, 2 * gamma2, 44, 0);
    } else {
        vstd::arithmetic::div_mod::lemma_fundamental_div_mod_converse(Q - 1, 2 * gamma2, 16, 0);
    }
}

/// `mod±` for a positive modulus: the result is congruent and in `(-alpha/2, alpha/2]`.
pub proof fn lemma_mod_pm_pos(x: int, alpha: int)
    requires
        alpha > 0,
        alpha % 2 == 0,
    ensures
        ({
            let r0 = mod_pm_spec(x, alpha);
            &&& -alpha / 2 < r0 <= alpha / 2
            &&& (x - r0) % alpha == 0
            &&& (x - r0) == alpha * (if x % alpha > alpha / 2 {
                x / alpha + 1
            } else {
                x / alpha
            })
        }),
{
    vstd::arithmetic::div_mod::lemma_fundamental_div_mod(x, alpha);
    let k = if x % alpha > alpha / 2 {
        x / alpha + 1
    } else {
        x / alpha
    };
    assert(x - mod_pm_spec(x, alpha) == alpha * k) by (nonlinear_arith)
        requires
            x == alpha * (x / alpha) + x % alpha,
            mod_pm_spec(x, alpha) == if x % alpha > alpha / 2 {
                x % alpha - alpha
            } else {
                x % alpha
            },
            k == if x % alpha > alpha / 2 {
                x / alpha + 1
            } else {
                x / alpha
            },
    ;
    vstd::arithmetic::div_mod::lemma_mod_multiples_basic(k, alpha);
    vstd::arithmetic::mul::lemma_mul_is_commutative(k, alpha);
}

/// Power2Round: `r mod q = r1·2^d + r0` with `r0` in `(-2^{d-1}, 2^{d-1}]`.
pub proof fn lemma_power2round(r: int)
    ensures
        ({
            let (r1, r0) = power2round_spec(r);
            &&& r1 * 8192 + r0 == mod_q(r)
            &&& -4096 < r0 <= 4096
            &&& 0 <= r1 <= 1023
        }),
{
    let rp = mod_q(r);
    lemma_mod_pm_pos(rp, 8192);
    let r0 = mod_pm_spec(rp, 8192);
    let k = if rp % 8192 > 4096 {
        rp / 8192 + 1
    } else {
        rp / 8192
    };
    assert((rp - r0) / 8192 == k) by {
        vstd::arithmetic::div_mod::lemma_div_multiples_vanish(k, 8192);
    }
}

/// Decompose: `r ≡ r1·2γ2 + r0 (mod q)`, `0 <= r1 < (q-1)/(2γ2)`, `-γ2 <= r0 <= γ2`.
pub proof fn lemma_decompose(r: int, gamma2: int)
    requires
        gamma2_ok(gamma2),
    ensures
        ({
            let (r1, r0) = decompose_spec(r, gamma2);
            &&& mod_q(r1 * (2 * gamma2) + r0) == mod_q(r)
            &&& 0 <= r1 < (Q - 1) / (2 * gamma2)
            &&& -gamma2 <= r0 <= gamma2
            &&& (r1 * (2 * gamma2) + r0 == mod_q(r) || (r1 == 0 && r0 == mod_q(r) - Q))
        }),
{
    let rp = mod_q(r);
    let a = 2 * gamma2;
    lemma_mod_pm_pos(rp, a);
    let r0 = mod_pm_spec(rp, a);
    let k = if rp % a > a / 2 {
        rp / a + 1
    } else {
        rp / a
    };
    assert((rp - r0) / a == k) by {
        vstd::arithmetic::div_mod::lemma_div_multiples_vanish(k, a);
    }
    let m = (Q - 1) / a;
    lemma_gamma2_m(gamma2);
    assert(0 <= k <= m) by {
        vstd::arithmetic::div_mod::lemma_fundamental_div_mod(rp, a);
        assert(rp / a <= m) by {
            vstd::arithmetic::div_mod::lemma_div_is_ordered(rp, Q - 1, a);
            vstd::arithmetic::div_mod::lemma_div_multiples_vanish(m, a);
        }
        if rp / a == m {
            assert(rp >= a * m) by (nonlinear_arith)
                requires
                    rp == a * (rp / a) + rp % a,
                    rp % a >= 0,
                    rp / a == m,
            ;
            assert(rp % a == 0);
        }
        vstd::arithmetic::div_mod::lemma_div_pos_is_pos(rp, a);
    }
    if rp - r0 != Q - 1 {
        assert(k != m);
    }
    vstd::arithmetic::div_mod::lemma_mod_twice(r, Q as int);
    let r1 = decompose_spec(r, gamma2).0;
    let r0f = decompose_spec(r, gamma2).1;
    vstd::arithmetic::mul::lemma_mul_is_commutative(k, a);
    if rp - r0 == Q - 1 {
        assert(r1 == 0 && r0f == r0 - 1);
        assert(r1 * a + r0f == rp - Q);
        vstd::arithmetic::div_mod::lemma_mod_add_multiples_vanish(rp - Q, Q as int);
    } else {
        assert(r1 == k && r0f == r0);
        assert(r1 * a + r0f == rp);
    }
}

/// FIPS 204, Algorithm 35 — Power2Round. Returns `(r1, r0)` with `r ≡ r1·2^d + r0`.
pub fn power2round(r: i32) -> (res: (i32, i32))
    ensures
        res.0 == power2round_spec(r as int).0,
        res.1 == power2round_spec(r as int).1,
        res.0 * 8192 + res.1 == mod_q(r as int),
        -4096 < res.1 <= 4096,
{
    let rp = rem_q(r);
    proof {
        lemma_power2round(r as int);
        lemma_mod_pm_pos(rp as int, 8192);
    }
    assert(rp == mod_q(r as int));
    let r0 = mod_pm(rp, TWO_POW_D);
    ((rp - r0) / TWO_POW_D, r0)
}

/// `r mod q` for an `i32`.
fn rem_q(r: i32) -> (rp: i32)
    ensures
        rp == mod_q(r as int),
        0 <= rp < Q,
{
    let m = r % Q;
    let rp = if m < 0 { m + Q } else { m };
    proof {
        vstd::arithmetic::div_mod::lemma_mod_add_multiples_vanish(m as int, Q as int);
        vstd::arithmetic::div_mod::lemma_small_mod(rp as nat, Q as nat);
    }
    rp
}

/// FIPS 204, Algorithm 36 — Decompose. Returns `(r1, r0)` with `r ≡ r1·(2·gamma2) + r0`.
pub fn decompose<P: ParameterSet>(r: i32) -> (res: (i32, i32))
    ensures
        res.0 == decompose_spec(r as int, P::GAMMA2 as int).0,
        res.1 == decompose_spec(r as int, P::GAMMA2 as int).1,
        mod_q(res.0 * (2 * P::GAMMA2) + res.1) == mod_q(r as int),
        0 <= res.0 < (Q - 1) / (2 * P::GAMMA2),
        -P::GAMMA2 <= res.1 <= P::GAMMA2,
{
    proof {
        lemma_valid::<P>();
        lemma_decompose(r as int, P::GAMMA2 as int);
        lemma_mod_pm_pos(mod_q(r as int), 2 * P::GAMMA2);
    }
    let two_gamma2 = 2 * P::GAMMA2;
    let rp = rem_q(r);
    let mut r0 = mod_pm(rp, two_gamma2);
    let r1;
    if rp - r0 == Q - 1 {
        r1 = 0;
        r0 -= 1;
    } else {
        r1 = (rp - r0) / two_gamma2;
    }
    (r1, r0)
}

/// FIPS 204, Algorithm 37 — HighBits: the `r1` part of `Decompose(r)`.
pub fn high_bits<P: ParameterSet>(r: i32) -> (r1: i32)
    ensures
        r1 == high_bits_spec(r as int, P::GAMMA2 as int),
        0 <= r1 < (Q - 1) / (2 * P::GAMMA2),
{
    decompose::<P>(r).0
}

/// FIPS 204, Algorithm 38 — LowBits: the `r0` part of `Decompose(r)`.
pub fn low_bits<P: ParameterSet>(r: i32) -> (r0: i32)
    ensures
        r0 == low_bits_spec(r as int, P::GAMMA2 as int),
        -P::GAMMA2 <= r0 <= P::GAMMA2,
{
    decompose::<P>(r).1
}

/// FIPS 204, Algorithm 39 — MakeHint: does adding `z` change the high bits of `r`?
pub fn make_hint<P: ParameterSet>(z: i32, r: i32) -> (h: bool)
    requires
        i32::MIN <= r + z <= i32::MAX,
    ensures
        h == make_hint_spec(z as int, r as int, P::GAMMA2 as int),
{
    high_bits::<P>(r) != high_bits::<P>(r + z)
}

/// FIPS 204, Algorithm 40 — UseHint: high bits of `r`, adjusted by hint `h`.
pub fn use_hint<P: ParameterSet>(h: bool, r: i32) -> (r1: i32)
    ensures
        r1 == use_hint_spec(h, r as int, P::GAMMA2 as int),
        0 <= r1 < (Q - 1) / (2 * P::GAMMA2),
{
    proof {
        lemma_valid::<P>();
    }
    let m = (Q - 1) / (2 * P::GAMMA2);
    let (r1, r0) = decompose::<P>(r);
    proof {
        let mi = m as int;
        lemma_gamma2_m(P::GAMMA2 as int);
        if r1 + 1 == mi {
            vstd::arithmetic::div_mod::lemma_mod_self_0(mi);
        } else {
            vstd::arithmetic::div_mod::lemma_small_mod((r1 + 1) as nat, mi as nat);
        }
        if r1 == 0 {
            vstd::arithmetic::div_mod::lemma_mod_add_multiples_vanish(-1, mi);
            vstd::arithmetic::div_mod::lemma_small_mod((mi - 1) as nat, mi as nat);
        } else {
            vstd::arithmetic::div_mod::lemma_small_mod((r1 - 1) as nat, mi as nat);
        }
    }
    if h && r0 > 0 {
        let v = r1 + 1;
        if v == m { 0 } else { v }
    } else if h && r0 <= 0 {
        let v = r1 - 1;
        if v < 0 { v + m } else { v }
    } else {
        r1
    }
}

/// The high bits in closed form: `r1 = ⌊(r⁺ + γ2 − 1) / 2γ2⌋ mod m`, and `r0` the rest.
pub proof fn lemma_decompose_closed_form(a: int, gamma2: int)
    requires
        gamma2_ok(gamma2),
        0 <= a < Q,
    ensures
        ({
            let big_a = 2 * gamma2;
            let m = (Q - 1) / big_a;
            let k = (a + gamma2 - 1) / big_a;
            &&& 0 <= k <= m
            &&& decompose_spec(a, gamma2).0 == k % m
            &&& decompose_spec(a, gamma2).1 == if k == m {
                a - Q
            } else {
                a - k * big_a
            }
        }),
{
    let big_a = 2 * gamma2;
    lemma_gamma2_m(gamma2);
    let m = (Q - 1) / big_a;
    vstd::arithmetic::div_mod::lemma_small_mod(a as nat, Q as nat);
    lemma_mod_pm_pos(a, big_a);
    vstd::arithmetic::div_mod::lemma_fundamental_div_mod(a, big_a);
    let qt = a / big_a;
    let rem = a % big_a;
    let k = if rem > gamma2 {
        qt + 1
    } else {
        qt
    };
    if rem > gamma2 {
        vstd::arithmetic::div_mod::lemma_fundamental_div_mod_converse(
            a + gamma2 - 1,
            big_a,
            qt + 1,
            rem + gamma2 - 1 - big_a,
        );
    } else {
        vstd::arithmetic::div_mod::lemma_fundamental_div_mod_converse(
            a + gamma2 - 1,
            big_a,
            qt,
            rem + gamma2 - 1,
        );
    }
    assert(k == (a + gamma2 - 1) / big_a);
    lemma_decompose(a, gamma2);
    let r0 = mod_pm_spec(a, big_a);
    assert(a - r0 == big_a * k);
    vstd::arithmetic::mul::lemma_mul_is_commutative(k, big_a);
    assert(0 <= k <= m) by {
        vstd::arithmetic::div_mod::lemma_div_is_ordered(a + gamma2 - 1, Q - 1 + gamma2 - 1, big_a);
        vstd::arithmetic::div_mod::lemma_fundamental_div_mod_converse(
            Q - 1 + gamma2 - 1,
            big_a,
            m,
            gamma2 - 1,
        );
        vstd::arithmetic::div_mod::lemma_div_pos_is_pos(a + gamma2 - 1, big_a);
    }
    assert((a - r0) / big_a == k) by {
        vstd::arithmetic::div_mod::lemma_div_multiples_vanish(k, big_a);
    }
    if k == m {
        vstd::arithmetic::div_mod::lemma_mod_self_0(m);
    } else {
        vstd::arithmetic::div_mod::lemma_small_mod(k as nat, m as nat);
    }
}

/// Fixed-point rounding for `γ2 = (q−1)/32`: `((⌈a/128⌉·1025 + 2^21) >> 22) & 15`.
proof fn lemma_high_bits_fixed_point_32(a: i32, a1: i32, b: i32)
    by (bit_vector)
    requires
        0 <= a < 8380417,
        a1 == ((a + 127) as i32) >> 7,
        b == ((a1 * 1025 + 0x20_0000) as i32) >> 22,
    ensures
        b & 15 == ((a + 261887) / 523776) % 16,
{
}

/// Fixed-point rounding for `γ2 = (q−1)/88`, with 44 folded to 0.
proof fn lemma_high_bits_fixed_point_88(a: i32, a1: i32, b: i32)
    by (bit_vector)
    requires
        0 <= a < 8380417,
        a1 == ((a + 127) as i32) >> 7,
        b == ((a1 * 11275 + 0x80_0000) as i32) >> 24,
    ensures
        b ^ ((((43 - b) as i32) >> 31) & b) == ((a + 95231) / 190464) % 44,
{
}

/// Decompose depends on `r` only through `r mod q`.
pub proof fn lemma_decompose_mod_q(r: int, gamma2: int)
    ensures
        decompose_spec(r, gamma2) == decompose_spec(mod_q(r), gamma2),
{
    vstd::arithmetic::div_mod::lemma_mod_twice(r, Q as int);
}

/// The hint law for canonical inputs, on the closed form of Decompose.
#[verifier::rlimit(50)]
proof fn lemma_hint_closed(
    a: int,
    b: int,
    z: int,
    g: int,
    big_a: int,
    m: int,
    ka: int,
    kb: int,
    ra: int,
    rb: int,
)
    requires
        (g == 95232 && big_a == 190464 && m == 44) || (g == 261888 && big_a == 523776 && m
            == 16),
        -g <= z <= g,
        0 <= a < Q,
        0 <= b < Q,
        b == a + z || b == a + z - Q || b == a + z + Q,
        a + g - 1 == big_a * ka + ra,
        0 <= ra < big_a,
        b + g - 1 == big_a * kb + rb,
        0 <= rb < big_a,
        0 <= ka <= m,
        0 <= kb <= m,
    ensures
        ({
            let ha = if ka == m { 0 } else { ka };
            let hb = if kb == m { 0 } else { kb };
            let lb = if kb == m { b - Q } else { b - kb * big_a };
            let used = if ha != hb && lb > 0 {
                if hb + 1 == m { 0 } else { hb + 1 }
            } else if ha != hb && lb <= 0 {
                if hb == 0 { m - 1 } else { hb - 1 }
            } else {
                hb
            };
            used == ha
        }),
{
}

/// The hint law for canonical inputs and a fixed `γ2`.
proof fn lemma_hint_canonical(a: int, b: int, z: int, gamma2: int)
    requires
        gamma2_ok(gamma2),
        -gamma2 <= z <= gamma2,
        0 <= a < Q,
        0 <= b < Q,
        b == a + z || b == a + z - Q || b == a + z + Q,
    ensures
        use_hint_spec(
            high_bits_spec(a, gamma2) != high_bits_spec(b, gamma2),
            b,
            gamma2,
        ) == high_bits_spec(a, gamma2),
{
    lemma_decompose_closed_form(a, gamma2);
    lemma_decompose_closed_form(b, gamma2);
    lemma_gamma2_m(gamma2);
    let big_a = 2 * gamma2;
    let m = (Q - 1) / big_a;
    let ka = (a + gamma2 - 1) / big_a;
    let kb = (b + gamma2 - 1) / big_a;
    vstd::arithmetic::div_mod::lemma_fundamental_div_mod(a + gamma2 - 1, big_a);
    vstd::arithmetic::div_mod::lemma_fundamental_div_mod(b + gamma2 - 1, big_a);
    lemma_hint_closed(
        a,
        b,
        z,
        gamma2,
        big_a,
        m,
        ka,
        kb,
        (a + gamma2 - 1) % big_a,
        (b + gamma2 - 1) % big_a,
    );
    if ka == m {
        vstd::arithmetic::div_mod::lemma_mod_self_0(m);
    } else {
        vstd::arithmetic::div_mod::lemma_small_mod(ka as nat, m as nat);
    }
    if kb == m {
        vstd::arithmetic::div_mod::lemma_mod_self_0(m);
    } else {
        vstd::arithmetic::div_mod::lemma_small_mod(kb as nat, m as nat);
    }
    let hb = high_bits_spec(b, gamma2);
    if hb + 1 == m {
        vstd::arithmetic::div_mod::lemma_mod_self_0(m);
    } else {
        vstd::arithmetic::div_mod::lemma_small_mod((hb + 1) as nat, m as nat);
    }
    if hb == 0 {
        vstd::arithmetic::div_mod::lemma_mod_add_multiples_vanish(-1, m);
        vstd::arithmetic::div_mod::lemma_small_mod((m - 1) as nat, m as nat);
    } else {
        vstd::arithmetic::div_mod::lemma_small_mod((hb - 1) as nat, m as nat);
    }
}

/// The hint law: for `|z| <= γ2`, `UseHint(MakeHint(z, r), r + z) = HighBits(r)`.
pub proof fn lemma_use_hint_make_hint(z: int, r: int, gamma2: int)
    requires
        gamma2_ok(gamma2),
        -gamma2 <= z <= gamma2,
    ensures
        use_hint_spec(make_hint_spec(z, r, gamma2), r + z, gamma2) == high_bits_spec(r, gamma2),
{
    lemma_decompose_mod_q(r, gamma2);
    lemma_decompose_mod_q(r + z, gamma2);
    let a = mod_q(r);
    let b = mod_q(r + z);
    vstd::arithmetic::div_mod::lemma_add_mod_noop(r, z, Q as int);
    vstd::arithmetic::div_mod::lemma_mod_twice(z, Q as int);
    vstd::arithmetic::div_mod::lemma_fundamental_div_mod(a + mod_q(z), Q as int);
    if z >= 0 {
        vstd::arithmetic::div_mod::lemma_small_mod(z as nat, Q as nat);
    } else {
        vstd::arithmetic::div_mod::lemma_mod_add_multiples_vanish(z, Q as int);
        vstd::arithmetic::div_mod::lemma_small_mod((z + Q) as nat, Q as nat);
    }
    assert(b == a + z || b == a + z - Q || b == a + z + Q);
    lemma_hint_canonical(a, b, z, gamma2);
    assert(use_hint_spec(make_hint_spec(z, r, gamma2), r + z, gamma2) == use_hint_spec(
        high_bits_spec(a, gamma2) != high_bits_spec(b, gamma2),
        b,
        gamma2,
    ));
}

/// The centred representative modulo `q` is congruent to its input.
pub proof fn lemma_mod_pm_q_congruent(x: int)
    ensures
        mod_q(mod_pm_spec(x, Q as int)) == mod_q(x),
        -(Q as int) / 2 <= mod_pm_spec(x, Q as int) <= (Q as int) / 2,
{
    let q = Q as int;
    let r = x % q;
    vstd::arithmetic::div_mod::lemma_mod_twice(x, q);
    if mod_pm_spec(x, q) != r {
        vstd::arithmetic::div_mod::lemma_mod_sub_multiples_vanish(r, q);
    }
}

/// Decompose reads its input modulo `q`.
pub proof fn lemma_decompose_congruent(x: int, y: int, gamma2: int)
    requires
        mod_q(x) == mod_q(y),
    ensures
        decompose_spec(x, gamma2) == decompose_spec(y, gamma2),
        high_bits_spec(x, gamma2) == high_bits_spec(y, gamma2),
        low_bits_spec(x, gamma2) == low_bits_spec(y, gamma2),
{
}

/// Decompose is determined by a representation `r ≡ a·2γ2 + b` with `0 ≤ a < m` and
/// `|b| < γ2`.
pub proof fn lemma_decompose_unique(r: int, a: int, b: int, gamma2: int)
    requires
        gamma2_ok(gamma2),
        0 <= a < (Q - 1) / (2 * gamma2),
        -gamma2 < b < gamma2,
        mod_q(a * (2 * gamma2) + b) == mod_q(r),
    ensures
        decompose_spec(r, gamma2) == (a, b),
{
    let q = Q as int;
    let g2 = 2 * gamma2;
    let m = (Q - 1) / g2;
    lemma_gamma2_m(gamma2);
    lemma_decompose(r, gamma2);
    let (r1, r0) = decompose_spec(r, gamma2);
    let rp = mod_q(r);
    let v = a * g2 + b;
    assert(a * g2 <= (m - 1) * g2) by (nonlinear_arith)
        requires
            a <= m - 1,
            g2 > 0,
    ;
    assert((m - 1) * g2 == q - 1 - g2) by (nonlinear_arith)
        requires
            g2 * m == q - 1,
    ;
    assert(0 <= a * g2) by (nonlinear_arith)
        requires
            a >= 0,
            g2 > 0,
    ;
    assert(r1 * g2 <= (m - 1) * g2) by (nonlinear_arith)
        requires
            r1 <= m - 1,
            g2 > 0,
    ;
    assert(0 <= r1 * g2) by (nonlinear_arith)
        requires
            r1 >= 0,
            g2 > 0,
    ;
    if v >= 0 {
        vstd::arithmetic::div_mod::lemma_small_mod(v as nat, q as nat);
        assert(rp == v);
        if r1 * g2 + r0 == rp {
            assert((r1 - a) * g2 == b - r0) by (nonlinear_arith)
                requires
                    r1 * g2 + r0 == a * g2 + b,
            ;
            assert(r1 - a == 0) by (nonlinear_arith)
                requires
                    (r1 - a) * g2 == b - r0,
                    -g2 < b - r0 < g2,
                    g2 > 0,
            ;
        } else {
            assert(r0 == rp - q);
            assert(false);
        }
    } else {
        assert(a == 0) by (nonlinear_arith)
            requires
                a * g2 + b < 0,
                a >= 0,
                b > -gamma2,
                g2 == 2 * gamma2,
                gamma2 > 0,
        ;
        vstd::arithmetic::div_mod::lemma_mod_add_multiples_vanish(v, q);
        vstd::arithmetic::div_mod::lemma_small_mod((v + q) as nat, q as nat);
        assert(rp == v + q);
        if r1 * g2 + r0 == rp {
            assert(false);
        }
    }
}

/// Adding `s` with `|s| ≤ β` keeps the high bits of `r` when its low bits are below
/// `γ2 − β` in magnitude.
pub proof fn lemma_high_bits_stable(r: int, s: int, gamma2: int, beta: int)
    requires
        gamma2_ok(gamma2),
        0 <= beta,
        -beta <= s <= beta,
        -(gamma2 - beta) < low_bits_spec(r, gamma2) < gamma2 - beta,
    ensures
        high_bits_spec(r + s, gamma2) == high_bits_spec(r, gamma2),
{
    let q = Q as int;
    lemma_decompose(r, gamma2);
    let (r1, r0) = decompose_spec(r, gamma2);
    let g2 = 2 * gamma2;
    vstd::arithmetic::div_mod::lemma_add_mod_noop(r1 * g2 + r0, s, q);
    vstd::arithmetic::div_mod::lemma_add_mod_noop(r, s, q);
    assert(r1 * g2 + r0 + s == r1 * g2 + (r0 + s));
    lemma_decompose_unique(r + s, r1, r0 + s, gamma2);
}

/// The hint as the signer makes it, `MakeHint(−ct0, r)` with `|ct0 mod± q| ≤ γ2`, lets
/// UseHint on (anything congruent to) `r` recover the high bits of `r − ct0`.
pub proof fn lemma_use_hint_signer(ct: int, r: int, rv: int, gamma2: int)
    requires
        gamma2_ok(gamma2),
        -gamma2 <= mod_pm_spec(ct, Q as int) <= gamma2,
        mod_q(rv) == mod_q(r),
    ensures
        use_hint_spec(make_hint_spec(mod_q(-ct), r, gamma2), rv, gamma2) == high_bits_spec(
            r - ct,
            gamma2,
        ),
{
    let q = Q as int;
    let ctc = mod_pm_spec(ct, q);
    assert(mod_q(ctc) == mod_q(ct)) by {
        let x = ct % q;
        vstd::arithmetic::div_mod::lemma_mod_twice(ct, q);
        if ctc != x {
            assert(ctc == x - q);
            vstd::arithmetic::div_mod::lemma_mod_sub_multiples_vanish(x, q);
        }
    }
    // the hint on (ctc, r − ctc) is the signer's hint
    vstd::arithmetic::div_mod::lemma_add_mod_noop(r, -ct, q);
    vstd::arithmetic::div_mod::lemma_mod_twice(-ct, q);
    vstd::arithmetic::div_mod::lemma_sub_mod_noop(r, ctc, q);
    vstd::arithmetic::div_mod::lemma_sub_mod_noop(r, ct, q);
    assert(mod_q(r + mod_q(-ct)) == mod_q(r - ctc));
    lemma_decompose_congruent(r + mod_q(-ct), r - ctc, gamma2);
    assert(r - ctc + ctc == r);
    assert(make_hint_spec(mod_q(-ct), r, gamma2) == make_hint_spec(ctc, r - ctc, gamma2));
    lemma_use_hint_make_hint(ctc, r - ctc, gamma2);
    lemma_decompose_congruent(rv, r, gamma2);
    lemma_decompose_congruent(r - ctc, r - ct, gamma2);
}

/// Branchless [`decompose`]: the same `(r1, r0)` for every input, computed with
/// a fixed-point multiply for `r1` and a masked subtract of `q` for `r0` (which
/// also absorbs the `r⁺ − r0 = q − 1` case).
pub fn decompose_ct<P: ParameterSet>(r: i32) -> (res: (i32, i32))
    ensures
        res.0 == decompose_spec(r as int, P::GAMMA2 as int).0,
        res.1 == decompose_spec(r as int, P::GAMMA2 as int).1,
{
    proof {
        lemma_valid::<P>();
    }
    let a = to_canonical(r);
    let ghost a0_in = a;
    let mut a1 = (a + 127) >> 7;
    let ghost a1_first = a1;
    assert(0 <= a1_first <= 65472) by (bit_vector)
        requires
            0 <= a < 8380417,
            a1_first == ((a + 127) as i32) >> 7,
    ;
    if P::GAMMA2 == 261_888 {
        a1 = (a1 * 1025 + 0x20_0000) >> 22;
        proof {
            lemma_high_bits_fixed_point_32(a, a1_first, a1);
        }
        a1 &= 15;
    } else {
        a1 = (a1 * 11275 + 0x80_0000) >> 24;
        assert(0 <= a1 <= 44) by (bit_vector)
            requires
                0 <= a1_first <= 65472,
                a1 == ((a1_first * 11275 + 0x80_0000) as i32) >> 24,
        ;
        proof {
            lemma_high_bits_fixed_point_88(a, a1_first, a1);
        }
        a1 ^= ((43 - a1) >> 31) & a1;
    }
    proof {
        vstd::arithmetic::div_mod::lemma_mod_twice(r as int, Q as int);
        lemma_decompose_closed_form(a as int, P::GAMMA2 as int);
        lemma_gamma2_m(P::GAMMA2 as int);
        assert(decompose_spec(a as int, P::GAMMA2 as int) == decompose_spec(r as int, P::GAMMA2 as int));
    }
    let ghost k = (a + P::GAMMA2 - 1) / (2 * P::GAMMA2 as int);
    assert(a1 == k % ((Q - 1) / (2 * P::GAMMA2 as int)));
    let mut a0 = a - a1 * 2 * P::GAMMA2;
    let mask = crate::ct::gt_mask(a0, (Q - 1) / 2);
    let sub = mask & Q;
    assert(sub == if mask == -1 { 8380417i32 } else { 0i32 }) by (bit_vector)
        requires
            mask == -1 || mask == 0,
            sub == mask & 8380417i32,
    ;
    a0 -= sub;
    (a1, a0)
}

/// Branchless [`high_bits`].
pub fn high_bits_ct<P: ParameterSet>(r: i32) -> (r1: i32)
    ensures
        r1 == high_bits_spec(r as int, P::GAMMA2 as int),
{
    decompose_ct::<P>(r).0
}

/// Branchless [`low_bits`].
pub fn low_bits_ct<P: ParameterSet>(r: i32) -> (r0: i32)
    ensures
        r0 == low_bits_spec(r as int, P::GAMMA2 as int),
{
    decompose_ct::<P>(r).1
}

/// Branchless [`make_hint`]: `0`/`1` instead of `bool`, computed by masked
/// comparison of the two high-bits values.
pub fn make_hint_ct<P: ParameterSet>(z: i32, r: i32) -> (h: i32)
    requires
        i32::MIN <= r + z <= i32::MAX,
    ensures
        h == if make_hint_spec(z as int, r as int, P::GAMMA2 as int) { 1i32 } else { 0i32 },
{
    crate::ct::ne_bit(high_bits_ct::<P>(r), high_bits_ct::<P>(r + z))
}

/// `true` as `1`, `false` as `0`.
pub open spec fn bool_to_int(b: bool) -> int {
    if b {
        1
    } else {
        0
    }
}

/// Every coefficient sum `r_i + z_i` fits an `i32`.
pub open spec fn sums_fit(z: Poly, r: Poly) -> bool {
    forall|i: int|
        0 <= i < N ==> i32::MIN <= #[trigger] r.coeffs[i] + z.coeffs[i] <= i32::MAX
}

/// Power2Round applied to every coefficient; returns `(t1, t0)`.
pub fn power2round_poly(r: &Poly) -> (res: (Poly, Poly))
    ensures
        forall|i: int|
            0 <= i < N ==> (#[trigger] res.0.coeffs[i]) == power2round_spec(r.coeffs[i] as int).0,
        forall|i: int|
            0 <= i < N ==> (#[trigger] res.1.coeffs[i]) == power2round_spec(r.coeffs[i] as int).1,
{
    let mut t1 = Poly::zero();
    let mut t0 = Poly::zero();
    for i in 0..N
        invariant
            forall|k: int|
                0 <= k < i ==> (#[trigger] t1.coeffs[k]) == power2round_spec(
                    r.coeffs[k] as int,
                ).0,
            forall|k: int|
                0 <= k < i ==> (#[trigger] t0.coeffs[k]) == power2round_spec(
                    r.coeffs[k] as int,
                ).1,
    {
        let (a, b) = power2round(r.coeffs[i]);
        t1.coeffs[i] = a;
        t0.coeffs[i] = b;
    }
    (t1, t0)
}

/// HighBits applied to every coefficient.
pub fn high_bits_poly<P: ParameterSet>(r: &Poly) -> (out: Poly)
    ensures
        forall|i: int|
            0 <= i < N ==> (#[trigger] out.coeffs[i]) == high_bits_spec(
                r.coeffs[i] as int,
                P::GAMMA2 as int,
            ),
{
    let mut out = Poly::zero();
    for i in 0..N
        invariant
            forall|k: int|
                0 <= k < i ==> (#[trigger] out.coeffs[k]) == high_bits_spec(
                    r.coeffs[k] as int,
                    P::GAMMA2 as int,
                ),
    {
        out.coeffs[i] = high_bits::<P>(r.coeffs[i]);
    }
    out
}

/// LowBits applied to every coefficient.
pub fn low_bits_poly<P: ParameterSet>(r: &Poly) -> (out: Poly)
    ensures
        forall|i: int|
            0 <= i < N ==> (#[trigger] out.coeffs[i]) == low_bits_spec(
                r.coeffs[i] as int,
                P::GAMMA2 as int,
            ),
{
    let mut out = Poly::zero();
    for i in 0..N
        invariant
            forall|k: int|
                0 <= k < i ==> (#[trigger] out.coeffs[k]) == low_bits_spec(
                    r.coeffs[k] as int,
                    P::GAMMA2 as int,
                ),
    {
        out.coeffs[i] = low_bits::<P>(r.coeffs[i]);
    }
    out
}

/// MakeHint applied componentwise; hint coefficients are `0`/`1`.
pub fn make_hint_poly<P: ParameterSet>(z: &Poly, r: &Poly) -> (h: Poly)
    requires
        sums_fit(*z, *r),
    ensures
        forall|i: int|
            0 <= i < N ==> (#[trigger] h.coeffs[i]) == bool_to_int(
                make_hint_spec(z.coeffs[i] as int, r.coeffs[i] as int, P::GAMMA2 as int),
            ),
{
    let mut h = Poly::zero();
    for i in 0..N
        invariant
            sums_fit(*z, *r),
            forall|k: int|
                0 <= k < i ==> (#[trigger] h.coeffs[k]) == bool_to_int(
                    make_hint_spec(z.coeffs[k] as int, r.coeffs[k] as int, P::GAMMA2 as int),
                ),
    {
        assert(i32::MIN <= r.coeffs[i as int] + z.coeffs[i as int] <= i32::MAX);
        let b = make_hint::<P>(z.coeffs[i], r.coeffs[i]);
        h.coeffs[i] = if b { 1 } else { 0 };
    }
    h
}

/// UseHint applied componentwise; `h` coefficients are interpreted as `0`/`1`.
pub fn use_hint_poly<P: ParameterSet>(h: &Poly, r: &Poly) -> (out: Poly)
    ensures
        forall|i: int|
            0 <= i < N ==> (#[trigger] out.coeffs[i]) == use_hint_spec(
                h.coeffs[i] != 0,
                r.coeffs[i] as int,
                P::GAMMA2 as int,
            ),
{
    let mut out = Poly::zero();
    for i in 0..N
        invariant
            forall|k: int|
                0 <= k < i ==> (#[trigger] out.coeffs[k]) == use_hint_spec(
                    h.coeffs[k] != 0,
                    r.coeffs[k] as int,
                    P::GAMMA2 as int,
                ),
    {
        out.coeffs[i] = use_hint::<P>(h.coeffs[i] != 0, r.coeffs[i]);
    }
    out
}

/// Branchless [`high_bits_poly`].
pub fn high_bits_poly_ct<P: ParameterSet>(r: &Poly) -> (out: Poly)
    ensures
        forall|i: int|
            0 <= i < N ==> (#[trigger] out.coeffs[i]) == high_bits_spec(
                r.coeffs[i] as int,
                P::GAMMA2 as int,
            ),
{
    let mut out = Poly::zero();
    for i in 0..N
        invariant
            forall|k: int|
                0 <= k < i ==> (#[trigger] out.coeffs[k]) == high_bits_spec(
                    r.coeffs[k] as int,
                    P::GAMMA2 as int,
                ),
    {
        out.coeffs[i] = high_bits_ct::<P>(r.coeffs[i]);
    }
    out
}

/// Branchless [`low_bits_poly`].
pub fn low_bits_poly_ct<P: ParameterSet>(r: &Poly) -> (out: Poly)
    ensures
        forall|i: int|
            0 <= i < N ==> (#[trigger] out.coeffs[i]) == low_bits_spec(
                r.coeffs[i] as int,
                P::GAMMA2 as int,
            ),
{
    let mut out = Poly::zero();
    for i in 0..N
        invariant
            forall|k: int|
                0 <= k < i ==> (#[trigger] out.coeffs[k]) == low_bits_spec(
                    r.coeffs[k] as int,
                    P::GAMMA2 as int,
                ),
    {
        out.coeffs[i] = low_bits_ct::<P>(r.coeffs[i]);
    }
    out
}

/// Branchless [`make_hint_poly`].
pub fn make_hint_poly_ct<P: ParameterSet>(z: &Poly, r: &Poly) -> (h: Poly)
    requires
        sums_fit(*z, *r),
    ensures
        forall|i: int|
            0 <= i < N ==> (#[trigger] h.coeffs[i]) == bool_to_int(
                make_hint_spec(z.coeffs[i] as int, r.coeffs[i] as int, P::GAMMA2 as int),
            ),
{
    let mut h = Poly::zero();
    for i in 0..N
        invariant
            sums_fit(*z, *r),
            forall|k: int|
                0 <= k < i ==> (#[trigger] h.coeffs[k]) == bool_to_int(
                    make_hint_spec(z.coeffs[k] as int, r.coeffs[k] as int, P::GAMMA2 as int),
                ),
    {
        assert(i32::MIN <= r.coeffs[i as int] + z.coeffs[i as int] <= i32::MAX);
        h.coeffs[i] = make_hint_ct::<P>(z.coeffs[i], r.coeffs[i]);
    }
    h
}

} // verus!
