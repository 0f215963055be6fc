use ml_dsa::field::{mod_pm, montgomery_reduce, reduce32, reduce_q, to_canonical, QINV, R2};
use ml_dsa::params::Q;

struct XorShift(u64);
impl XorShift {
    fn next_u64(&mut self) -> u64 {
        let mut x = self.0;
        x ^= x << 13;
        x ^= x >> 7;
        x ^= x << 17;
        self.0 = x;
        x
    }
}

#[test]
fn reduce_q_handles_negatives_and_overflow() {
    assert_eq!(reduce_q(-1), Q - 1);
    assert_eq!(reduce_q(Q as i64), 0);
    assert_eq!(reduce_q(2 * Q as i64 + 7), 7);
    assert_eq!(reduce_q(-(Q as i64) - 3), Q - 3);
}

#[test]
fn mod_pm_is_centred() {
    // alpha = 8 -> representatives in (-4, 4].
    assert_eq!(mod_pm(0, 8), 0);
    assert_eq!(mod_pm(4, 8), 4);
    assert_eq!(mod_pm(5, 8), -3);
    assert_eq!(mod_pm(7, 8), -1);
    assert_eq!(mod_pm(8, 8), 0);
}

#[test]
fn qinv_is_inverse_of_q_mod_2_32() {
    assert_eq!((Q as u32).wrapping_mul(QINV), 1);
    // R2 = 2^64 mod q, in [0, q).
    assert!((0..Q as i64).contains(&R2));
    assert_eq!(R2 as i128, (1i128 << 64) % Q as i128);
}

#[test]
fn montgomery_reduce_is_congruent_and_bounded() {
    let bound = (1i64 << 31) * Q as i64;
    let mut rng = XorShift(0x0dd0_51ac_e997_1234);
    let check = |a: i64| {
        let r = montgomery_reduce(a);
        assert!(r.unsigned_abs() < Q as u32, "|r| < q for a = {a}");
        // r · 2^32 ≡ a (mod q)
        assert_eq!(((r as i128) * (1i128 << 32) - a as i128).rem_euclid(Q as i128), 0);
    };
    for a in [0, 1, -1, Q as i64, -(Q as i64), bound - 1, -(bound - 1)] {
        check(a);
    }
    for _ in 0..100_000 {
        check(rng.next_u64() as i64 % bound);
    }
}

#[test]
fn to_canonical_equals_rem_euclid_on_full_i32_range() {
    let mut rng = XorShift(0x5eed_5eed_5eed_5eed);
    let check = |a: i32| {
        assert_eq!(to_canonical(a), a.rem_euclid(Q), "a = {a}");
    };
    for a in [0, 1, -1, Q - 1, Q, Q + 1, -Q, -(Q - 1), i32::MAX, i32::MIN, i32::MIN + 1] {
        check(a);
    }
    for _ in 0..1_000_000 {
        check(rng.next_u64() as i32);
    }
}

#[test]
fn reduce32_is_congruent_and_small() {
    for a in [0, 1, -1, Q, -Q, 2 * Q + 3, i32::MAX, i32::MIN, 123_456_789] {
        let r = reduce32(a);
        assert!(r.unsigned_abs() < Q as u32, "a = {a}");
        assert_eq!((r as i64 - a as i64).rem_euclid(Q as i64), 0, "a = {a}");
    }
}

#[test]
fn mod_pm_on_q_is_centred_representative() {
    assert_eq!(mod_pm(Q - 1, Q), -1);
    assert_eq!(mod_pm((Q - 1) / 2, Q), (Q - 1) / 2);
    assert_eq!(mod_pm((Q - 1) / 2 + 1, Q), -((Q - 1) / 2));
    assert_eq!(mod_pm(-3, 8), -3);
}

#[test]
fn montgomery_reduce_gives_algorithm_49_value() {
    // t = q^{-1} mod 2^32 = 58728449, so (1 − t·q) / 2^32 = −114592.
    assert_eq!(ml_dsa::field::montgomery_reduce(1), -114_592);
    assert_eq!(ml_dsa::leakage::montgomery_batch(&[1, 1]), -229_184);
}
