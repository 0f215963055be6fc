use ml_dsa::ct::{caddq, csubq, gt_mask, ne_bit};
use ml_dsa::params::Q;

#[test]
fn caddq_normalizes_negatives() {
    assert_eq!(caddq(-1), Q - 1);
    assert_eq!(caddq(0), 0);
    assert_eq!(caddq(5), 5);
    assert_eq!(caddq(-(Q - 1)), 1);
}

#[test]
fn csubq_reduces_at_q() {
    assert_eq!(csubq(Q), 0);
    assert_eq!(csubq(Q + 5), 5);
    assert_eq!(csubq(Q - 1), Q - 1);
    assert_eq!(csubq(0), 0);
}

#[test]
fn gt_mask_is_all_ones_exactly_when_greater() {
    assert_eq!(gt_mask(5, 3), -1);
    assert_eq!(gt_mask(3, 3), 0);
    assert_eq!(gt_mask(-7, 2), 0);
    assert_eq!(gt_mask(Q - 1, (Q - 1) / 2), -1);
}

#[test]
fn ne_bit_is_one_exactly_when_different() {
    assert_eq!(ne_bit(4, 4), 0);
    assert_eq!(ne_bit(4, 5), 1);
    assert_eq!(ne_bit(-1, 0), 1);
    assert_eq!(ne_bit(0, 0), 0);
}
