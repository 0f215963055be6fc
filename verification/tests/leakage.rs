use ml_dsa::leakage::{
    batch_common, batch_special, decompose_baseline_batch, decompose_ct_batch,
    make_hint_baseline_batch, make_hint_ct_batch, montgomery_batch, wide_fixed, BATCH,
};
use ml_dsa::params::{MlDsa65, Q};
use ml_dsa::rounding::{decompose, make_hint};

#[test]
fn batches_have_their_fixed_contents() {
    assert_eq!(BATCH, 256);
    assert_eq!(batch_special(), vec![Q - 1; 256]);
    assert_eq!(batch_common(), vec![1_234_567; 256]);
    assert_eq!(wide_fixed(-5), vec![-5i64; 256]);
}

#[test]
fn decompose_batches_agree_and_fold() {
    for batch in [batch_special(), batch_common()] {
        let base = decompose_baseline_batch(&batch);
        assert_eq!(decompose_ct_batch(&batch), base);
        let mut acc = 0i32;
        for &r in &batch {
            let (r1, r0) = decompose::<MlDsa65>(r);
            acc = acc.wrapping_add(r1).wrapping_add(r0);
        }
        assert_eq!(base, acc);
    }
    // q − 1 decomposes as (0, −1): the special batch sums to −256.
    assert_eq!(decompose_baseline_batch(&batch_special()), -256);
}

#[test]
fn make_hint_batches_agree_and_count() {
    let coeffs: Vec<i32> = (0..256).map(|i| i * 32_749).collect();
    let base = make_hint_baseline_batch(&coeffs);
    assert_eq!(make_hint_ct_batch(&coeffs), base);
    let expected = coeffs.iter().filter(|&&r| make_hint::<MlDsa65>(1, r)).count() as i32;
    assert_eq!(base, expected);
    // r = γ2 = 261888: adding 1 crosses into the next bucket.
    assert_eq!(make_hint_baseline_batch(&[261_888]), 1);
    assert_eq!(make_hint_ct_batch(&[0]), 0);
}

#[test]
fn montgomery_batch_sums_reductions() {
    let vals = wide_fixed(Q as i64 * 3);
    // a ≡ 0 (mod q) reduces to a multiple of q in (−q, q): 0.
    assert_eq!(montgomery_batch(&vals), 0);
    assert_eq!(montgomery_batch(&[]), 0);
    let r = ml_dsa::field::montgomery_reduce(1 << 32);
    assert_eq!(r, 1);
    assert_eq!(montgomery_batch(&[1 << 32, 1 << 32]), 2);
}
