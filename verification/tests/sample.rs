use ml_dsa::params::{MlDsa44, MlDsa65, MlDsa87, ParameterSet, Q};
use ml_dsa::sample::{rej_bounded_poly, rej_ntt_poly, sample_in_ball};

#[test]
fn sample_in_ball_weight_and_values() {
    let rho = [7u8; 48];
    let c = sample_in_ball::<MlDsa65>(&rho);
    let nonzero = c.coeffs.iter().filter(|&&x| x != 0).count();
    assert_eq!(nonzero, MlDsa65::TAU, "Hamming weight must be τ");
    assert!(c.coeffs.iter().all(|&x| (-1..=1).contains(&x)));
    // determinism
    assert_eq!(c.coeffs, sample_in_ball::<MlDsa65>(&rho).coeffs);
    // a different τ gives a different Hamming weight from the same seed
    let c44 = sample_in_ball::<MlDsa44>(&rho[..32]);
    assert_eq!(c44.coeffs.iter().filter(|&&x| x != 0).count(), MlDsa44::TAU);
}

#[test]
fn rej_ntt_poly_range_and_deterministic() {
    let rho = [9u8; 34];
    let a = rej_ntt_poly(&rho);
    assert!(a.coeffs.iter().all(|&x| (0..Q).contains(&x)));
    assert_eq!(a.coeffs, rej_ntt_poly(&rho).coeffs);
}

#[test]
fn rej_bounded_poly_in_range() {
    let rho = [3u8; 66];
    let a = rej_bounded_poly::<MlDsa65>(&rho);
    assert!(a.coeffs.iter().all(|&x| (-MlDsa65::ETA..=MlDsa65::ETA).contains(&x)));
    assert_eq!(a.coeffs, rej_bounded_poly::<MlDsa65>(&rho).coeffs);
    // η = 2 branch
    let a44 = rej_bounded_poly::<MlDsa44>(&rho);
    assert!(a44.coeffs.iter().all(|&x| (-MlDsa44::ETA..=MlDsa44::ETA).contains(&x)));
}

#[test]
fn sample_in_ball_weight_for_every_set() {
    for seed in 0u8..20 {
        let rho = [seed; 64];
        let w = |c: &ml_dsa::poly::Poly| c.coeffs.iter().filter(|&&x| x != 0).count();
        assert_eq!(w(&sample_in_ball::<MlDsa44>(&rho[..32])), 39);
        assert_eq!(w(&sample_in_ball::<MlDsa65>(&rho[..48])), 49);
        assert_eq!(w(&sample_in_ball::<MlDsa87>(&rho)), 60);
    }
}

#[test]
fn samplers_depend_on_their_seed() {
    let mut rho = [9u8; 34];
    let a = rej_ntt_poly(&rho);
    rho[33] = 10;
    assert_ne!(a.coeffs, rej_ntt_poly(&rho).coeffs);
    let s = [3u8; 66];
    let mut t = s;
    t[64] = 4;
    assert_ne!(
        rej_bounded_poly::<MlDsa65>(&s).coeffs,
        rej_bounded_poly::<MlDsa65>(&t).coeffs
    );
}
