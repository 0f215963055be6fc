use ml_dsa::expand::{expand_a, expand_mask, expand_s};
use ml_dsa::params::{MlDsa65, ParameterSet, Q};
use ml_dsa::sample::rej_ntt_poly;

const K: usize = MlDsa65::K;
const L: usize = MlDsa65::L;

#[test]
fn expand_a_range_and_deterministic() {
    let rho = [5u8; 32];
    let a = expand_a::<K, L>(&rho);
    assert!(a.rows[0].v[0].coeffs.iter().all(|&x| (0..Q).contains(&x)));
    assert!(a.rows[K - 1].v[L - 1].coeffs.iter().all(|&x| (0..Q).contains(&x)));
    assert_eq!(a.rows[2].v[1].coeffs, expand_a::<K, L>(&rho).rows[2].v[1].coeffs);
}

#[test]
fn expand_s_in_range() {
    let rho = [1u8; 64];
    let (s1, s2) = expand_s::<MlDsa65, K, L>(&rho);
    assert_eq!(s1.v.len(), L);
    assert_eq!(s2.v.len(), K);
    for p in s1.v.iter().chain(s2.v.iter()) {
        assert!(p.coeffs.iter().all(|&x| (-MlDsa65::ETA..=MlDsa65::ETA).contains(&x)));
    }
}

#[test]
fn expand_mask_in_range() {
    let rho = [2u8; 64];
    let y = expand_mask::<MlDsa65, L>(&rho, 0);
    assert_eq!(y.v.len(), L);
    for p in y.v.iter() {
        assert!(p
            .coeffs
            .iter()
            .all(|&x| (-(MlDsa65::GAMMA1 - 1)..=MlDsa65::GAMMA1).contains(&x)));
    }
}

#[test]
fn expand_a_entry_uses_column_then_row_seed() {
    let rho = [5u8; 32];
    let a = expand_a::<K, L>(&rho);
    let mut seed = [0u8; 34];
    seed[..32].copy_from_slice(&rho);
    seed[32] = 1; // column s
    seed[33] = 2; // row r
    assert_eq!(a.rows[2].v[1].coeffs, rej_ntt_poly(&seed).coeffs);
}

#[test]
fn expand_mask_counter_shifts_rows() {
    // Row r of ExpandMask(ρ, μ) uses counter μ + r.
    let rho = [9u8; 64];
    let y0 = expand_mask::<MlDsa65, L>(&rho, 0);
    let y1 = expand_mask::<MlDsa65, L>(&rho, 1);
    for r in 0..L - 1 {
        assert_eq!(y1.v[r].coeffs, y0.v[r + 1].coeffs);
    }
    assert_ne!(y0.v[0].coeffs, y1.v[0].coeffs);
}
