use qtv_stark::field::Felt;
use qtv_stark::lattice::Q;
use qtv_stark::norm::{norm_air, norm_batch, COL_MAG, COL_SIGN, COL_Z, NORM_BOUND};
use qtv_stark::stark::{prove, verify, StarkParams};

fn params() -> StarkParams {
    StarkParams { lde_blowup: 8, num_queries: 24 }
}

#[test]
fn small_and_negative_coefficients_pass() {
    let coeffs = [0u64, 1, 5, NORM_BOUND - 1, Q - 1, Q - (NORM_BOUND - 1)];
    let batch = norm_batch(&coeffs);
    assert!(batch.air.is_satisfied(&batch.trace));
}

#[test]
fn a_coefficient_on_the_bound_is_rejected() {
    let batch = norm_batch(&[NORM_BOUND]);
    assert!(!batch.air.is_satisfied(&batch.trace));
}

#[test]
fn a_middle_band_coefficient_is_rejected() {
    let batch = norm_batch(&[Q / 2]);
    assert!(!batch.air.is_satisfied(&batch.trace));
}

#[test]
fn norm_a_batch_proves_and_verifies() {
    let coeffs: Vec<u64> = (0..50u64)
        .map(|i| {
            let m = i.wrapping_mul(37) % NORM_BOUND;
            if i % 2 == 0 { m } else { Q - m }
        })
        .collect();
    let batch = norm_batch(&coeffs);
    let proof = prove(&batch.air, &batch.trace, &params());
    assert!(verify(&norm_air(batch.trace.length()), &params(), &proof));
}

#[test]
fn a_tampered_coefficient_is_rejected() {
    let batch = norm_batch(&[1, 2, 3, 4]);
    let mut trace = batch.trace;
    trace.set(COL_Z, 2, Felt::new(Q / 2));
    assert!(!batch.air.is_satisfied(&trace));
    let proof = prove(&batch.air, &trace, &params());
    assert!(!verify(&norm_air(trace.length()), &params(), &proof));
}

#[test]
fn a_negative_coefficient_takes_the_mirrored_magnitude() {
    let batch = norm_batch(&[Q - 7, 7]);
    assert_eq!(batch.trace.get(COL_SIGN, 0), Felt::one());
    assert_eq!(batch.trace.get(COL_MAG, 0), Felt::new(7));
    assert_eq!(batch.trace.get(COL_SIGN, 1), Felt::zero());
    assert_eq!(batch.trace.get(COL_MAG, 1), Felt::new(7));
}

#[test]
fn one_coefficient_past_the_bound_breaks_the_whole_batch() {
    let inside = [0u64, 1, 5, NORM_BOUND - 1];
    assert!(norm_batch(&inside).air.is_satisfied(&norm_batch(&inside).trace));
    let mixed = [0u64, 1, NORM_BOUND, 5];
    let batch = norm_batch(&mixed);
    assert!(!batch.air.is_satisfied(&batch.trace));
}
