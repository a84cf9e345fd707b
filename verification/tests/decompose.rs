use qtv_stark::air::fill_bits;
use qtv_stark::decompose::{
    decompose, decompose_air, decompose_batch, ALPHA, COL_KC, COL_R0S, COL_R0S_BITS, COL_R0S_SLACK, COL_R1,
    COL_R1_BITS, GAMMA2, HIGH_BITS, HIGH_COUNT, LOW_BITS,
};
use qtv_stark::field::Felt;
use qtv_stark::lattice::Q;
use qtv_stark::stark::{prove, verify, StarkParams};

fn params() -> StarkParams {
    StarkParams { lde_blowup: 8, num_queries: 24 }
}

#[test]
fn the_parameters_match_the_set() {
    assert_eq!(GAMMA2, 261888);
    assert_eq!(ALPHA, 523776);
    assert_eq!(HIGH_COUNT, 16);
}

#[test]
fn the_split_reconstructs_every_coefficient() {
    for r in [0u64, 1, GAMMA2, ALPHA, ALPHA + 5, Q - 1, Q / 3, Q - GAMMA2] {
        let (r1, r0c, kc) = decompose(r);
        assert!(r1 < HIGH_COUNT);
        assert!(r0c >= -(GAMMA2 as i64) && r0c <= GAMMA2 as i64);
        let recon = (r1 as i64 * ALPHA as i64 + r0c + kc as i64 * Q as i64) as u64;
        assert_eq!(recon % Q, r);
    }
}

#[test]
fn a_batch_holds_the_decomposition() {
    let coeffs: Vec<u64> = (0..40u64).map(|i| i.wrapping_mul(332261) % Q).collect();
    let batch = decompose_batch(&coeffs);
    assert!(batch.air.is_satisfied(&batch.trace));
}

#[test]
fn a_wrong_high_part_is_rejected() {
    let batch = decompose_batch(&[ALPHA + 7, 3 * ALPHA + 2, Q - 1, 100]);
    let mut trace = batch.trace;
    trace.set(COL_R1, 1, trace.get(COL_R1, 1).add(Felt::one()));
    assert!(!batch.air.is_satisfied(&trace));
}

#[test]
fn decompose_a_batch_proves_and_verifies() {
    let coeffs: Vec<u64> = (0..60u64).map(|i| i.wrapping_mul(2654435769) % Q).collect();
    let batch = decompose_batch(&coeffs);
    let proof = prove(&batch.air, &batch.trace, &params());
    assert!(verify(&decompose_air(batch.trace.length()), &params(), &proof));
}

#[test]
fn the_non_canonical_boundary_representation_is_rejected() {
    let batch = decompose_batch(&[GAMMA2]);
    let mut trace = batch.trace;
    trace.set(COL_R1, 0, Felt::one());
    trace.set(COL_R0S, 0, Felt::zero());
    trace.set(COL_KC, 0, Felt::zero());
    fill_bits(&mut trace, COL_R1_BITS, 0, 1, HIGH_BITS);
    fill_bits(&mut trace, COL_R0S_BITS, 0, 0, LOW_BITS);
    fill_bits(&mut trace, COL_R0S_SLACK, 0, ALPHA, LOW_BITS);
    assert!(!batch.air.is_satisfied(&trace));
}

#[test]
fn an_out_of_range_low_part_is_rejected() {
    let batch = decompose_batch(&[5 * ALPHA + 9]);
    let mut trace = batch.trace;
    let r0s = trace.get(COL_R0S, 0);
    trace.set(COL_R0S, 0, r0s.add(Felt::new(ALPHA)));
    trace.set(COL_R1, 0, trace.get(COL_R1, 0).sub(Felt::new(2)));
    assert!(!batch.air.is_satisfied(&trace));
}

#[test]
fn the_top_of_the_range_folds_to_high_part_zero() {
    assert_eq!(decompose(Q - 1), (0, -1, 1));
    assert_eq!(decompose(ALPHA + 5), (1, 5, 0));
    assert_eq!(decompose(ALPHA - 5), (1, -5, 0));
}

#[test]
fn a_wide_coefficient_splits_without_wrapping() {
    let r = (1u64 << 62) + 5;
    assert_eq!(decompose(r), (8804691353608, 4101, 0));
}
