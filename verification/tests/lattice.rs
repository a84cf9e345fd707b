use qtv_stark::air::TraceTable;
use qtv_stark::field::Felt;
use qtv_stark::lattice::{
    fill_row, modmul_air, modmul_batch, signature_batch_workload, COL_A, COL_B, COL_QUO, COL_R, COL_R_BITS, COL_S_BITS,
    PRODUCTS_PER_SIGNATURE, Q, RESIDUE_BITS, WIDTH,
};
use qtv_stark::stark::{prove, verify, StarkParams};

fn sample_inputs(count: usize) -> Vec<(u64, u64)> {
    (0..count as u64)
        .map(|i| {
            let a = i.wrapping_mul(2654435769) % Q;
            let b = (i.wrapping_mul(2235703115) + 7) % Q;
            (a, b)
        })
        .collect()
}

fn params() -> StarkParams {
    StarkParams { lde_blowup: 8, num_queries: 24 }
}

#[test]
fn each_row_holds_a_modular_product() {
    let batch = modmul_batch(&sample_inputs(20));
    for row in 0..20 {
        let a = batch.trace.get(COL_A, row).to_u64();
        let b = batch.trace.get(COL_B, row).to_u64();
        let r = batch.trace.get(COL_R, row).to_u64();
        assert_eq!(r, ((a as u128 * b as u128) % Q as u128) as u64);
        assert!(r < Q);
    }
    assert!(batch.air.is_satisfied(&batch.trace));
}

#[test]
fn the_signature_workload_has_the_expected_shape() {
    let workload = signature_batch_workload(2, 4660);
    assert_eq!(workload.len(), 2 * PRODUCTS_PER_SIGNATURE);
    assert_eq!(PRODUCTS_PER_SIGNATURE, 7680);
    for (a, b) in &workload {
        assert!(*a < Q && *b < Q);
    }
}

#[test]
fn lattice_a_batch_proves_and_verifies() {
    let batch = modmul_batch(&sample_inputs(100));
    let proof = prove(&batch.air, &batch.trace, &params());
    assert!(verify(&modmul_air(batch.trace.length()), &params(), &proof));
}

#[test]
fn a_wrong_residue_is_rejected() {
    let batch = modmul_batch(&sample_inputs(64));
    let mut trace = batch.trace;
    trace.set(COL_R, 5, trace.get(COL_R, 5).add(Felt::one()));
    assert!(!batch.air.is_satisfied(&trace));
    let proof = prove(&batch.air, &trace, &params());
    assert!(!verify(&modmul_air(trace.length()), &params(), &proof));
}

#[test]
fn a_forged_residue_with_a_compensating_quotient_is_rejected() {
    let a = 3u64;
    let b = 5u64;
    let honest = (a * b) % Q;
    let forged = honest + 1;
    assert!(forged < Q);
    let quotient = Felt::new(a).mul(Felt::new(b)).sub(Felt::new(forged)).mul(Felt::new(Q).inv());
    let length = 2;
    let mut trace = TraceTable::new(WIDTH, length);
    fill_row(&mut trace, 0, 1, 0, 0);
    trace.set(COL_A, 0, Felt::new(a));
    trace.set(COL_B, 0, Felt::new(b));
    trace.set(COL_R, 0, Felt::new(forged));
    trace.set(COL_QUO, 0, quotient);
    for k in 0..RESIDUE_BITS {
        trace.set(COL_R_BITS + k, 0, Felt::new((forged >> k) & 1));
        trace.set(COL_S_BITS + k, 0, Felt::new(((Q - 1 - forged) >> k) & 1));
    }
    let air = modmul_air(length);
    assert!(!air.is_satisfied(&trace));
    let proof = prove(&air, &trace, &params());
    assert!(!verify(&modmul_air(length), &params(), &proof));
}

#[test]
fn a_non_canonical_residue_is_rejected() {
    let a = 3u64;
    let b = 5u64;
    let length = 2;
    let mut trace = TraceTable::new(WIDTH, length);
    for row in 0..length {
        fill_row(&mut trace, 0, row, a, b);
    }
    let shifted = 15 + Q;
    trace.set(COL_R, 0, Felt::new(shifted));
    trace.set(COL_QUO, 0, trace.get(COL_QUO, 0).sub(Felt::one()));
    for k in 0..RESIDUE_BITS {
        trace.set(COL_R_BITS + k, 0, Felt::new((shifted >> k) & 1));
        let slack = Q.wrapping_sub(1).wrapping_sub(shifted);
        trace.set(COL_S_BITS + k, 0, Felt::new((slack >> k) & 1));
    }
    let air = modmul_air(length);
    assert!(!air.is_satisfied(&trace));
}

#[test]
fn a_padded_batch_has_a_power_of_two_length() {
    let batch = modmul_batch(&sample_inputs(5));
    assert_eq!(batch.count, 5);
    assert_eq!(batch.trace.length(), 8);
    let empty = modmul_batch(&[]);
    assert_eq!(empty.trace.length(), 2);
    assert!(empty.air.is_satisfied(&empty.trace));
}
