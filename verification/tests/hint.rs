use qtv_stark::decompose::{decompose, ALPHA, HIGH_COUNT};
use qtv_stark::field::Felt;
use qtv_stark::hint::{hint_air, hint_batch, recovered_high, use_hint, COL_H, COL_POS, COL_R, COL_R1U};
use qtv_stark::lattice::Q;
use qtv_stark::stark::{prove, verify, StarkParams};

fn params() -> StarkParams {
    StarkParams { lde_blowup: 8, num_queries: 24 }
}

#[test]
fn the_recovered_high_matches_the_reference() {
    let batch = hint_batch(&[(0, 0), (ALPHA + 9, 1), (Q - 1, 1), (5 * ALPHA + 3, 1), (77, 0)]);
    for row in 0..5 {
        let r = batch.trace.get(COL_R, row).to_u64();
        let h = batch.trace.get(COL_H, row).to_u64();
        assert_eq!(recovered_high(&batch.trace, row), use_hint(h, r));
    }
    assert!(batch.air.is_satisfied(&batch.trace));
}

#[test]
fn a_set_hint_moves_the_high_part() {
    let r = ALPHA + 100;
    let (r1, r0c, _) = decompose(r);
    assert!(r0c > 0);
    assert_eq!(use_hint(1, r), (r1 + 1) % HIGH_COUNT);
    let batch = hint_batch(&[(r, 1)]);
    assert!(batch.air.is_satisfied(&batch.trace));
}

#[test]
fn a_forged_used_high_is_rejected() {
    let batch = hint_batch(&[(ALPHA + 100, 1)]);
    let mut trace = batch.trace;
    trace.set(COL_R1U, 0, trace.get(COL_R1U, 0).add(Felt::one()));
    assert!(!batch.air.is_satisfied(&trace));
}

#[test]
fn a_forged_sign_flag_is_rejected() {
    let r = ALPHA - 100;
    let (_, r0c, _) = decompose(r);
    assert!(r0c < 0);
    let batch = hint_batch(&[(r, 1)]);
    let mut trace = batch.trace;
    trace.set(COL_POS, 0, Felt::one());
    assert!(!batch.air.is_satisfied(&trace));
}

#[test]
fn hint_a_batch_proves_and_verifies() {
    let pairs: Vec<(u64, u64)> = (0..48u64).map(|i| (i.wrapping_mul(0x9e37_79b9) % Q, i & 1)).collect();
    let batch = hint_batch(&pairs);
    let proof = prove(&batch.air, &batch.trace, &params());
    assert!(verify(&hint_air(batch.trace.length()), &params(), &proof));
}

#[test]
fn the_hint_wraps_around_the_high_count() {
    assert_eq!(use_hint(1, Q - 1), HIGH_COUNT - 1);
    assert_eq!(use_hint(0, Q - 1), 0);
    assert_eq!(use_hint(1, 100), 1);
    assert_eq!(use_hint(1, Q - 100), 15);
}
