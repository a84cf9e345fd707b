use qtv_stark::air::{Air, Expr, TraceTable};
use qtv_stark::field::Felt;
use qtv_stark::stark::{prove, verify, StarkParams};

fn params() -> StarkParams {
    StarkParams { lde_blowup: 8, num_queries: 24 }
}

fn squaring(length: usize, seed: Felt) -> (Air, TraceTable) {
    let mut air = Air::new(1, length);
    air.add_transition(2, Expr::next(0).sub(Expr::cur(0).mul(Expr::cur(0))));
    air.add_boundary(0, 0, seed);
    let mut trace = TraceTable::new(1, length);
    let mut value = seed;
    for row in 0..length {
        trace.set(0, row, value);
        value = value.mul(value);
    }
    (air, trace)
}

#[test]
fn a_correct_trace_proves_and_verifies() {
    let (air, trace) = squaring(16, Felt::new(3));
    assert!(air.is_satisfied(&trace));
    let proof = prove(&air, &trace, &params());
    assert!(verify(&air, &params(), &proof));
}

#[test]
fn a_wider_trace_with_two_columns_round_trips() {
    let length = 32;
    let mut air = Air::new(2, length);
    air.add_transition(2, Expr::next(0).sub(Expr::cur(0).mul(Expr::cur(0))));
    air.add_single_row(2, Expr::cur(1).sub(Expr::cur(0).mul(Expr::cur(0))));
    air.add_boundary(0, 0, Felt::new(2));
    let mut trace = TraceTable::new(2, length);
    let mut value = Felt::new(2);
    for row in 0..length {
        trace.set(0, row, value);
        trace.set(1, row, value.mul(value));
        value = value.mul(value);
    }
    assert!(air.is_satisfied(&trace));
    let proof = prove(&air, &trace, &params());
    assert!(verify(&air, &params(), &proof));
}

#[test]
fn a_wrong_seed_does_not_verify() {
    let (air, _) = squaring(16, Felt::new(3));
    let (_, trace) = squaring(16, Felt::new(5));
    assert!(!air.is_satisfied(&trace));
    let proof = prove(&air, &trace, &params());
    assert!(!verify(&air, &params(), &proof));
}

#[test]
fn a_proof_with_a_tampered_opening_does_not_verify() {
    let (air, trace) = squaring(16, Felt::new(3));
    let mut proof = prove(&air, &trace, &params());
    proof.openings[0].rows[0].values[0] = proof.openings[0].rows[0].values[0].add(Felt::one());
    assert!(!verify(&air, &params(), &proof));
    let mut moved = prove(&air, &trace, &params());
    moved.trace_root[0] ^= 1;
    assert!(!verify(&air, &params(), &moved));
    let mut narrow = prove(&air, &trace, &params());
    narrow.openings[0].rows[1].values.pop();
    assert!(!verify(&air, &params(), &narrow));
}
