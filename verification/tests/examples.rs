use qtv_stark::examples::squaring_chain;
use qtv_stark::field::Felt;
use qtv_stark::stark::{prove, verify, StarkParams};

#[test]
fn the_chain_squares_each_step() {
    let chain = squaring_chain(4, Felt::new(3));
    assert_eq!(chain.trace.get(0, 0), Felt::new(3));
    assert_eq!(chain.trace.get(0, 1), Felt::new(9));
    assert_eq!(chain.trace.get(0, 2), Felt::new(81));
    assert!(chain.air.is_satisfied(&chain.trace));
}

#[test]
fn the_chain_proves_and_verifies() {
    let chain = squaring_chain(8, Felt::new(7));
    let params = StarkParams { lde_blowup: 8, num_queries: 32 };
    let proof = prove(&chain.air, &chain.trace, &params);
    assert!(verify(&chain.air, &params, &proof));
}

#[test]
fn the_output_is_the_last_value_and_a_forged_output_fails() {
    let chain = squaring_chain(3, Felt::new(2));
    assert_eq!(chain.output, chain.trace.get(0, 7));
    assert_eq!(chain.seed, Felt::new(2));
    let forged = squaring_chain(3, Felt::new(5));
    assert!(!chain.air.is_satisfied(&forged.trace));
}
