use qtv_stark::field::Felt;
use qtv_stark::fri::FriParams;
use qtv_stark::prover::{LowDegreeProver, Prover, PublicInputs, Witness};

#[test]
fn the_prover_emits_a_proof_over_the_full_domain() {
    let params = FriParams { log_domain_size: 8, num_queries: 8, blowup: 4 };
    let trace = vec![Felt::new(3); params.domain_size()];
    let public = PublicInputs { params: params.clone() };
    let witness = Witness { trace };
    let proof = LowDegreeProver.prove(&public, &witness);
    assert_eq!(proof.layer_roots.len(), params.rounds());
    assert_eq!(proof.queries.len(), params.num_queries);
}
