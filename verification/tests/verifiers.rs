use qtv_stark::field::{root_of_unity, Felt};
use qtv_stark::fri::FriParams;
use qtv_stark::prover::{LowDegreeProver, Prover, PublicInputs, Witness};
use qtv_stark::verifiers::{LowDegreeVerifier, Verifier};

fn eval_domain(coeffs: &[Felt], log_n: u32) -> Vec<Felt> {
    let n = 1usize << log_n;
    let omega = root_of_unity(log_n);
    let mut point = Felt::one();
    let mut out = Vec::with_capacity(n);
    for _ in 0..n {
        let mut acc = Felt::zero();
        for coeff in coeffs.iter().rev() {
            acc = acc.mul(point).add(*coeff);
        }
        out.push(acc);
        point = point.mul(omega);
    }
    out
}

#[test]
fn a_low_degree_witness_round_trips_through_the_interfaces() {
    let params = FriParams { log_domain_size: 10, num_queries: 16, blowup: 4 };
    let coeffs: Vec<Felt> = (0..params.degree_bound() as u64).map(Felt::new).collect();
    let public = PublicInputs { params: params.clone() };
    let witness = Witness { trace: eval_domain(&coeffs, params.log_domain_size) };
    let proof = LowDegreeProver.prove(&public, &witness);
    assert!(LowDegreeVerifier.verify(&public, &proof));
}

#[test]
fn a_high_degree_witness_fails_the_interfaces() {
    let params = FriParams { log_domain_size: 10, num_queries: 16, blowup: 4 };
    let coeffs: Vec<Felt> = (0..params.domain_size() as u64).map(Felt::new).collect();
    let public = PublicInputs { params: params.clone() };
    let witness = Witness { trace: eval_domain(&coeffs, params.log_domain_size) };
    let proof = LowDegreeProver.prove(&public, &witness);
    assert!(!LowDegreeVerifier.verify(&public, &proof));
}
