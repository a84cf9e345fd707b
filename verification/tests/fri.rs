use qtv_stark::field::{root_of_unity, Felt};
use qtv_stark::field_ext::Fp3;
use qtv_stark::fri::{fold_layer, prove, prove_with_domain, verify, verify_with_domain, FriField, FriParams, Transcript};

fn eval_poly(coeffs: &[Felt], point: Felt) -> Felt {
    let mut acc = Felt::zero();
    for coeff in coeffs.iter().rev() {
        acc = acc.mul(point).add(*coeff);
    }
    acc
}

fn eval_domain(coeffs: &[Felt], log_n: u32) -> Vec<Felt> {
    let n = 1usize << log_n;
    let omega = root_of_unity(log_n);
    let mut point = Felt::one();
    let mut out = Vec::with_capacity(n);
    for _ in 0..n {
        out.push(eval_poly(coeffs, point));
        point = point.mul(omega);
    }
    out
}

fn eval_poly_ext(coeffs: &[Fp3], point: Felt) -> Fp3 {
    let mut acc = Fp3::zero();
    for coeff in coeffs.iter().rev() {
        acc = acc.scale(point).add(*coeff);
    }
    acc
}

fn eval_domain_ext(coeffs: &[Fp3], log_n: u32) -> Vec<Fp3> {
    let n = 1usize << log_n;
    let omega = root_of_unity(log_n);
    let mut point = Felt::one();
    let mut out = Vec::with_capacity(n);
    for _ in 0..n {
        out.push(eval_poly_ext(coeffs, point));
        point = point.mul(omega);
    }
    out
}

#[test]
fn folding_a_polynomial_matches_folding_its_coefficients() {
    let log_n = 6u32;
    let coeffs: Vec<Felt> = (1..=16u64).map(Felt::new).collect();
    let evals = eval_domain(&coeffs, log_n);
    let challenge = Felt::new(2882343476);
    let generator_inv = root_of_unity(log_n).inv();
    let folded = fold_layer(&evals, challenge, generator_inv);
    let mut folded_coeffs = Vec::with_capacity(coeffs.len() / 2);
    let mut i = 0;
    while i < coeffs.len() {
        let even = coeffs[i];
        let odd = coeffs[i + 1];
        folded_coeffs.push(even.add(challenge.mul(odd)));
        i += 2;
    }
    let expected = eval_domain(&folded_coeffs, log_n - 1);
    assert_eq!(folded, expected);
}

#[test]
fn folding_a_constant_leaves_it_constant() {
    let log_n = 5u32;
    let coeffs = vec![Felt::new(42)];
    let evals = eval_domain(&coeffs, log_n);
    let generator_inv = root_of_unity(log_n).inv();
    let folded = fold_layer(&evals, Felt::new(7), generator_inv);
    assert!(folded.iter().all(|v| *v == Felt::new(42)));
}

#[test]
fn distinct_challenge_draws_differ() {
    let mut transcript = Transcript::new();
    transcript.absorb(b"root");
    let first = transcript.challenge_felt();
    let second = transcript.challenge_felt();
    assert_ne!(first, second);
}

#[test]
fn transcripts_are_deterministic() {
    let mut a = Transcript::new();
    let mut b = Transcript::new();
    a.absorb(b"same");
    b.absorb(b"same");
    assert_eq!(a.challenge_felt(), b.challenge_felt());
    assert_eq!(a.challenge_index(64), b.challenge_index(64));
}

#[test]
fn extension_challenges_are_deterministic_and_full_width() {
    let mut a = Transcript::new();
    let mut b = Transcript::new();
    a.absorb(b"same ext seed");
    b.absorb(b"same ext seed");
    let x = a.challenge_ext();
    let y = b.challenge_ext();
    assert_eq!(x, y);
    assert!(!x.is_base());
    let z = a.challenge_ext();
    assert_ne!(x, z);
}

#[test]
fn a_proof_has_the_scheduled_shape() {
    let params = FriParams { log_domain_size: 8, num_queries: 12, blowup: 4 };
    let coeffs: Vec<Felt> = (0..params.degree_bound() as u64).map(Felt::new).collect();
    let evals = eval_domain(&coeffs, params.log_domain_size);
    let proof = prove(&evals, &params);
    assert_eq!(proof.layer_roots.len(), params.rounds());
    assert_eq!(proof.final_layer.len(), params.blowup);
    assert_eq!(proof.queries.len(), params.num_queries);
    for query in &proof.queries {
        assert_eq!(query.layers.len(), params.rounds());
    }
    let constant = proof.final_layer[0];
    assert!(proof.final_layer.iter().all(|v| *v == constant));
}

fn sample_params() -> FriParams {
    FriParams { log_domain_size: 10, num_queries: 24, blowup: 8 }
}

#[test]
fn a_low_degree_vector_is_accepted() {
    let params = sample_params();
    let coeffs: Vec<Felt> = (0..params.degree_bound() as u64)
        .map(|i| Felt::new(i.wrapping_mul(2654435769) ^ 81))
        .collect();
    let evals = eval_domain(&coeffs, params.log_domain_size);
    let proof = prove(&evals, &params);
    assert!(verify(&params, &proof));
}

#[test]
fn a_high_degree_vector_is_rejected() {
    let params = sample_params();
    let coeffs: Vec<Felt> = (0..params.domain_size() as u64)
        .map(|i| Felt::new(i.wrapping_mul(3518319154) ^ 47))
        .collect();
    let evals = eval_domain(&coeffs, params.log_domain_size);
    let proof = prove(&evals, &params);
    assert!(!verify(&params, &proof));
}

#[test]
fn a_tampered_opening_is_rejected() {
    let params = sample_params();
    let coeffs: Vec<Felt> = (0..params.degree_bound() as u64).map(Felt::new).collect();
    let evals = eval_domain(&coeffs, params.log_domain_size);
    let mut proof = prove(&evals, &params);
    proof.queries[0].layers[0].eval = proof.queries[0].layers[0].eval.add(Felt::one());
    assert!(!verify(&params, &proof));
}

#[test]
fn a_forged_final_constant_is_rejected() {
    let params = sample_params();
    let coeffs: Vec<Felt> = (0..params.degree_bound() as u64).map(Felt::new).collect();
    let evals = eval_domain(&coeffs, params.log_domain_size);
    let mut proof = prove(&evals, &params);
    let last = proof.final_layer.len() - 1;
    proof.final_layer[last] = proof.final_layer[last].add(Felt::one());
    assert!(!verify(&params, &proof));
}

#[test]
fn an_extension_low_degree_vector_is_accepted() {
    let params = sample_params();
    let coeffs: Vec<Fp3> = (0..params.degree_bound() as u64)
        .map(|i| {
            Fp3::new(
                Felt::new(i.wrapping_mul(2654435769) ^ 81),
                Felt::new(i.wrapping_mul(40503) ^ 17),
                Felt::new(i.wrapping_mul(2246822519) ^ 5),
            )
        })
        .collect();
    let evals = eval_domain_ext(&coeffs, params.log_domain_size);
    let proof = prove(&evals, &params);
    assert!(verify(&params, &proof));
}

#[test]
fn an_extension_high_degree_vector_is_rejected() {
    let params = sample_params();
    let coeffs: Vec<Fp3> = (0..params.domain_size() as u64)
        .map(|i| {
            Fp3::new(
                Felt::new(i.wrapping_mul(3518319154) ^ 47),
                Felt::new(i.wrapping_mul(1013904223) ^ 9),
                Felt::new(i.wrapping_mul(22695477) ^ 3),
            )
        })
        .collect();
    let evals = eval_domain_ext(&coeffs, params.log_domain_size);
    let proof = prove(&evals, &params);
    assert!(!verify(&params, &proof));
}

#[test]
fn an_extension_tampered_opening_is_rejected() {
    let params = sample_params();
    let coeffs: Vec<Fp3> = (0..params.degree_bound() as u64).map(|i| Fp3::from_base(Felt::new(i))).collect();
    let evals = eval_domain_ext(&coeffs, params.log_domain_size);
    let mut proof = prove(&evals, &params);
    proof.queries[0].layers[0].eval = proof.queries[0].layers[0].eval.add(Fp3::one());
    assert!(!verify(&params, &proof));
}

#[test]
fn a_context_seeded_transcript_diverges_from_the_bare_protocol_seed() {
    let bare = Transcript::with_domain(&[]).challenge_felt();
    let context = Transcript::with_domain(b"chain-7/corridor-2").challenge_felt();
    assert_ne!(bare, context);
}

#[test]
fn a_low_degree_proof_under_one_context_is_rejected_under_another() {
    let params = sample_params();
    let coeffs: Vec<Felt> = (0..params.degree_bound() as u64).map(Felt::new).collect();
    let evals = eval_domain(&coeffs, params.log_domain_size);
    let proof = prove_with_domain(&evals, &params, &mut Transcript::with_domain(b"chain-a/corridor-x"));
    assert!(verify_with_domain(&params, &proof, &mut Transcript::with_domain(b"chain-a/corridor-x")));
    assert!(!verify_with_domain(&params, &proof, &mut Transcript::with_domain(b"chain-b/corridor-x")));
    assert!(!verify_with_domain(&params, &proof, &mut Transcript::with_domain(b"chain-a/corridor-y")));
}

#[test]
fn an_extension_folding_challenge_lives_in_the_extension() {
    let mut transcript = Transcript::new();
    transcript.absorb_digest(&[9u8; 32]);
    let challenge = <Fp3 as FriField>::sample(&mut transcript);
    assert!(!challenge.is_base());
}
