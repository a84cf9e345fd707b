use qtv_stark::crypto::shake256;
use qtv_stark::field::Felt;
use qtv_stark::field_ext::Fp3;
use qtv_stark::signing::{
    rho_pp, seed_derivation_input, signing_jobs, COMMITMENT_COEFFS, KEY_BYTES, MATRIX_L, MU_BYTES,
    POINTWISE_PER_ITERATION, RANDOMIZER_BYTES, RESPONSE_COEFFS, TRANSFORMS_PER_ITERATION,
};

#[test]
fn the_seed_derivation_pins_the_zero_randomizer() {
    let input = seed_derivation_input();
    assert_eq!(input.len(), KEY_BYTES + RANDOMIZER_BYTES + MU_BYTES);
    assert!(input[KEY_BYTES..KEY_BYTES + RANDOMIZER_BYTES].iter().all(|b| *b == 0));
}

#[test]
fn the_rho_pp_matches_the_crypto_shake256() {
    let ours = rho_pp();
    let expected = shake256(&seed_derivation_input(), 64);
    assert_eq!(ours, expected);
}

#[test]
fn the_multiplicities_match_the_parameter_set() {
    assert_eq!(TRANSFORMS_PER_ITERATION, 23);
    assert_eq!(POINTWISE_PER_ITERATION, 10496);
    assert_eq!(RESPONSE_COEFFS, 1280);
    assert_eq!(COMMITMENT_COEFFS, 1536);
}

#[test]
fn every_job_arithmetic_holds() {
    let challenges = [
        Fp3::new(Felt::new(305419896), Felt::new(11), Felt::new(97)),
        Fp3::new(Felt::new(2596069104), Felt::new(23), Felt::new(131)),
    ];
    for job in signing_jobs() {
        let ok = if job.prover.num_challenges() == 0 {
            job.prover.is_satisfied(&job.trace)
        } else {
            job.prover.is_satisfied_with(&job.trace, &challenges[..job.prover.num_challenges()])
        };
        assert!(ok, "arithmetic failed for {}", job.name);
    }
}

#[test]
fn the_job_set_covers_the_iteration_and_the_draw() {
    let jobs = signing_jobs();
    let per_draw: usize = jobs.iter().map(|j| j.per_draw).sum();
    assert_eq!(per_draw, 1);
    let transforms = jobs.iter().find(|j| j.name.starts_with("number theoretic")).unwrap();
    assert_eq!(transforms.per_iteration, 23);
    let mask = jobs.iter().find(|j| j.name.starts_with("mask expansion")).unwrap();
    assert_eq!(mask.per_iteration, MATRIX_L);
}

#[test]
fn every_job_of_the_attempt_is_present() {
    assert_eq!(signing_jobs().len(), 11);
}
