use qtv_stark::certificate::{
    certificate_air, certificate_trace, Certificate, CERT_WIDTH, DECOMPOSE_BASE, MODMUL_BASE, R_R,
};
use qtv_stark::decompose;
use qtv_stark::field::Felt;
use qtv_stark::field_ext::Fp3;
use qtv_stark::lattice::{self, Q};
use qtv_stark::sponge::{lane_low_col, squeeze_row};
use qtv_stark::stark::{prove, verify, StarkParams};

fn params() -> StarkParams {
    StarkParams { lde_blowup: 32, num_queries: 24 }
}

fn challenges() -> [Fp3; 1] {
    [Fp3::new(Felt::new(20015998343868), Felt::new(77), Felt::new(4242))]
}

fn responses() -> Vec<u64> {
    vec![12_345, Q - 6_789]
}

fn sample() -> Certificate {
    let hints: Vec<u64> = (0..8u64).map(|i| i & 1).collect();
    certificate_trace(2, b"module lattice fused certificate", &hints, &responses())
}

#[test]
fn the_coefficients_are_the_reduced_squeeze_words() {
    let cert = sample();
    assert_eq!(cert.coefficients.len(), 2);
    for (j, c) in cert.coefficients.iter().enumerate() {
        let word = cert.trace.get(lane_low_col(0), squeeze_row(j)).to_u64();
        assert_eq!(*c, word % Q);
        assert!(*c < Q);
    }
}

#[test]
fn the_fused_arithmetic_holds() {
    let cert = sample();
    assert!(cert.air.is_satisfied_with(&cert.trace, &challenges()));
}

#[test]
fn certificate_the_certificate_proves_and_verifies() {
    let cert = sample();
    let proof = prove(&cert.air, &cert.trace, &params());
    let air = certificate_air(2, b"module lattice fused certificate", &cert.output);
    assert!(verify(&air, &params(), &proof));
}

#[test]
fn a_tampered_certificate_trace_is_rejected() {
    let cert = sample();
    let mut trace = cert.trace;
    let row = squeeze_row(0);
    trace.set(R_R, row, trace.get(R_R, row).add(Felt::one()));
    let proof = prove(&cert.air, &trace, &params());
    let air = certificate_air(2, b"module lattice fused certificate", &cert.output);
    assert!(!verify(&air, &params(), &proof));
}

#[test]
fn a_split_coefficient_breaks_the_binding() {
    let cert = sample();
    let mut trace = cert.trace;
    let dec_r = DECOMPOSE_BASE + decompose::COL_R;
    let row = squeeze_row(0);
    trace.set(dec_r, row, trace.get(dec_r, row).add(Felt::new(7)));
    assert!(!cert.air.is_satisfied_with(&trace, &challenges()));
}

#[test]
fn a_tampered_reduction_is_rejected() {
    let cert = sample();
    let mut trace = cert.trace;
    let row = squeeze_row(1);
    trace.set(R_R, row, trace.get(R_R, row).add(Felt::one()));
    assert!(!cert.air.is_satisfied_with(&trace, &challenges()));
}

#[test]
fn a_proof_against_a_wrong_squeeze_is_rejected() {
    let cert = sample();
    let proof = prove(&cert.air, &cert.trace, &params());
    let mut wrong = cert.output.clone();
    wrong[0] ^= 1;
    let air = certificate_air(2, b"module lattice fused certificate", &wrong);
    assert!(!verify(&air, &params(), &proof));
}

#[test]
fn the_product_multiplies_the_hash_coefficient_by_the_response() {
    let cert = sample();
    for j in 0..cert.coefficients.len() {
        let row = squeeze_row(j);
        let a = cert.trace.get(MODMUL_BASE + lattice::COL_A, row).to_u64();
        let r = cert.trace.get(R_R, row).to_u64();
        let b = cert.trace.get(MODMUL_BASE + lattice::COL_B, row).to_u64();
        let product = cert.trace.get(MODMUL_BASE + lattice::COL_R, row).to_u64();
        assert_eq!(a, r);
        assert_eq!(product, ((a as u128 * b as u128) % Q as u128) as u64);
    }
}

#[test]
fn an_out_of_bound_response_has_no_satisfying_trace() {
    let hints: Vec<u64> = (0..8u64).map(|i| i & 1).collect();
    let cert = certificate_trace(2, b"module lattice fused certificate", &hints, &[Q / 2, 3]);
    assert!(!cert.air.is_satisfied_with(&cert.trace, &challenges()));
}

#[test]
fn a_split_response_breaks_the_binding() {
    let cert = sample();
    let mut trace = cert.trace;
    let mm_b = MODMUL_BASE + lattice::COL_B;
    let row = squeeze_row(0);
    trace.set(mm_b, row, trace.get(mm_b, row).add(Felt::new(7)));
    assert!(!cert.air.is_satisfied_with(&trace, &challenges()));
}

#[test]
fn the_certificate_has_the_documented_shape() {
    let cert = sample();
    assert_eq!(cert.length, 64);
    assert_eq!(cert.trace.width(), CERT_WIDTH);
    assert_eq!(cert.air.permutations().len(), 4);
    assert_eq!(cert.air.num_challenges(), 1);
    assert_eq!(cert.output.len(), 2 * 136);
}
