use qtv_stark::batch::{batch_air, batch_trace, BatchCertificate, HINT_BASE, NORM_BASE};
use qtv_stark::field::Felt;
use qtv_stark::field_ext::Fp3;
use qtv_stark::lattice::Q;
use qtv_stark::stark::{prove, verify, StarkParams};
use qtv_stark::{hint, norm};

fn params() -> StarkParams {
    StarkParams { lde_blowup: 8, num_queries: 24 }
}

fn sample_batch() -> BatchCertificate {
    let products: Vec<(u64, u64)> = (0..20u64).map(|i| (i.wrapping_mul(2654435769) % Q, (i * 7 + 3) % Q)).collect();
    let response: Vec<u64> = (0..12u64)
        .map(|i| {
            let m = i.wrapping_mul(37) % norm::NORM_BOUND;
            if i % 2 == 0 { m } else { Q - m }
        })
        .collect();
    let commitment: Vec<u64> = (0..15u64).map(|i| i.wrapping_mul(332261) % Q).collect();
    let hints: Vec<u64> = (0..15u64).map(|i| i & 1).collect();
    batch_trace(&products, &response, &commitment, &hints)
}

#[test]
fn the_joined_arithmetic_holds() {
    let cert = sample_batch();
    assert!(cert.air.is_satisfied(&cert.trace));
}

#[test]
fn the_permutation_binds_the_shared_coefficients() {
    let cert = sample_batch();
    let challenges = [Fp3::from_base(Felt::new(20015998343868))];
    assert!(cert.air.is_satisfied_with(&cert.trace, &challenges));
}

#[test]
fn a_mismatched_hint_coefficient_breaks_the_join() {
    let cert = sample_batch();
    let mut trace = cert.trace;
    let hint_r = HINT_BASE + hint::COL_R;
    trace.set(hint_r, 3, trace.get(hint_r, 3).add(Felt::new(5)));
    let challenges = [Fp3::from_base(Felt::new(20015998343868))];
    assert!(!cert.air.is_satisfied_with(&trace, &challenges));
}

#[test]
fn batch_the_certificate_proves_and_verifies() {
    let cert = sample_batch();
    let proof = prove(&cert.air, &cert.trace, &params());
    assert!(verify(&batch_air(cert.length), &params(), &proof));
}

#[test]
fn a_tampered_certificate_is_rejected() {
    let cert = sample_batch();
    let mut trace = cert.trace;
    trace.set(NORM_BASE + norm::COL_Z, 2, Felt::new(Q / 2));
    let proof = prove(&cert.air, &trace, &params());
    assert!(!verify(&batch_air(cert.length), &params(), &proof));
}
