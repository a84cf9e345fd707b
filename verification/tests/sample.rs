use qtv_stark::crypto::shake128;
use qtv_stark::field::Felt;
use qtv_stark::hashing::matrix_entry_seed;
use qtv_stark::lattice::{Q, RING_DEGREE};
use qtv_stark::sample::{
    candidate, rej_air, rej_batch, rej_sample, ACCEPT_COL, CANDIDATES, CANDIDATE_BYTES, COL_B0, REJ_BUFFER_BYTES,
};
use qtv_stark::stark::{prove, verify, StarkParams};

fn params() -> StarkParams {
    StarkParams { lde_blowup: 8, num_queries: 24 }
}

fn sample_stream() -> Vec<u8> {
    let mut rho = [0u8; 32];
    for (i, b) in rho.iter_mut().enumerate() {
        *b = (i as u8).wrapping_mul(37).wrapping_add(1);
    }
    let seed = matrix_entry_seed(&rho, 3, 2);
    shake128(&seed, REJ_BUFFER_BYTES)
}

#[test]
fn the_sample_produces_a_full_ring_below_the_modulus() {
    let stream = sample_stream();
    let coeffs = rej_sample(&stream);
    assert_eq!(coeffs.len(), RING_DEGREE);
    for c in &coeffs {
        assert!(*c < Q);
    }
}

#[test]
fn the_accept_bits_match_the_candidate_comparison() {
    let stream = sample_stream();
    let batch = rej_batch(&stream);
    let candidates = (stream.len() / CANDIDATE_BYTES).min(CANDIDATES);
    for row in 0..candidates {
        let p = row * CANDIDATE_BYTES;
        let z = candidate(stream[p], stream[p + 1], stream[p + 2]) as u64;
        let acc = batch.trace.get(ACCEPT_COL, row).to_u64();
        assert_eq!(acc, u64::from(z < Q));
    }
}

#[test]
fn sample_the_arithmetic_holds_on_every_row() {
    let batch = rej_batch(&sample_stream());
    assert!(batch.air.is_satisfied(&batch.trace));
}

#[test]
fn sample_a_flipped_accept_bit_is_rejected() {
    let batch = rej_batch(&sample_stream());
    let mut trace = batch.trace;
    let mut target = 0;
    for row in 0..trace.length() {
        if trace.get(ACCEPT_COL, row) == Felt::one() {
            target = row;
            break;
        }
    }
    trace.set(ACCEPT_COL, target, Felt::zero());
    assert!(!batch.air.is_satisfied(&trace));
}

#[test]
fn a_tampered_candidate_byte_is_rejected() {
    let batch = rej_batch(&sample_stream());
    let mut trace = batch.trace;
    let bumped = trace.get(COL_B0, 1).add(Felt::one());
    trace.set(COL_B0, 1, bumped);
    assert!(!batch.air.is_satisfied(&trace));
}

#[test]
fn sample_a_batch_proves_and_verifies() {
    let batch = rej_batch(&sample_stream());
    let proof = prove(&batch.air, &batch.trace, &params());
    assert!(verify(&rej_air(batch.trace.length()), &params(), &proof));
}

#[test]
fn the_candidate_drops_the_top_bit_of_the_high_byte() {
    assert_eq!(candidate(0x01, 0x02, 0x83), 0x03_02_01);
    assert_eq!(candidate(0xff, 0xff, 0xff), 0x7f_ff_ff);
}

#[test]
fn candidates_at_or_above_the_modulus_are_skipped() {
    let q = Q as u32;
    let above = [(q & 0xff) as u8, ((q >> 8) & 0xff) as u8, ((q >> 16) & 0x7f) as u8];
    let below = [5u8, 0, 0];
    let stream = [above[0], above[1], above[2], below[0], below[1], below[2], 1, 2];
    assert_eq!(rej_sample(&stream), vec![5]);
}
