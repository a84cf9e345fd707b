use qtv_stark::challenge_ball::{
    ball_air, ball_batch, sample_in_ball, sign_word, ACCEPT_COL, BALL_BUFFER_BYTES, BYTE_COL, COL_DONE, START, TAU,
};
use qtv_stark::crypto::shake256;
use qtv_stark::field::Felt;
use qtv_stark::stark::{prove, verify, StarkParams};

fn params() -> StarkParams {
    StarkParams { lde_blowup: 8, num_queries: 24 }
}

fn sample_stream() -> Vec<u8> {
    let mut c_tilde = [0u8; 48];
    for (i, b) in c_tilde.iter_mut().enumerate() {
        *b = (i as u8).wrapping_mul(53).wrapping_add(11);
    }
    shake256(&c_tilde, BALL_BUFFER_BYTES)
}

#[test]
fn the_challenge_has_tau_nonzero_signs() {
    let stream = sample_stream();
    let c = sample_in_ball(&stream);
    let nonzero = c.iter().filter(|&&v| v != 0).count();
    assert_eq!(nonzero, TAU);
    for v in &c {
        assert!(*v >= -1 && *v <= 1);
    }
}

#[test]
fn the_accepted_positions_match_the_reference() {
    let stream = sample_stream();
    let batch = ball_batch(&stream);
    let mut positions = Vec::new();
    for row in 0..batch.trace.length() {
        if batch.trace.get(ACCEPT_COL, row) == Felt::one() {
            positions.push(batch.trace.get(BYTE_COL, row).to_u64() as usize);
        }
    }
    assert_eq!(positions.len(), TAU);
    for (step, p) in positions.iter().enumerate() {
        assert!(*p <= START + step);
    }
}

#[test]
fn challenge_ball_the_arithmetic_holds_on_every_row() {
    let batch = ball_batch(&sample_stream());
    assert!(batch.air.is_satisfied(&batch.trace));
}

#[test]
fn challenge_ball_a_flipped_accept_bit_is_rejected() {
    let batch = ball_batch(&sample_stream());
    let mut trace = batch.trace;
    let mut target = 0;
    for row in 0..trace.length() {
        if trace.get(ACCEPT_COL, row) == Felt::zero() && trace.get(COL_DONE, row) == Felt::zero() {
            target = row;
            break;
        }
    }
    trace.set(ACCEPT_COL, target, Felt::one());
    assert!(!batch.air.is_satisfied(&trace));
}

#[test]
fn challenge_ball_a_tampered_byte_is_rejected() {
    let batch = ball_batch(&sample_stream());
    let mut trace = batch.trace;
    let mut target = 0;
    for row in 0..trace.length() {
        if trace.get(ACCEPT_COL, row) == Felt::one() {
            target = row;
            break;
        }
    }
    trace.set(BYTE_COL, target, Felt::new(255));
    assert!(!batch.air.is_satisfied(&trace));
}

#[test]
fn challenge_ball_a_batch_proves_and_verifies() {
    let batch = ball_batch(&sample_stream());
    let proof = prove(&batch.air, &batch.trace, &params());
    assert!(verify(&ball_air(batch.trace.length()), &params(), &proof));
}

#[test]
fn the_sign_word_reads_the_first_bytes_little_endian() {
    let stream = [1u8, 2, 0, 0, 0, 0, 0, 128, 9];
    assert_eq!(sign_word(&stream), 0x8000_0000_0000_0201);
}

#[test]
fn a_stream_of_small_bytes_places_every_sign_in_order() {
    let mut stream = vec![0u8; 8 + TAU];
    for k in 0..TAU {
        stream[8 + k] = (START + k) as u8;
    }
    let c = sample_in_ball(&stream);
    for k in 0..START {
        assert_eq!(c[k], 0);
    }
    for k in START..256 {
        assert_eq!(c[k], 1);
    }
}
