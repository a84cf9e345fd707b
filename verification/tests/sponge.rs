use qtv_stark::crypto::{shake128, shake256};
use qtv_stark::field::Felt;
use qtv_stark::sponge::{
    absorb_air, absorb_block_count, absorb_blocks, absorb_output, absorb_segments, absorb_trace, block_to_lanes,
    bytes_to_lane, lane_low_col, padded_block, shake_air, shake_output, shake_trace, squeeze_row, SEGMENT_ROWS,
    SHAKE128_RATE, SHAKE256_RATE, SHAKE_DOMAIN, SPONGE_WIDTH,
};
use qtv_stark::stark::{prove, verify, StarkParams};

fn params() -> StarkParams {
    StarkParams { lde_blowup: 32, num_queries: 24 }
}

#[test]
fn the_squeeze_matches_the_crypto_shake256() {
    let message = b"quantova sponge input";
    let perms = 3;
    let ours = shake_output(SHAKE256_RATE, perms, message);
    let expected = shake256(message, perms * SHAKE256_RATE);
    assert_eq!(ours, expected);
}

#[test]
fn the_squeeze_matches_the_crypto_shake128() {
    let message = b"seed";
    let perms = 2;
    let ours = shake_output(SHAKE128_RATE, perms, message);
    let expected = shake128(message, perms * SHAKE128_RATE);
    assert_eq!(ours, expected);
}

#[test]
fn the_sponge_arithmetic_holds_on_every_row() {
    let instance = shake_trace(SHAKE256_RATE, 2, b"module lattice");
    assert!(instance.air.is_satisfied(&instance.trace));
}

fn multi_block_message() -> Vec<u8> {
    (0..300u16).map(|i| (i.wrapping_mul(31).wrapping_add(7)) as u8).collect()
}

#[test]
fn the_multi_block_absorb_matches_the_crypto_shake256() {
    let message = multi_block_message();
    assert!(absorb_block_count(SHAKE256_RATE, &message) >= 3);
    let ours = absorb_output(SHAKE256_RATE, &message);
    let expected = shake256(&message, SHAKE256_RATE);
    assert_eq!(ours, expected);
}

#[test]
fn the_multi_block_absorb_arithmetic_holds() {
    let instance = absorb_trace(SHAKE256_RATE, &multi_block_message());
    assert!(instance.air.is_satisfied(&instance.trace));
}

#[test]
fn the_multi_block_absorb_proves_and_verifies() {
    let message = multi_block_message();
    let instance = absorb_trace(SHAKE256_RATE, &message);
    let proof = prove(&instance.air, &instance.trace, &params());
    let air = absorb_air(SHAKE256_RATE, &message, &instance.output);
    assert!(verify(&air, &params(), &proof));
}

#[test]
fn a_dropped_absorb_block_is_rejected() {
    let message = multi_block_message();
    let full = absorb_output(SHAKE256_RATE, &message);
    let first_block_only = &message[..SHAKE256_RATE - 1];
    let instance = absorb_trace(SHAKE256_RATE, first_block_only);
    let proof = prove(&instance.air, &instance.trace, &params());
    let air = absorb_air(SHAKE256_RATE, first_block_only, &full);
    assert!(!verify(&air, &params(), &proof));
}

#[test]
fn a_tampered_absorb_squeeze_is_rejected() {
    let message = multi_block_message();
    let instance = absorb_trace(SHAKE256_RATE, &message);
    let proof = prove(&instance.air, &instance.trace, &params());
    let mut wrong = instance.output.clone();
    wrong[10] ^= 1;
    let air = absorb_air(SHAKE256_RATE, &message, &wrong);
    assert!(!verify(&air, &params(), &proof));
}

#[test]
fn the_sponge_output_matches_the_crypto_crate() {
    let message = b"digest";
    let instance = shake_trace(SHAKE256_RATE, 2, message);
    let expected = shake256(message, 2 * SHAKE256_RATE);
    assert_eq!(instance.output, expected);
}

#[test]
fn a_tampered_squeeze_row_is_rejected() {
    let mut instance = shake_trace(SHAKE256_RATE, 2, b"tamper");
    let cell = instance.trace.get(11, SEGMENT_ROWS + 3);
    instance.trace.set(11, SEGMENT_ROWS + 3, qtv_stark::qudros::xor2(cell, Felt::one()));
    assert!(!instance.air.is_satisfied(&instance.trace));
}

#[test]
fn the_sponge_proves_and_verifies() {
    let message = b"prove me";
    let instance = shake_trace(SHAKE256_RATE, 2, message);
    let proof = prove(&instance.air, &instance.trace, &params());
    let air = shake_air(SHAKE256_RATE, 2, message, &instance.output);
    assert!(verify(&air, &params(), &proof));
}

#[test]
fn a_proof_for_a_wrong_output_is_rejected() {
    let message = b"prove me";
    let instance = shake_trace(SHAKE256_RATE, 2, message);
    let proof = prove(&instance.air, &instance.trace, &params());
    let mut wrong = instance.output.clone();
    wrong[200] ^= 1;
    let air = shake_air(SHAKE256_RATE, 2, message, &wrong);
    assert!(!verify(&air, &params(), &proof));
}

#[test]
fn the_padding_sets_the_domain_byte_and_the_last_bit() {
    let block = padded_block(8, b"ab");
    assert_eq!(block, vec![b'a', b'b', SHAKE_DOMAIN, 0, 0, 0, 0, 128]);
    let tight = padded_block(3, b"ab");
    assert_eq!(tight, vec![b'a', b'b', SHAKE_DOMAIN ^ 128]);
}

#[test]
fn lanes_read_little_endian() {
    assert_eq!(bytes_to_lane(&[1, 2]), 0x0201);
    assert_eq!(bytes_to_lane(&[]), 0);
    let lanes = block_to_lanes(&[1, 0, 0, 0, 0, 0, 0, 0, 2]);
    assert_eq!(lanes[0], 1);
    assert_eq!(lanes[1], 2);
    assert_eq!(lanes[2], 0);
}

#[test]
fn the_absorb_shape_follows_the_block_count() {
    let message = multi_block_message();
    assert_eq!(absorb_block_count(SHAKE256_RATE, &message), 3);
    assert_eq!(absorb_segments(SHAKE256_RATE, &message), 4);
    assert_eq!(absorb_blocks(SHAKE256_RATE, &message).len(), 3);
    assert_eq!(absorb_block_count(SHAKE256_RATE, &message[..SHAKE256_RATE]), 2);
    let instance = absorb_trace(SHAKE256_RATE, &message);
    assert_eq!(instance.trace.width(), SPONGE_WIDTH + 2);
    assert_eq!(instance.trace.length(), 4 * SEGMENT_ROWS);
}

#[test]
fn the_squeeze_rows_and_lane_columns_are_placed_by_segment() {
    assert_eq!(squeeze_row(0), 24);
    assert_eq!(squeeze_row(2), 2 * SEGMENT_ROWS + 24);
    assert_eq!(lane_low_col(3), lane_low_col(0) + 6);
}
