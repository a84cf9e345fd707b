use qtv_stark::crypto::{shake128, shake256};
use qtv_stark::hashing::{
    challenge_hash, matrix_entries, matrix_entry_blocks, matrix_entry_hash, matrix_entry_perms, matrix_entry_seed,
    CTILDE_BYTES, MU_BYTES, SEED_BYTES,
};
use qtv_stark::lattice::{MATRIX_COLS, MATRIX_ROWS};
use qtv_stark::sponge::{shake_air, shake_output, SHAKE128_RATE, SHAKE256_RATE};
use qtv_stark::stark::{prove, verify, StarkParams};

fn params() -> StarkParams {
    StarkParams { lde_blowup: 32, num_queries: 24 }
}

fn sample_seed() -> [u8; SEED_BYTES] {
    let mut rho = [0u8; SEED_BYTES];
    for (i, b) in rho.iter_mut().enumerate() {
        *b = (i as u8).wrapping_mul(37).wrapping_add(1);
    }
    rho
}

#[test]
fn the_matrix_entry_stream_matches_the_crypto_shake128() {
    let rho = sample_seed();
    let blocks = matrix_entry_perms();
    for row in 0..MATRIX_ROWS {
        for col in 0..MATRIX_COLS {
            let seed = matrix_entry_seed(&rho, row, col);
            let ours = shake_output(SHAKE128_RATE, blocks, &seed);
            let expected = shake128(&seed, blocks * SHAKE128_RATE);
            assert_eq!(ours, expected);
        }
    }
}

#[test]
fn the_matrix_entry_seed_has_the_expected_shape() {
    let rho = sample_seed();
    let seed = matrix_entry_seed(&rho, 5, 4);
    assert_eq!(seed.len(), SEED_BYTES + 2);
    assert_eq!(seed[SEED_BYTES], 4);
    assert_eq!(seed[SEED_BYTES + 1], 5);
    assert_eq!(matrix_entries(), 30);
}

#[test]
fn the_challenge_stream_matches_the_crypto_shake256() {
    let mut input = vec![0u8; MU_BYTES];
    for (i, b) in input.iter_mut().enumerate() {
        *b = (i as u8).wrapping_mul(29).wrapping_add(7);
    }
    let instance = challenge_hash(&input);
    let expected = shake256(&input, SHAKE256_RATE);
    assert_eq!(instance.output, expected);
    assert!(CTILDE_BYTES <= instance.output.len());
}

#[test]
fn the_matrix_entry_hash_arithmetic_holds() {
    let rho = sample_seed();
    let instance = matrix_entry_hash(&rho, 2, 3);
    assert!(instance.air.is_satisfied(&instance.trace));
}

#[test]
fn the_challenge_hash_proves_and_verifies() {
    let mut input = vec![0u8; MU_BYTES];
    for (i, b) in input.iter_mut().enumerate() {
        *b = (i as u8).wrapping_mul(13).wrapping_add(3);
    }
    let instance = challenge_hash(&input);
    let proof = prove(&instance.air, &instance.trace, &params());
    let air = shake_air(SHAKE256_RATE, 1, &input, &instance.output);
    assert!(verify(&air, &params(), &proof));
}

#[test]
fn the_matrix_entry_covers_five_blocks_in_eight_permutations() {
    assert_eq!(matrix_entry_blocks(), 5);
    assert_eq!(matrix_entry_perms(), 8);
}
