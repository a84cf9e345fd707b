use qtv_stark::crypto::{sha3_256, shake256};
use qtv_stark::field::Felt;
use qtv_stark::qudros::{
    qudros_air, qudros_f1600, qudros_round, qudros_states, qudros_trace, round_constants, xor2, xor3, xor_all,
    LANES, QUDROS_ROUNDS, QUDROS_TRACE_ROWS, QUDROS_WIDTH,
};
use qtv_stark::stark::{prove, verify, StarkParams};

fn params() -> StarkParams {
    StarkParams { lde_blowup: 32, num_queries: 24 }
}

const REFERENCE_RC: [u64; 24] = [
    1,
    32898,
    9223372036854808714,
    9223372039002292224,
    32907,
    2147483649,
    9223372039002292353,
    9223372036854808585,
    138,
    136,
    2147516425,
    2147483658,
    2147516555,
    9223372036854775947,
    9223372036854808713,
    9223372036854808579,
    9223372036854808578,
    9223372036854775936,
    32778,
    9223372039002259466,
    9223372039002292353,
    9223372036854808704,
    2147483649,
    9223372039002292232,
];

#[test]
fn qudros_the_round_constants_match_the_standard_table() {
    let rc = round_constants(24);
    assert_eq!(rc, REFERENCE_RC);
}

fn reference_sponge(rate: usize, domain: u8, input: &[u8], out_len: usize) -> Vec<u8> {
    let mut lanes = [0u64; LANES];
    let absorb = |lanes: &mut [u64; LANES], block: &[u8]| {
        for (i, byte) in block.iter().enumerate() {
            lanes[i / 8] ^= (*byte as u64) << (8 * (i % 8));
        }
    };
    let mut offset = 0;
    let mut block = vec![0u8; rate];
    for &byte in input {
        block[offset] = byte;
        offset += 1;
        if offset == rate {
            absorb(&mut lanes, &block);
            lanes = qudros_f1600(&lanes);
            block = vec![0u8; rate];
            offset = 0;
        }
    }
    block[offset] = domain;
    block[rate - 1] ^= 128;
    absorb(&mut lanes, &block);
    lanes = qudros_f1600(&lanes);

    let mut out = Vec::with_capacity(out_len);
    let mut pos = 0;
    while out.len() < out_len {
        if pos == rate {
            lanes = qudros_f1600(&lanes);
            pos = 0;
        }
        out.push((lanes[pos / 8] >> (8 * (pos % 8))) as u8);
        pos += 1;
    }
    out
}

#[test]
fn qudros_the_reference_sponge_matches_the_crypto_sha3() {
    for input in [b"".as_slice(), b"abc".as_slice(), b"quantova prover".as_slice()] {
        let ours = reference_sponge(136, 6, input, 32);
        assert_eq!(&ours[..], &sha3_256(input)[..]);
    }
}

#[test]
fn qudros_the_reference_sponge_matches_the_crypto_shake256() {
    let input = b"module lattice batch";
    let expected = shake256(input, 96);
    let ours = reference_sponge(136, 31, input, 96);
    assert_eq!(&ours[..], &expected[..]);
}

#[test]
fn qudros_the_permutation_is_a_bijection_on_a_sample() {
    let mut state = [0u64; LANES];
    for (i, lane) in state.iter_mut().enumerate() {
        *lane = (i as u64).wrapping_mul(11400714819323198485).wrapping_add(1);
    }
    let permuted = qudros_f1600(&state);
    assert_ne!(permuted, state);
    let mut other = state;
    other[3] ^= 1;
    assert_ne!(qudros_f1600(&other), permuted);
}

fn sample_input() -> [u64; LANES] {
    let mut state = [0u64; LANES];
    for (i, lane) in state.iter_mut().enumerate() {
        *lane = (i as u64).wrapping_mul(81985529216486895).wrapping_add(3735928559);
    }
    state
}

#[test]
fn qudros_the_trace_output_matches_the_permutation() {
    let input = sample_input();
    let instance = qudros_trace(&input);
    assert_eq!(instance.output, qudros_f1600(&input));
}

#[test]
fn qudros_the_arithmetic_holds_on_every_row() {
    let instance = qudros_trace(&sample_input());
    assert!(instance.air.is_satisfied(&instance.trace));
}

#[test]
fn qudros_the_all_zero_state_is_arithmetized() {
    let instance = qudros_trace(&[0u64; LANES]);
    assert!(instance.air.is_satisfied(&instance.trace));
    assert_eq!(instance.output, qudros_f1600(&[0u64; LANES]));
}

#[test]
fn qudros_a_tampered_state_bit_is_rejected() {
    let mut instance = qudros_trace(&sample_input());
    let cell = instance.trace.get(37, 5);
    instance.trace.set(37, 5, xor2(cell, Felt::one()));
    assert!(!instance.air.is_satisfied(&instance.trace));
}

#[test]
fn qudros_a_tampered_output_is_rejected() {
    let input = sample_input();
    let instance = qudros_trace(&input);
    let mut wrong = qudros_f1600(&input);
    wrong[0] ^= 1;
    let air = qudros_air(&input, &wrong);
    assert!(!air.is_satisfied(&instance.trace));
}

#[test]
fn the_permutation_proves_and_verifies() {
    let input = sample_input();
    let instance = qudros_trace(&input);
    let proof = prove(&instance.air, &instance.trace, &params());
    let air = qudros_air(&input, &instance.output);
    assert!(verify(&air, &params(), &proof));
}

#[test]
fn a_proof_for_the_wrong_output_is_rejected() {
    let input = sample_input();
    let instance = qudros_trace(&input);
    let proof = prove(&instance.air, &instance.trace, &params());
    let mut wrong = instance.output;
    wrong[7] ^= 1 << 20;
    let air = qudros_air(&input, &wrong);
    assert!(!verify(&air, &params(), &proof));
}

#[test]
fn qudros_the_bit_operations_follow_the_truth_tables() {
    let zero = Felt::zero();
    let one = Felt::one();
    assert_eq!(xor2(zero, zero), zero);
    assert_eq!(xor2(one, zero), one);
    assert_eq!(xor2(one, one), zero);
    assert_eq!(xor3(one, one, one), one);
    assert_eq!(xor3(one, one, zero), zero);
    assert_eq!(xor_all(&[one, one, one, zero, one]), zero);
}

#[test]
fn one_round_of_the_zero_state_leaves_only_the_constant() {
    let out = qudros_round(&[0u64; LANES], 0x8000_0000_0000_0001);
    assert_eq!(out[0], 0x8000_0000_0000_0001);
    assert!(out[1..].iter().all(|&lane| lane == 0));
}

#[test]
fn the_states_start_at_the_input_and_end_at_the_permutation() {
    let input = sample_input();
    let states = qudros_states(&input, QUDROS_ROUNDS);
    assert_eq!(states.len(), QUDROS_ROUNDS + 1);
    assert_eq!(states[0], input);
    assert_eq!(states[QUDROS_ROUNDS], qudros_f1600(&input));
}

#[test]
fn the_trace_has_the_documented_shape() {
    let instance = qudros_trace(&sample_input());
    assert_eq!(instance.trace.width(), QUDROS_WIDTH);
    assert_eq!(instance.trace.length(), QUDROS_TRACE_ROWS);
    assert_eq!(instance.air.boundaries().len(), 4 * LANES + 2 * QUDROS_TRACE_ROWS);
}

#[test]
fn the_known_keccak_permutation_of_zero() {
    let out = qudros_f1600(&[0u64; LANES]);
    assert_eq!(out[0], 0xF1258F7940E1DDE7);
    assert_eq!(out[1], 0x84D5CCF933C0478A);
}
