use qtv_stark::crypto::{sha3_256, shake256};
use qtv_stark::field::Felt;
use qtv_stark::keccak::{keccak_air, keccak_f1600, keccak_trace, round_constants, xor2, xor3, xor_all, LANES};

const REFERENCE_RC: [u64; 24] = [
    1,
    32898,
    9223372036854808714,
    9223372039002292224,
    32907,
    2147483649,
    9223372039002292353,
    9223372036854808585,
    138,
    136,
    2147516425,
    2147483658,
    2147516555,
    9223372036854775947,
    9223372036854808713,
    9223372036854808579,
    9223372036854808578,
    9223372036854775936,
    32778,
    9223372039002259466,
    9223372039002292353,
    9223372036854808704,
    2147483649,
    9223372039002292232,
];

#[test]
fn keccak_the_round_constants_match_the_standard_table() {
    let rc = round_constants(24);
    assert_eq!(rc, REFERENCE_RC);
}

fn reference_sponge(rate: usize, domain: u8, input: &[u8], out_len: usize) -> Vec<u8> {
    let mut lanes = [0u64; LANES];
    let absorb = |lanes: &mut [u64; LANES], block: &[u8]| {
        for (i, byte) in block.iter().enumerate() {
            lanes[i / 8] ^= (*byte as u64) << (8 * (i % 8));
        }
    };
    let mut offset = 0;
    let mut block = vec![0u8; rate];
    for &byte in input {
        block[offset] = byte;
        offset += 1;
        if offset == rate {
            absorb(&mut lanes, &block);
            lanes = keccak_f1600(&lanes);
            block = vec![0u8; rate];
            offset = 0;
        }
    }
    block[offset] = domain;
    block[rate - 1] ^= 128;
    absorb(&mut lanes, &block);
    lanes = keccak_f1600(&lanes);

    let mut out = Vec::with_capacity(out_len);
    let mut pos = 0;
    while out.len() < out_len {
        if pos == rate {
            lanes = keccak_f1600(&lanes);
            pos = 0;
        }
        out.push((lanes[pos / 8] >> (8 * (pos % 8))) as u8);
        pos += 1;
    }
    out
}

#[test]
fn keccak_the_reference_sponge_matches_the_crypto_sha3() {
    for input in [b"".as_slice(), b"abc".as_slice(), b"quantova prover".as_slice()] {
        let ours = reference_sponge(136, 6, input, 32);
        assert_eq!(&ours[..], &sha3_256(input)[..]);
    }
}

#[test]
fn keccak_the_reference_sponge_matches_the_crypto_shake256() {
    let input = b"module lattice batch";
    let expected = shake256(input, 96);
    let ours = reference_sponge(136, 31, input, 96);
    assert_eq!(&ours[..], &expected[..]);
}

#[test]
fn keccak_the_permutation_is_a_bijection_on_a_sample() {
    let mut state = [0u64; LANES];
    for (i, lane) in state.iter_mut().enumerate() {
        *lane = (i as u64).wrapping_mul(11400714819323198485).wrapping_add(1);
    }
    let permuted = keccak_f1600(&state);
    assert_ne!(permuted, state);
    let mut other = state;
    other[3] ^= 1;
    assert_ne!(keccak_f1600(&other), permuted);
}

fn sample_input() -> [u64; LANES] {
    let mut state = [0u64; LANES];
    for (i, lane) in state.iter_mut().enumerate() {
        *lane = (i as u64).wrapping_mul(81985529216486895).wrapping_add(3735928559);
    }
    state
}

#[test]
fn keccak_the_trace_output_matches_the_permutation() {
    let input = sample_input();
    let instance = keccak_trace(&input);
    assert_eq!(instance.output, keccak_f1600(&input));
}

#[test]
fn keccak_the_arithmetic_holds_on_every_row() {
    let instance = keccak_trace(&sample_input());
    assert!(instance.air.is_satisfied(&instance.trace));
}

#[test]
fn keccak_the_all_zero_state_is_arithmetized() {
    let instance = keccak_trace(&[0u64; LANES]);
    assert!(instance.air.is_satisfied(&instance.trace));
    assert_eq!(instance.output, keccak_f1600(&[0u64; LANES]));
}

#[test]
fn keccak_a_tampered_state_bit_is_rejected() {
    let mut instance = keccak_trace(&sample_input());
    let cell = instance.trace.get(37, 5);
    instance.trace.set(37, 5, xor2(cell, Felt::one()));
    assert!(!instance.air.is_satisfied(&instance.trace));
}

#[test]
fn keccak_a_tampered_output_is_rejected() {
    let input = sample_input();
    let instance = keccak_trace(&input);
    let mut wrong = keccak_f1600(&input);
    wrong[0] ^= 1;
    let air = keccak_air(&input, &wrong);
    assert!(!air.is_satisfied(&instance.trace));
}

#[test]
fn keccak_the_bit_operations_follow_the_truth_tables() {
    let zero = Felt::zero();
    let one = Felt::one();
    assert_eq!(xor2(zero, zero), zero);
    assert_eq!(xor2(one, zero), one);
    assert_eq!(xor2(one, one), zero);
    assert_eq!(xor3(one, one, one), one);
    assert_eq!(xor3(one, one, zero), zero);
    assert_eq!(xor_all(&[one, one, one, zero, one]), zero);
}

#[test]
fn the_standard_name_agrees_with_the_permutation_module() {
    let mut state = [0u64; LANES];
    state[0] = 1;
    assert_eq!(keccak_f1600(&state), qtv_stark::qudros::qudros_f1600(&state));
    assert_eq!(qtv_stark::keccak::keccak_round(&state, 1), qtv_stark::qudros::qudros_round(&state, 1));
    assert_eq!(qtv_stark::keccak::keccak_states(&state, 2).len(), 3);
}
