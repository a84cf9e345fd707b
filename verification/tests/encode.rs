use qtv_stark::encode::{encode_air, encode_batch, seed_index_bytes, w1_encode, BYTE_COL, LO_COL};
use qtv_stark::field::Felt;
use qtv_stark::stark::{prove, verify, StarkParams};

fn params() -> StarkParams {
    StarkParams { lde_blowup: 8, num_queries: 24 }
}

fn sample_highs() -> Vec<u8> {
    (0..64u8).map(|i| i.wrapping_mul(7) & 15).collect()
}

#[test]
fn the_packing_matches_the_reference_layout() {
    let highs = sample_highs();
    let bytes = w1_encode(&highs);
    assert_eq!(bytes.len(), highs.len() / 2);
    for (b, pair) in bytes.iter().zip(highs.chunks(2)) {
        assert_eq!(*b, pair[0] | (pair[1] << 4));
    }
}

#[test]
fn the_byte_column_holds_the_packed_bytes() {
    let batch = encode_batch(&sample_highs());
    for (row, b) in batch.bytes.iter().enumerate() {
        assert_eq!(batch.trace.get(BYTE_COL, row).to_u64(), *b as u64);
    }
}

#[test]
fn encode_the_arithmetic_holds_on_every_row() {
    let batch = encode_batch(&sample_highs());
    assert!(batch.air.is_satisfied(&batch.trace));
}

#[test]
fn encode_a_tampered_byte_is_rejected() {
    let batch = encode_batch(&sample_highs());
    let mut trace = batch.trace;
    trace.set(BYTE_COL, 1, trace.get(BYTE_COL, 1).add(Felt::one()));
    assert!(!batch.air.is_satisfied(&trace));
}

#[test]
fn an_out_of_range_nibble_is_rejected() {
    let batch = encode_batch(&sample_highs());
    let mut trace = batch.trace;
    trace.set(LO_COL, 2, Felt::new(16));
    trace.set(BYTE_COL, 2, trace.get(BYTE_COL, 2).add(Felt::new(16)));
    assert!(!batch.air.is_satisfied(&trace));
}

#[test]
fn encode_a_batch_proves_and_verifies() {
    let batch = encode_batch(&sample_highs());
    let proof = prove(&batch.air, &batch.trace, &params());
    assert!(verify(&encode_air(batch.trace.length()), &params(), &proof));
}

#[test]
fn an_odd_count_is_padded_and_indices_are_cut_to_bytes() {
    let batch = encode_batch(&[1, 2, 3]);
    assert_eq!(batch.bytes, vec![0x21, 0x03]);
    assert_eq!(seed_index_bytes(5, 4), [4, 5]);
    assert_eq!(seed_index_bytes(257, 3), [3, 1]);
}

#[test]
fn the_seed_index_bytes_place_the_column_then_the_row() {
    let rho = [0u8; 32];
    let seed = qtv_stark::hashing::matrix_entry_seed(&rho, 5, 4);
    let idx = seed_index_bytes(5, 4);
    assert_eq!(idx, [4, 5]);
    assert_eq!([seed[32], seed[33]], idx);
}
