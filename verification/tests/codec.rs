use qtv_stark::air::Air;
use qtv_stark::certificate::{certificate_air, certificate_trace};
use qtv_stark::codec::{decode_proof, encode_proof};
use qtv_stark::stark::{prove, verify, StarkParams, StarkProof};

fn params() -> StarkParams {
    StarkParams { lde_blowup: 32, num_queries: 24 }
}

fn sample_proof() -> (Air, StarkProof) {
    let hints: Vec<u64> = (0..2u64).map(|i| i & 1).collect();
    let responses = [11_111u64, 22_222];
    let cert = certificate_trace(2, b"module lattice codec round trip", &hints, &responses);
    let proof = prove(&cert.air, &cert.trace, &params());
    let air = certificate_air(2, b"module lattice codec round trip", &cert.output);
    (air, proof)
}

#[test]
fn a_proof_round_trips_through_bytes() {
    let (air, proof) = sample_proof();
    let bytes = encode_proof(&proof);
    let decoded = decode_proof(&bytes).expect("decode");
    assert!(verify(&air, &params(), &decoded));
}

#[test]
fn the_encoding_is_stable() {
    let (_, proof) = sample_proof();
    assert_eq!(encode_proof(&proof), encode_proof(&decode_proof(&encode_proof(&proof)).unwrap()));
}

#[test]
fn a_truncated_proof_decodes_to_none() {
    let (_, proof) = sample_proof();
    let bytes = encode_proof(&proof);
    assert!(decode_proof(&bytes[..bytes.len() - 1]).is_none());
}

#[test]
fn trailing_bytes_are_rejected() {
    let (_, proof) = sample_proof();
    let mut bytes = encode_proof(&proof);
    bytes.push(0);
    assert!(decode_proof(&bytes).is_none());
}

#[test]
fn a_bogus_length_does_not_allocate_unbounded() {
    let mut bytes = vec![0u8; 64];
    bytes.extend_from_slice(&u64::MAX.to_le_bytes());
    assert!(decode_proof(&bytes).is_none());
}

#[test]
fn a_tampered_opening_no_longer_verifies() {
    let (air, proof) = sample_proof();
    let mut bytes = encode_proof(&proof);
    let mid = bytes.len() / 2;
    bytes[mid] ^= 1;
    if let Some(decoded) = decode_proof(&bytes) {
        assert!(!verify(&air, &params(), &decoded));
    }
}

#[test]
fn the_encoding_starts_with_the_trace_root() {
    let (_, proof) = sample_proof();
    let bytes = encode_proof(&proof);
    assert_eq!(&bytes[..32], &proof.trace_root[..]);
    let layers = u64::from_le_bytes(bytes[32..40].try_into().unwrap());
    assert_eq!(layers as usize, proof.fri.layer_roots.len());
}

#[test]
fn an_empty_input_decodes_to_none() {
    assert!(decode_proof(&[]).is_none());
    assert!(decode_proof(&[0u8; 31]).is_none());
}
