use qtv_stark::entry::{prove_batch, verify_batch, BatchProof, MAX_MESSAGE_BYTES};

#[test]
fn a_batch_certificate_proves_and_verifies() {
    let message = b"module lattice batch entry point";
    let cert = prove_batch(message, 2);
    assert!(verify_batch(message, &cert));
}

#[test]
fn a_certificate_over_a_different_message_is_rejected() {
    let cert = prove_batch(b"the message it was proven over", 2);
    assert!(!verify_batch(b"a different message entirely!!!!", &cert));
}

#[test]
fn a_certificate_round_trips_through_bytes() {
    let message = b"round trip the batch certificate";
    let cert = prove_batch(message, 2);
    let bytes = cert.to_bytes();
    let restored = BatchProof::from_bytes(&bytes).expect("from_bytes");
    assert_eq!(restored.segments, cert.segments);
    assert!(verify_batch(message, &restored));
    assert_eq!(cert.size(), bytes.len());
}

#[test]
fn a_wrong_segment_count_is_rejected() {
    let message = b"segment count must match the proof";
    let mut cert = prove_batch(message, 2);
    cert.segments = 4;
    assert!(!verify_batch(message, &cert));
}

#[test]
fn a_short_body_decodes_to_none() {
    assert!(BatchProof::from_bytes(&[0u8; 4]).is_none());
}

#[test]
fn an_oversized_message_or_no_segments_is_rejected() {
    let message = b"fits";
    let cert = prove_batch(message, 1);
    assert!(verify_batch(message, &cert));
    let long = vec![7u8; MAX_MESSAGE_BYTES + 1];
    assert!(!verify_batch(&long, &cert));
    let mut none = cert.clone();
    none.segments = 0;
    assert!(!verify_batch(message, &none));
}

#[test]
fn the_bytes_start_with_the_segment_count() {
    let cert = BatchProof { segments: 3, proof: vec![9, 8] };
    assert_eq!(cert.to_bytes(), vec![3, 0, 0, 0, 0, 0, 0, 0, 9, 8]);
    assert_eq!(cert.size(), 10);
}
