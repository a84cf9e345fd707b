//! A high level entry point over the fused certificate: prove a message into
//! serialized proof bytes, check the bytes against the message, and carry the
//! segment count with the proof.
use vstd::prelude::*;
use crate::air::{Air, TraceTable};
use crate::certificate::{
    certificate_air, certificate_trace, describes_certificate, lemma_certificate_params, MAX_SEGMENTS, CERT_WIDTH,
};
use crate::codec::{canonical_proof, decode_proof, encode_proof, reads_as, spec_encode};
use crate::crypto::{le_bytes, le_word, push_bytes, push_u64_le, shake256, spec_shake256};
use crate::sponge::{shake_output, sponge_start, squeeze_bytes, SHAKE256_RATE};
use crate::stark::{opening_authentic, prove, stark_accepted, stark_honest, verify, StarkParams, StarkProof};
use crate::util::is_pow2;

verus! {

/// The low degree extension blow up of the certificate.
pub const CERT_BLOWUP: usize = 32;

/// The number of query openings of the certificate.
pub const CERT_QUERIES: usize = 32;

/// The largest message the certificate absorbs, one SHAKE256 block less the
/// padding byte.
pub const MAX_MESSAGE_BYTES: usize = SHAKE256_RATE - 1;

/// The protocol parameters of the certificate.
pub open spec fn cert_params() -> StarkParams {
    StarkParams { lde_blowup: CERT_BLOWUP, num_queries: CERT_QUERIES }
}

fn params() -> (p: StarkParams)
    ensures
        p == cert_params(),
{
    StarkParams { lde_blowup: CERT_BLOWUP, num_queries: CERT_QUERIES }
}

/// The hint bits of a certificate: the low bit of each byte of the SHAKE256
/// stream over the message, one per segment and at least one.
pub open spec fn hint_bits(message: Seq<u8>, segments: nat) -> Seq<u64> {
    let count = if segments >= 1 { segments } else { 1 };
    Seq::new(count, |i: int| (spec_shake256(message, count)[i] & 1u8) as u64)
}

fn derive_hints(message: &[u8], segments: usize) -> (bits: Vec<u64>)
    ensures
        bits@ == hint_bits(message@, segments as nat),
{
    let count = if segments >= 1 { segments } else { 1 };
    let bytes = shake256(message, count);
    let mut bits: Vec<u64> = Vec::new();
    let mut i: usize = 0;
    while i < count
        invariant
            i <= count,
            bytes@.len() == count,
            bytes@ == spec_shake256(message@, count as nat),
            count == if segments >= 1 { segments } else { 1 },
            bits@.len() == i,
            forall|k: int| 0 <= k < i ==> #[trigger] bits@[k] == (bytes@[k] & 1u8) as u64,
        decreases count - i,
    {
        bits.push((bytes[i] & 1) as u64);
        i = i + 1;
    }
    assert(bits@ =~= hint_bits(message@, segments as nat));
    bits
}

/// A self contained certificate: the segment count and the proof bytes.
#[derive(Clone)]
pub struct BatchProof {
    /// The number of SHAKE256 squeeze segments.
    pub segments: usize,
    /// The serialized proof.
    pub proof: Vec<u8>,
}

/// The bytes squeezed over a message for a segment count.
pub open spec fn message_squeeze(message: Seq<u8>, segments: nat) -> Seq<u8> {
    squeeze_bytes(sponge_start(SHAKE256_RATE as nat, message), 17, segments)
}

/// The trace the prover fills for a message and a segment count: the
/// sponge rows of the message's squeeze, and every row as the certificate
/// expects for the message's hint bits and no responses.
pub open spec fn certificate_trace_holds(trace: TraceTable, message: Seq<u8>, segments: nat) -> bool {
    &&& trace.spec_width() == CERT_WIDTH
    &&& trace.spec_length() == segments * 32
    &&& forall|j: int, r: int| 0 <= j < segments && 0 <= r < 32
        ==> crate::sponge::sponge_row_filled(#[trigger] trace.spec_row(j * 32 + r),
            crate::sponge::squeeze_state(sponge_start(SHAKE256_RATE as nat, message), j as nat), r as nat, (j * 32 + r) as nat)
    &&& forall|g: int| 0 <= g < segments * 32
        ==> crate::certificate::cert_row_expected(#[trigger] trace.spec_row(g), message, hint_bits(message, segments),
            Seq::empty(), g)
}

/// What a proof produced for a description over a message carries: the
/// scheduled number of queries, each with authentic openings, and it is the
/// honest proof for the certificate trace of the message.
pub open spec fn produced_for(air: Air, proof: StarkProof, message: Seq<u8>, segments: nat) -> bool {
    &&& proof.fri.queries@.len() == CERT_QUERIES
    &&& proof.openings@.len() == CERT_QUERIES
    &&& forall|q: int| 0 <= q < CERT_QUERIES ==> #[trigger] opening_authentic(&air, &cert_params(), proof, q)
    &&& exists|trace: TraceTable| certificate_trace_holds(trace, message, segments)
        && #[trigger] stark_honest(&air, &cert_params(), &trace, proof)
}

/// Proves the certificate over a message and returns the segment count with
/// the serialized proof.
pub fn prove_batch(message: &[u8], segments: usize) -> (r: BatchProof)
    requires
        message@.len() <= MAX_MESSAGE_BYTES,
        1 <= segments <= MAX_SEGMENTS,
        is_pow2((segments * 32) as nat),
        CERT_WIDTH * (segments * 32) <= usize::MAX,
    ensures
        r.segments == segments,
        exists|air: Air, p: StarkProof| #![trigger describes_certificate(air, segments as nat, message@, message_squeeze(message@, segments as nat)), spec_encode(p)]
            describes_certificate(air, segments as nat, message@, message_squeeze(message@, segments as nat))
            && produced_for(air, p, message@, segments as nat) && r.proof@ == spec_encode(p) && canonical_proof(p),
{
    let hints = derive_hints(message, segments);
    let empty: Vec<u64> = Vec::new();
    let cert = certificate_trace(segments, message, hints.as_slice(), empty.as_slice());
    let params = params();
    proof {
        lemma_certificate_params(&cert.air, segments as nat, message@, cert.output@, &params);
    }
    let proof = prove(&cert.air, &cert.trace, &params);
    let bytes = encode_proof(&proof);
    proof {
        assert(cert.output@ == message_squeeze(message@, segments as nat));
        assert(describes_certificate(cert.air, segments as nat, message@, message_squeeze(message@, segments as nat)));
        assert(hints@ == hint_bits(message@, segments as nat));
        assert(empty@ =~= Seq::<u64>::empty());
        assert(certificate_trace_holds(cert.trace, message@, segments as nat));
        assert(stark_honest(&cert.air, &cert_params(), &cert.trace, proof));
        assert(produced_for(cert.air, proof, message@, segments as nat));
        assert(bytes@ == spec_encode(proof));
    }
    BatchProof { segments, proof: bytes }
}

/// A proof accepted against the certificate description over a message's
/// squeeze.
pub open spec fn accepted_for(message: Seq<u8>, segments: nat, p: StarkProof) -> bool {
    forall|air: Air| #[trigger] describes_certificate(air, segments, message, message_squeeze(message, segments))
        ==> stark_accepted(&air, &cert_params(), p)
}

/// Checks a certificate against the message it claims: the message fits, the
/// proof bytes decode, and the decoded proof is accepted against the
/// description over the message's squeeze. Bytes that encode an accepted
/// proof are accepted; bytes that read as no proof are refused.
#[verifier::rlimit(40)]
pub fn verify_batch(message: &[u8], cert: &BatchProof) -> (r: bool)
    requires
        cert.segments == 0 || cert.segments <= MAX_SEGMENTS && is_pow2((cert.segments * 32) as nat),
    ensures
        message@.len() > MAX_MESSAGE_BYTES ==> !r,
        cert.segments == 0 ==> !r,
        (forall|p: StarkProof| !#[trigger] reads_as(cert.proof@, spec_encode(p))) ==> !r,
        r ==> exists|air: Air, p: StarkProof| #![trigger describes_certificate(air, cert.segments as nat, message@, message_squeeze(message@, cert.segments as nat)), spec_encode(p)]
            describes_certificate(air, cert.segments as nat, message@, message_squeeze(message@, cert.segments as nat))
            && reads_as(cert.proof@, spec_encode(p)) && stark_accepted(&air, &cert_params(), p),
        message@.len() <= MAX_MESSAGE_BYTES && cert.segments != 0
            && (exists|p: StarkProof| #[trigger] spec_encode(p) == cert.proof@ && canonical_proof(p)
                && accepted_for(message@, cert.segments as nat, p)) ==> r,
{
    if message.len() > MAX_MESSAGE_BYTES || cert.segments == 0 {
        return false;
    }
    let proof = match decode_proof(cert.proof.as_slice()) {
        Some(proof) => proof,
        None => {
            proof {
                assert forall|p: StarkProof| #[trigger] spec_encode(p) == cert.proof@ implies false by {}
            }
            return false;
        },
    };
    let output = shake_output(SHAKE256_RATE, cert.segments, message);
    proof {
        crate::sponge::lemma_squeeze_len(sponge_start(SHAKE256_RATE as nat, message@), 17, cert.segments as nat);
        assert(cert.segments * (8 * 17) == cert.segments * SHAKE256_RATE);
    }
    let air = certificate_air(cert.segments, message, output.as_slice());
    let params = params();
    proof {
        lemma_certificate_params(&air, cert.segments as nat, message@, output@, &params);
    }
    let ok = verify(&air, &params, &proof);
    proof {
        if ok {
            assert(output@ == message_squeeze(message@, cert.segments as nat));
            assert(describes_certificate(air, cert.segments as nat, message@, message_squeeze(message@, cert.segments as nat)));
            assert(stark_accepted(&air, &cert_params(), proof));
            assert(reads_as(cert.proof@, spec_encode(proof)));
        }
        if exists|p: StarkProof| #[trigger] spec_encode(p) == cert.proof@ && canonical_proof(p)
            && accepted_for(message@, cert.segments as nat, p) {
            let p = choose|p: StarkProof| #[trigger] spec_encode(p) == cert.proof@ && canonical_proof(p)
                && accepted_for(message@, cert.segments as nat, p);
            assert(spec_encode(proof) == cert.proof@);
            crate::codec::law_encoding_injective(p, proof);
            assert(output@ == message_squeeze(message@, cert.segments as nat));
            assert(describes_certificate(air, cert.segments as nat, message@, message_squeeze(message@, cert.segments as nat)));
            assert(stark_accepted(&air, &cert_params(), p));
            crate::stark::lemma_accepted_transfer(&air, &cert_params(), p, proof);
        }
    }
    ok
}

impl BatchProof {
    /// The bytes of a certificate: the segment count as a little endian
    /// word, then the proof.
    pub fn to_bytes(&self) -> (out: Vec<u8>)
        ensures
            out@ == le_bytes(self.segments as u64) + self.proof@,
    {
        let mut out: Vec<u8> = Vec::new();
        push_u64_le(&mut out, self.segments as u64);
        push_bytes(&mut out, self.proof.as_slice());
        assert(out@ =~= le_bytes(self.segments as u64) + self.proof@);
        out
    }

    /// Reads a certificate back from bytes; fewer than eight bytes give
    /// nothing.
    pub fn from_bytes(bytes: &[u8]) -> (r: Option<BatchProof>)
        ensures
            r is None <==> bytes@.len() < 8,
            r is Some ==> (r->0).segments == le_word(bytes@.subrange(0, 8)) as usize
                && (r->0).proof@ == bytes@.subrange(8, bytes@.len() as int),
    {
        if bytes.len() < 8 {
            return None;
        }
        let head = [bytes[0], bytes[1], bytes[2], bytes[3], bytes[4], bytes[5], bytes[6], bytes[7]];
        let word = (head[0] as u64) | ((head[1] as u64) << 8u64) | ((head[2] as u64) << 16u64) | ((head[3] as u64) << 24u64)
            | ((head[4] as u64) << 32u64) | ((head[5] as u64) << 40u64) | ((head[6] as u64) << 48u64)
            | ((head[7] as u64) << 56u64);
        let mut proof: Vec<u8> = Vec::new();
        let mut i: usize = 8;
        while i < bytes.len()
            invariant
                8 <= i <= bytes@.len(),
                proof@ == bytes@.subrange(8, i as int),
            decreases bytes@.len() - i,
        {
            proof.push(bytes[i]);
            i = i + 1;
            assert(proof@ =~= bytes@.subrange(8, i as int));
        }
        proof {
            assert(head@ =~= bytes@.subrange(0, 8));
        }
        Some(BatchProof { segments: word as usize, proof })
    }

    /// The serialized size in bytes.
    pub fn size(&self) -> (n: usize)
        requires
            self.proof@.len() + 8 <= usize::MAX,
        ensures
            n == 8 + self.proof@.len(),
    {
        8 + self.proof.len()
    }
}


/// Reading back the bytes of a batch proof gives the segment count and the
/// proof bytes that were written.
pub proof fn law_batch_bytes_round_trip(segments: u64, proof: Seq<u8>)
    ensures
        (le_bytes(segments) + proof).len() >= 8,
        le_word((le_bytes(segments) + proof).subrange(0, 8)) == segments,
        (le_bytes(segments) + proof).subrange(8, (le_bytes(segments) + proof).len() as int) == proof,
{
    let all = le_bytes(segments) + proof;
    assert(all.subrange(0, 8) =~= le_bytes(segments));
    assert(all.subrange(8, all.len() as int) =~= proof);
    crate::crypto::lemma_le_word_bytes(segments);
}

} // verus!
