//! The FIPS 202 hash functions the protocol relies on, and byte helpers.
use vstd::prelude::*;
use keccak_asm::Digest as Sha3Digest;
use sha3::digest::{ExtendableOutput, Update, XofReader};

verus! {

/// A thirty two byte hash output.
pub type Digest = [u8; 32];

/// The SHA3-256 digest of a byte string.
pub uninterp spec fn spec_sha3_256(data: Seq<u8>) -> Seq<u8>;

/// The first bytes of the SHAKE128 stream over a byte string.
pub uninterp spec fn spec_shake128(data: Seq<u8>, len: nat) -> Seq<u8>;

/// The first bytes of the SHAKE256 stream over a byte string.
pub uninterp spec fn spec_shake256(data: Seq<u8>, len: nat) -> Seq<u8>;

/// Calls SHA3-256 of the keccak-asm crate (`Sha3_256::digest`, the
/// cryptogams assembly permutation); the contract names the digest as a
/// function of the input bytes alone.
#[verifier::external_body]
pub fn sha3_256(data: &[u8]) -> (r: Digest)
    ensures
        r@ == spec_sha3_256(data@),
{
    keccak_asm::Sha3_256::digest(data).into()
}

/// Calls SHAKE128 of the sha3 crate (`Shake128` update, `finalize_xof`, `read`);
/// the contract gives the output length and names the bytes as a function of the
/// input and the length.
#[verifier::external_body]
pub fn shake128(data: &[u8], len: usize) -> (r: Vec<u8>)
    ensures
        r@ == spec_shake128(data@, len as nat),
        r@.len() == len,
{
    let mut hasher = sha3::Shake128::default();
    hasher.update(data);
    let mut out = vec![0u8; len];
    hasher.finalize_xof().read(&mut out);
    out
}

/// Calls SHAKE256 of the sha3 crate (`Shake256` update, `finalize_xof`, `read`);
/// the contract gives the output length and names the bytes as a function of the
/// input and the length.
#[verifier::external_body]
pub fn shake256(data: &[u8], len: usize) -> (r: Vec<u8>)
    ensures
        r@ == spec_shake256(data@, len as nat),
        r@.len() == len,
{
    let mut hasher = sha3::Shake256::default();
    hasher.update(data);
    let mut out = vec![0u8; len];
    hasher.finalize_xof().read(&mut out);
    out
}

/// The little endian bytes of a word.
pub open spec fn le_bytes(v: u64) -> Seq<u8> {
    seq![
        v as u8,
        (v >> 8u64) as u8,
        (v >> 16u64) as u8,
        (v >> 24u64) as u8,
        (v >> 32u64) as u8,
        (v >> 40u64) as u8,
        (v >> 48u64) as u8,
        (v >> 56u64) as u8,
    ]
}

/// The word whose little endian bytes are given.
pub open spec fn le_word(b: Seq<u8>) -> u64 {
    (b[0] as u64) | ((b[1] as u64) << 8u64) | ((b[2] as u64) << 16u64) | ((b[3] as u64) << 24u64)
        | ((b[4] as u64) << 32u64) | ((b[5] as u64) << 40u64) | ((b[6] as u64) << 48u64)
        | ((b[7] as u64) << 56u64)
}

/// Reading back the little endian bytes of a word gives the word.
pub proof fn lemma_le_word_bytes(v: u64)
    ensures
        le_word(le_bytes(v)) == v,
{
    let b = le_bytes(v);
    let (b0, b1, b2, b3, b4, b5, b6, b7) = (b[0], b[1], b[2], b[3], b[4], b[5], b[6], b[7]);
    assert(b0 == v as u8 && b1 == (v >> 8u64) as u8 && b2 == (v >> 16u64) as u8 && b3 == (v >> 24u64) as u8
        && b4 == (v >> 32u64) as u8 && b5 == (v >> 40u64) as u8 && b6 == (v >> 48u64) as u8
        && b7 == (v >> 56u64) as u8);
    assert((b0 as u64) | ((b1 as u64) << 8u64) | ((b2 as u64) << 16u64) | ((b3 as u64) << 24u64)
        | ((b4 as u64) << 32u64) | ((b5 as u64) << 40u64) | ((b6 as u64) << 48u64) | ((b7 as u64) << 56u64) == v)
        by (bit_vector)
        requires
            b0 == v as u8, b1 == (v >> 8u64) as u8, b2 == (v >> 16u64) as u8, b3 == (v >> 24u64) as u8,
            b4 == (v >> 32u64) as u8, b5 == (v >> 40u64) as u8, b6 == (v >> 48u64) as u8, b7 == (v >> 56u64) as u8;
}

/// Appends the little endian bytes of a word.
pub fn push_u64_le(out: &mut Vec<u8>, v: u64)
    ensures
        final(out)@ == old(out)@ + le_bytes(v),
{
    out.push(v as u8);
    out.push((v >> 8) as u8);
    out.push((v >> 16) as u8);
    out.push((v >> 24) as u8);
    out.push((v >> 32) as u8);
    out.push((v >> 40) as u8);
    out.push((v >> 48) as u8);
    out.push((v >> 56) as u8);
    assert(out@ =~= old(out)@ + le_bytes(v));
}

/// Appends a byte string.
pub fn push_bytes(out: &mut Vec<u8>, bytes: &[u8])
    ensures
        final(out)@ == old(out)@ + bytes@,
{
    let mut i: usize = 0;
    while i < bytes.len()
        invariant
            i <= bytes@.len(),
            out@ == old(out)@ + bytes@.take(i as int),
        decreases bytes.len() - i,
    {
        out.push(bytes[i]);
        i = i + 1;
        assert(out@ =~= old(out)@ + bytes@.take(i as int));
    }
    assert(bytes@.take(i as int) =~= bytes@);
}

/// Compares two digests byte by byte.
pub fn digest_eq(a: &Digest, b: &Digest) -> (r: bool)
    ensures
        r == (a@ == b@),
{
    let mut i: usize = 0;
    while i < 32
        invariant
            i <= 32,
            forall|j: int| 0 <= j < i ==> a@[j] == b@[j],
        decreases 32 - i,
    {
        if a[i] != b[i] {
            return false;
        }
        i = i + 1;
    }
    assert(a@ =~= b@);
    true
}

} // verus!

verus! {

/// Copies a slice into a fresh vector.
pub fn copy_slice<T: Copy>(s: &[T]) -> (r: Vec<T>)
    ensures
        r@ == s@,
{
    let mut r: Vec<T> = Vec::new();
    let mut i: usize = 0;
    while i < s.len()
        invariant
            i <= s@.len(),
            r@ == s@.take(i as int),
        decreases s.len() - i,
    {
        r.push(s[i]);
        i = i + 1;
        assert(r@ =~= s@.take(i as int));
    }
    assert(s@.take(i as int) =~= s@);
    r
}

/// The little endian bytes of a word: byte k is the word divided by 256 to
/// the k, modulo 256.
pub proof fn law_le_bytes(v: u64)
    ensures
        le_bytes(v).len() == 8,
        le_bytes(v)[0] as nat == v as nat % 256,
        le_bytes(v)[1] as nat == (v as nat / 0x100) % 256,
        le_bytes(v)[2] as nat == (v as nat / 0x1_0000) % 256,
        le_bytes(v)[3] as nat == (v as nat / 0x100_0000) % 256,
        le_bytes(v)[4] as nat == (v as nat / 0x1_0000_0000) % 256,
        le_bytes(v)[5] as nat == (v as nat / 0x100_0000_0000) % 256,
        le_bytes(v)[6] as nat == (v as nat / 0x1_0000_0000_0000) % 256,
        le_bytes(v)[7] as nat == (v as nat / 0x100_0000_0000_0000) % 256,
{
    assert(
        (v as u8) as u64 == v % 256
        && ((v >> 8u64) as u8) as u64 == (v / 0x100) % 256
        && ((v >> 16u64) as u8) as u64 == (v / 0x1_0000) % 256
        && ((v >> 24u64) as u8) as u64 == (v / 0x100_0000) % 256
        && ((v >> 32u64) as u8) as u64 == (v / 0x1_0000_0000) % 256
        && ((v >> 40u64) as u8) as u64 == (v / 0x100_0000_0000) % 256
        && ((v >> 48u64) as u8) as u64 == (v / 0x1_0000_0000_0000) % 256
        && ((v >> 56u64) as u8) as u64 == (v / 0x100_0000_0000_0000) % 256
    ) by (bit_vector);
}

} // verus!
