//! The Fiat-Shamir transcript and the FRI low degree test.
use vstd::prelude::*;
use crate::crypto::{Digest, sha3_256, spec_sha3_256, le_bytes, push_u64_le, push_bytes, copy_slice};
use crate::field::{Felt, MODULUS, p, fadd, fsub, fmul, finv, fpow, root_of_unity, TWO_ADICITY};
use crate::field_ext::{Fp3, ext_add, ext_sub, ext_mul, ext_scale};
use crate::merkle::{MerkleProof, MerkleTree, spec_leaf, digests, tree_root, tree_path, fold_path};
use crate::util::{is_pow2, log2, two_pow, log2_exact, lemma_shift_is_pow};

verus! {

broadcast use Felt::lemma_val_injective, Felt::lemma_from_val, Fp3::lemma_val_injective, Fp3::lemma_from_limbs, Fp3::lemma_val_limbs;

/// The big endian value of a byte string.
pub open spec fn be_value(bytes: Seq<u8>) -> nat
    decreases bytes.len(),
{
    if bytes.len() == 0 {
        0
    } else {
        be_value(bytes.drop_last()) * 256 + bytes.last() as nat
    }
}

/// The transcript state after a squeeze under a domain byte, which is also the
/// squeezed digest.
pub open spec fn squeeze_state(state: Seq<u8>, domain: u8) -> Seq<u8> {
    spec_sha3_256(state + seq![domain])
}

/// A base field challenge drawn from a state: its value and the next state.
pub open spec fn felt_draw(state: Seq<u8>) -> (nat, Seq<u8>) {
    let out = squeeze_state(state, 1);
    (be_value(out.take(16)) % p(), out)
}

/// An index challenge below a bound drawn from a state: the index and the next state.
pub open spec fn index_draw(state: Seq<u8>, bound: nat) -> (nat, Seq<u8>) {
    let out = squeeze_state(state, 2);
    (be_value(out.take(8)) % bound, out)
}

/// The bytes of the protocol tag that seeds every domain separated transcript.
pub open spec fn protocol_tag_bytes() -> Seq<u8> {
    seq![0x51u8, 0x54, 0x56, 0x2d, 0x53, 0x54, 0x41, 0x52, 0x4b, 0x2f, 0x76, 0x32]
}

/// The protocol tag, the ASCII text QTV-STARK/v2.
pub fn protocol_tag() -> (r: Vec<u8>)
    ensures
        r@ == protocol_tag_bytes(),
{
    let r: Vec<u8> = vec![0x51u8, 0x54, 0x56, 0x2d, 0x53, 0x54, 0x41, 0x52, 0x4b, 0x2f, 0x76, 0x32];
    assert(r@ =~= protocol_tag_bytes());
    r
}

/// The state of a transcript seeded under a context.
pub open spec fn domain_state(context: Seq<u8>) -> Seq<u8> {
    let s0 = Seq::new(32, |i: int| 0u8);
    let s1 = spec_sha3_256(s0 + protocol_tag_bytes());
    let s2 = spec_sha3_256(s1 + le_bytes(context.len() as u64));
    spec_sha3_256(s2 + context)
}

/// The running hash that turns the prover's messages into verifier challenges.
pub struct Transcript {
    state: Digest,
}

impl View for Transcript {
    type V = Seq<u8>;

    closed spec fn view(&self) -> Seq<u8> {
        self.state@
    }
}

impl Transcript {
    /// A transcript over the all zero state.
    pub fn new() -> (t: Transcript)
        ensures
            t@ == Seq::new(32, |i: int| 0u8),
    {
        let t = Transcript { state: [0u8; 32] };
        assert(t@ =~= Seq::new(32, |i: int| 0u8));
        t
    }

    /// A transcript seeded with the protocol tag, the context length and the
    /// context, so proofs under different contexts draw different challenges.
    pub fn with_domain(context: &[u8]) -> (t: Transcript)
        ensures
            t@ == domain_state(context@),
    {
        let mut transcript = Transcript::new();
        let tag = protocol_tag();
        transcript.absorb(tag.as_slice());
        let mut len_bytes: Vec<u8> = Vec::new();
        push_u64_le(&mut len_bytes, context.len() as u64);
        assert(len_bytes@ =~= le_bytes(context@.len() as u64));
        transcript.absorb(len_bytes.as_slice());
        transcript.absorb(context);
        transcript
    }

    /// Folds bytes into the state: the new state hashes the old one with them.
    pub fn absorb(&mut self, bytes: &[u8])
        ensures
            final(self)@ == spec_sha3_256(old(self)@ + bytes@),
    {
        let mut preimage: Vec<u8> = Vec::new();
        push_bytes(&mut preimage, &self.state);
        push_bytes(&mut preimage, bytes);
        self.state = sha3_256(preimage.as_slice());
    }

    pub fn absorb_digest(&mut self, digest: &Digest)
        ensures
            final(self)@ == spec_sha3_256(old(self)@ + digest@),
    {
        self.absorb(digest);
    }

    pub fn absorb_felt(&mut self, value: Felt)
        ensures
            final(self)@ == spec_sha3_256(old(self)@ + le_bytes(value.val() as u64)),
    {
        let mut bytes: Vec<u8> = Vec::new();
        push_u64_le(&mut bytes, value.to_u64());
        assert(bytes@ =~= le_bytes(value.val() as u64));
        self.absorb(bytes.as_slice());
    }

    pub fn absorb_ext(&mut self, value: Fp3)
        ensures
            final(self)@ == spec_sha3_256(old(self)@ + ext_bytes(value)),
    {
        let limbs = value.to_u64s();
        let mut bytes: Vec<u8> = Vec::new();
        push_u64_le(&mut bytes, limbs[0]);
        push_u64_le(&mut bytes, limbs[1]);
        push_u64_le(&mut bytes, limbs[2]);
        assert(bytes@ =~= ext_bytes(value));
        self.absorb(bytes.as_slice());
    }

    fn squeeze(&mut self, domain: u8) -> (out: Digest)
        ensures
            out@ == squeeze_state(old(self)@, domain),
            final(self)@ == out@,
    {
        let mut preimage: Vec<u8> = Vec::new();
        push_bytes(&mut preimage, &self.state);
        preimage.push(domain);
        assert(preimage@ =~= old(self)@ + seq![domain]);
        let out = sha3_256(preimage.as_slice());
        self.state = out;
        out
    }

    /// Draws a base field challenge from the first sixteen squeezed bytes read
    /// big endian and reduced.
    pub fn challenge_felt(&mut self) -> (r: Felt)
        ensures
            (r.val(), final(self)@) == felt_draw(old(self)@),
    {
        let out = self.squeeze(1);
        let mut wide: u128 = 0;
        let mut i: usize = 0;
        while i < 16
            invariant
                i <= 16,
                out@.len() == 32,
                wide as nat == be_value(out@.take(i as int)),
                wide as nat <= be_max(i as nat),
            decreases 16 - i,
        {
            let b = out[i];
            proof {
                lemma_be_step(wide, b, i as nat);
                assert(out@.take(i + 1).drop_last() =~= out@.take(i as int));
            }
            wide = (wide << 8) | (b as u128);
            i = i + 1;
        }
        Felt::new((wide % (MODULUS as u128)) as u64)
    }

    /// Draws an extension challenge as three successive base field draws.
    pub fn challenge_ext(&mut self) -> (r: Fp3)
        ensures
            (r, final(self)@) == ext_draw(old(self)@),
    {
        let a0 = self.challenge_felt();
        let a1 = self.challenge_felt();
        let a2 = self.challenge_felt();
        let r = Fp3::new(a0, a1, a2);
        proof {
            let e = ext_draw(old(self)@).0;
            assert(a0.val() < p() && a1.val() < p() && a2.val() < p());
            Felt::lemma_from_val(a0.val());
            Felt::lemma_from_val(a1.val());
            Felt::lemma_from_val(a2.val());
            assert(a0 == Felt::from_val(a0.val()));
            assert(a1 == Felt::from_val(a1.val()));
            assert(a2 == Felt::from_val(a2.val()));
            assert(e.val() == r.val());
        }
        r
    }

    /// Draws an index below a bound from the first eight squeezed bytes read big
    /// endian.
    pub fn challenge_index(&mut self, bound: usize) -> (r: usize)
        requires
            bound > 0,
        ensures
            (r as nat, final(self)@) == index_draw(old(self)@, bound as nat),
    {
        let out = self.squeeze(2);
        let mut wide: u64 = 0;
        let mut i: usize = 0;
        while i < 8
            invariant
                i <= 8,
                out@.len() == 32,
                wide as nat == be_value(out@.take(i as int)),
                wide as nat <= be_max(i as nat),
            decreases 8 - i,
        {
            let b = out[i];
            proof {
                lemma_be_step64(wide, b, i as nat);
                assert(out@.take(i + 1).drop_last() =~= out@.take(i as int));
            }
            wide = (wide << 8) | (b as u64);
            i = i + 1;
        }
        (wide % bound as u64) as usize
    }
}

/// The largest value of a big endian string of the given length.
pub open spec fn be_max(len: nat) -> nat
    decreases len,
{
    if len == 0 { 0 } else { be_max((len - 1) as nat) * 256 + 255 }
}

proof fn lemma_be_max_bound(len: nat)
    ensures
        len <= 16 ==> be_max(len) < 0x1_0000_0000_0000_0000_0000_0000_0000_0000,
        len <= 15 ==> be_max(len) < 0x100_0000_0000_0000_0000_0000_0000_0000,
        len <= 8 ==> be_max(len) < 0x1_0000_0000_0000_0000,
        len <= 7 ==> be_max(len) < 0x100_0000_0000_0000,
{
    reveal_with_fuel(be_max, 17);
    if len <= 16 {
        assert(be_max(16) == 0xffff_ffff_ffff_ffff_ffff_ffff_ffff_ffff);
        assert(be_max(15) == 0xff_ffff_ffff_ffff_ffff_ffff_ffff_ffff);
        assert(be_max(8) == 0xffff_ffff_ffff_ffff);
        assert(be_max(7) == 0xff_ffff_ffff_ffff);
        lemma_be_max_monotone(len, 16);
        lemma_be_max_monotone(len, 15);
        lemma_be_max_monotone(len, 8);
        lemma_be_max_monotone(len, 7);
    }
}

proof fn lemma_be_max_monotone(a: nat, b: nat)
    ensures
        a <= b ==> be_max(a) <= be_max(b),
    decreases b,
{
    if a < b {
        lemma_be_max_monotone(a, (b - 1) as nat);
    }
}

proof fn lemma_be_step(wide: u128, b: u8, i: nat)
    requires
        i < 16,
        wide as nat <= be_max(i),
    ensures
        ((wide << 8) | (b as u128)) as nat == wide as nat * 256 + b as nat,
        wide as nat * 256 + b as nat <= be_max(i + 1),
{
    lemma_be_max_bound(i);
    assert(wide < 0x100_0000_0000_0000_0000_0000_0000_0000u128);
    assert(((wide << 8) | (b as u128)) == wide * 256 + b as u128) by (bit_vector)
        requires wide < 0x100_0000_0000_0000_0000_0000_0000_0000u128;
}

proof fn lemma_be_step64(wide: u64, b: u8, i: nat)
    requires
        i < 8,
        wide as nat <= be_max(i),
    ensures
        ((wide << 8) | (b as u64)) as nat == wide as nat * 256 + b as nat,
        wide as nat * 256 + b as nat <= be_max(i + 1),
{
    lemma_be_max_bound(i);
    assert(wide < 0x100_0000_0000_0000u64);
    assert(((wide << 8) | (b as u64)) == wide * 256 + b as u64) by (bit_vector)
        requires wide < 0x100_0000_0000_0000u64;
}

/// The bytes an extension element is absorbed as, its three limbs little endian.
pub open spec fn ext_bytes(value: Fp3) -> Seq<u8> {
    le_bytes(value.val().0 as u64) + le_bytes(value.val().1 as u64) + le_bytes(value.val().2 as u64)
}

/// An extension challenge drawn from a state: the element and the next state.
pub open spec fn ext_draw(state: Seq<u8>) -> (Fp3, Seq<u8>) {
    let (v0, s1) = felt_draw(state);
    let (v1, s2) = felt_draw(s1);
    let (v2, s3) = felt_draw(s2);
    (Fp3::from_limbs_spec(Felt::from_val(v0), Felt::from_val(v1), Felt::from_val(v2)), s3)
}

/// A field the FRI layers can live in. Folding, the codeword values and the
/// folding challenges are drawn from this field; the evaluation domain points
/// and query positions stay in the base field.
pub trait FriField: Sized + Copy {
    /// The number of base field limbs of an element.
    spec fn limb_count() -> nat;
    spec fn spec_zero() -> Self;
    spec fn spec_add(self, other: Self) -> Self;
    spec fn spec_sub(self, other: Self) -> Self;
    spec fn spec_mul(self, other: Self) -> Self;
    spec fn spec_scale(self, scalar: Felt) -> Self;
    spec fn spec_from_base(value: Felt) -> Self;
    /// The bytes the element is absorbed into a transcript as.
    spec fn spec_bytes(self) -> Seq<u8>;
    /// The leaf digest the element is committed under.
    spec fn spec_leaf_digest(self) -> Seq<u8>;
    /// The canonical limbs of the element.
    spec fn spec_limbs(self) -> Seq<u64>;
    /// A challenge drawn from a transcript state and the state after it.
    spec fn spec_draw(state: Seq<u8>) -> (Self, Seq<u8>);

    fn zero() -> (r: Self)
        ensures
            r == Self::spec_zero();
    fn add(self, other: Self) -> (r: Self)
        ensures
            r == self.spec_add(other);
    fn sub(self, other: Self) -> (r: Self)
        ensures
            r == self.spec_sub(other);
    fn mul(self, other: Self) -> (r: Self)
        ensures
            r == self.spec_mul(other);
    fn scale(self, scalar: Felt) -> (r: Self)
        ensures
            r == self.spec_scale(scalar);
    fn from_base(value: Felt) -> (r: Self)
        ensures
            r == Self::spec_from_base(value);
    fn equals(self, other: Self) -> (r: bool)
        ensures
            r == (self == other);
    fn sample(transcript: &mut Transcript) -> (r: Self)
        ensures
            (r, final(transcript)@) == Self::spec_draw(old(transcript)@);
    fn absorb(self, transcript: &mut Transcript)
        ensures
            final(transcript)@ == spec_sha3_256(old(transcript)@ + self.spec_bytes());
    fn hash_leaf(self) -> (d: Digest)
        ensures
            d@ == self.spec_leaf_digest();
    fn to_limbs(self) -> (r: Vec<u64>)
        ensures
            r@ == self.spec_limbs(),
            r@.len() == Self::limb_count();
    fn from_limbs(limbs: &[u64]) -> (r: Self)
        requires
            limbs@.len() >= Self::limb_count(),
        ensures
            limbs@.take(Self::limb_count() as int).map_values(|v: u64| (v as nat % p()) as u64) == r.spec_limbs();
}

impl FriField for Felt {
    open spec fn limb_count() -> nat { 1 }
    open spec fn spec_zero() -> Felt { Felt::from_val(0) }
    open spec fn spec_add(self, other: Felt) -> Felt { Felt::from_val(fadd(self.val(), other.val())) }
    open spec fn spec_sub(self, other: Felt) -> Felt { Felt::from_val(fsub(self.val(), other.val())) }
    open spec fn spec_mul(self, other: Felt) -> Felt { Felt::from_val(fmul(self.val(), other.val())) }
    open spec fn spec_scale(self, scalar: Felt) -> Felt { Felt::from_val(fmul(self.val(), scalar.val())) }
    open spec fn spec_from_base(value: Felt) -> Felt { value }
    open spec fn spec_bytes(self) -> Seq<u8> { le_bytes(self.val() as u64) }
    open spec fn spec_leaf_digest(self) -> Seq<u8> { spec_leaf(self) }
    open spec fn spec_limbs(self) -> Seq<u64> { seq![self.val() as u64] }
    open spec fn spec_draw(state: Seq<u8>) -> (Felt, Seq<u8>) {
        (Felt::from_val(felt_draw(state).0), felt_draw(state).1)
    }

    fn zero() -> (r: Felt) {
        proof { Felt::lemma_from_val(0); }
        Felt::zero()
    }
    fn add(self, other: Felt) -> (r: Felt) {
        let r = Felt::add(self, other);
        proof { Felt::lemma_from_val(r.val()); }
        r
    }
    fn sub(self, other: Felt) -> (r: Felt) {
        let r = Felt::sub(self, other);
        proof { Felt::lemma_from_val(r.val()); }
        r
    }
    fn mul(self, other: Felt) -> (r: Felt) {
        let r = Felt::mul(self, other);
        proof { Felt::lemma_from_val(r.val()); }
        r
    }
    fn scale(self, scalar: Felt) -> (r: Felt) {
        let r = Felt::mul(self, scalar);
        proof { Felt::lemma_from_val(r.val()); }
        r
    }
    fn from_base(value: Felt) -> (r: Felt) {
        value
    }
    fn equals(self, other: Felt) -> (r: bool) {
        self.to_u64() == other.to_u64()
    }
    fn sample(transcript: &mut Transcript) -> (r: Felt) {
        let r = transcript.challenge_felt();
        proof { Felt::lemma_from_val(r.val()); }
        r
    }
    fn absorb(self, transcript: &mut Transcript) {
        transcript.absorb_felt(self);
    }
    fn hash_leaf(self) -> (d: Digest) {
        crate::merkle::hash_leaf(self)
    }
    fn to_limbs(self) -> (r: Vec<u64>) {
        let mut r: Vec<u64> = Vec::new();
        r.push(self.to_u64());
        assert(r@ =~= seq![self.val() as u64]);
        r
    }
    fn from_limbs(limbs: &[u64]) -> (r: Felt) {
        let r = Felt::new(limbs[0]);
        assert(limbs@.take(1).map_values(|v: u64| (v as nat % p()) as u64) =~= seq![r.val() as u64]);
        r
    }
}

impl FriField for Fp3 {
    open spec fn limb_count() -> nat { 3 }
    open spec fn spec_zero() -> Fp3 { Fp3::from_limbs_spec(Felt::from_val(0), Felt::from_val(0), Felt::from_val(0)) }
    open spec fn spec_add(self, other: Fp3) -> Fp3 { ext_from(ext_add(self.val(), other.val())) }
    open spec fn spec_sub(self, other: Fp3) -> Fp3 { ext_from(ext_sub(self.val(), other.val())) }
    open spec fn spec_mul(self, other: Fp3) -> Fp3 { ext_from(ext_mul(self.val(), other.val())) }
    open spec fn spec_scale(self, scalar: Felt) -> Fp3 { ext_from(ext_scale(self.val(), scalar.val())) }
    open spec fn spec_from_base(value: Felt) -> Fp3 { Fp3::from_limbs_spec(value, Felt::from_val(0), Felt::from_val(0)) }
    open spec fn spec_bytes(self) -> Seq<u8> { ext_bytes(self) }
    open spec fn spec_leaf_digest(self) -> Seq<u8> { spec_sha3_256(seq![crate::merkle::LEAF_DOMAIN] + ext_bytes(self)) }
    open spec fn spec_limbs(self) -> Seq<u64> { seq![self.val().0 as u64, self.val().1 as u64, self.val().2 as u64] }
    open spec fn spec_draw(state: Seq<u8>) -> (Fp3, Seq<u8>) { ext_draw(state) }

    fn zero() -> (r: Fp3) {
        let r = Fp3::zero();
        proof { Felt::lemma_from_val(0); assert(r.val() == Self::spec_zero().val()); }
        r
    }
    fn add(self, other: Fp3) -> (r: Fp3) {
        let r = Fp3::add(self, other);
        proof { lemma_ext_from(r); }
        r
    }
    fn sub(self, other: Fp3) -> (r: Fp3) {
        let r = Fp3::sub(self, other);
        proof { lemma_ext_from(r); }
        r
    }
    fn mul(self, other: Fp3) -> (r: Fp3) {
        let r = Fp3::mul(self, other);
        proof { lemma_ext_from(r); }
        r
    }
    fn scale(self, scalar: Felt) -> (r: Fp3) {
        let r = Fp3::scale(self, scalar);
        proof { lemma_ext_from(r); }
        r
    }
    fn from_base(value: Felt) -> (r: Fp3) {
        let r = Fp3::from_base(value);
        proof { Felt::lemma_from_val(0); assert(r.val() == Self::spec_from_base(value).val()); }
        r
    }
    fn equals(self, other: Fp3) -> (r: bool) {
        let a = self.to_u64s();
        let b = other.to_u64s();
        let r = a[0] == b[0] && a[1] == b[1] && a[2] == b[2];
        proof {
            if r {
                assert(self.val() == other.val());
            }
        }
        r
    }
    fn sample(transcript: &mut Transcript) -> (r: Fp3) {
        transcript.challenge_ext()
    }
    fn absorb(self, transcript: &mut Transcript) {
        transcript.absorb_ext(self);
    }
    fn hash_leaf(self) -> (d: Digest) {
        let limbs = self.to_u64s();
        let mut preimage: Vec<u8> = Vec::new();
        preimage.push(crate::merkle::LEAF_DOMAIN);
        push_u64_le(&mut preimage, limbs[0]);
        push_u64_le(&mut preimage, limbs[1]);
        push_u64_le(&mut preimage, limbs[2]);
        assert(preimage@ =~= seq![crate::merkle::LEAF_DOMAIN] + ext_bytes(self));
        sha3_256(preimage.as_slice())
    }
    fn to_limbs(self) -> (r: Vec<u64>) {
        let a = self.to_u64s();
        let mut r: Vec<u64> = Vec::new();
        r.push(a[0]);
        r.push(a[1]);
        r.push(a[2]);
        assert(r@ =~= self.spec_limbs());
        r
    }
    fn from_limbs(limbs: &[u64]) -> (r: Fp3) {
        let r = Fp3::from_u64s([limbs[0], limbs[1], limbs[2]]);
        assert(limbs@.take(3).map_values(|v: u64| (v as nat % p()) as u64) =~= r.spec_limbs());
        r
    }
}

/// The extension element with the given canonical coefficient values.
pub open spec fn ext_from(v: (nat, nat, nat)) -> Fp3 {
    Fp3::from_limbs_spec(Felt::from_val(v.0), Felt::from_val(v.1), Felt::from_val(v.2))
}

proof fn lemma_ext_from(r: Fp3)
    requires
        r.val().0 < p(),
        r.val().1 < p(),
        r.val().2 < p(),
    ensures
        r == ext_from(r.val()),
{
    Felt::lemma_from_val(r.val().0);
    Felt::lemma_from_val(r.val().1);
    Felt::lemma_from_val(r.val().2);
    assert(ext_from(r.val()).val() == r.val());
}

/// The schedule of a FRI run: the log of the domain size, the number of query
/// openings and the blow up, the ratio of the domain to the degree bound.
#[derive(Clone, Debug)]
pub struct FriParams {
    pub log_domain_size: u32,
    pub num_queries: usize,
    pub blowup: usize,
}

impl FriParams {
    /// The parameters describe a domain that fits a word and a power of two
    /// blow up no larger than the domain.
    pub open spec fn valid(&self) -> bool {
        &&& self.log_domain_size <= TWO_ADICITY
        &&& two_pow(self.log_domain_size as nat) <= usize::MAX
        &&& is_pow2(self.blowup as nat)
        &&& log2(self.blowup as nat) <= self.log_domain_size
    }

    /// The number of folds, the log of the domain less the log of the blow up.
    pub open spec fn spec_rounds(&self) -> nat {
        (self.log_domain_size - log2(self.blowup as nat)) as nat
    }

    pub fn domain_size(&self) -> (r: usize)
        requires
            two_pow(self.log_domain_size as nat) <= usize::MAX,
            self.log_domain_size < 64,
        ensures
            r == two_pow(self.log_domain_size as nat),
    {
        proof {
            lemma_shift_is_pow(self.log_domain_size as usize);
        }
        1usize << (self.log_domain_size as usize)
    }

    pub fn rounds(&self) -> (r: usize)
        requires
            self.valid(),
        ensures
            r == self.spec_rounds(),
    {
        let lb = log2_exact(self.blowup);
        (self.log_domain_size - lb) as usize
    }

    pub fn degree_bound(&self) -> (r: usize)
        requires
            self.valid(),
        ensures
            r == two_pow(self.log_domain_size as nat) / (self.blowup as nat),
    {
        self.domain_size() / self.blowup
    }
}

/// One fold of a pair of codeword values: the even and odd parts recombined
/// under the challenge, at the point whose inverse is given.
pub open spec fn spec_fold<F: FriField>(low: F, high: F, challenge: F, x_inv: Felt) -> F {
    low.spec_add(high).spec_add(challenge.spec_mul(low.spec_sub(high)).spec_scale(x_inv)).spec_scale(
        Felt::from_val(finv(2)),
    )
}

/// Folds a pair of evaluations at opposite points into one.
pub fn fold_pair<F: FriField>(low: F, high: F, challenge: F, x_inv: Felt) -> (r: F)
    ensures
        r == spec_fold(low, high, challenge, x_inv),
{
    let inv_two = Felt::new(2).inv();
    proof {
        vstd::arithmetic::div_mod::lemma_small_mod(2, p());
        crate::field::lemma_fpow_bound(2, (p() - 2) as nat);
        Felt::lemma_from_val(inv_two.val());
    }
    let sum = low.add(high);
    let diff = low.sub(high);
    sum.add(challenge.mul(diff).scale(x_inv)).scale(inv_two)
}

/// The layer that one fold of a codeword produces.
pub open spec fn spec_fold_layer<F: FriField>(evaluations: Seq<F>, challenge: F, generator_inv: Felt) -> Seq<F> {
    let half = evaluations.len() / 2;
    Seq::new(half, |i: int| spec_fold(evaluations[i], evaluations[i + half], challenge,
        Felt::from_val(fpow(generator_inv.val(), i as nat))))
}

/// Folds a whole codeword once, halving its length.
pub fn fold_layer<F: FriField>(evaluations: &[F], challenge: F, generator_inv: Felt) -> (folded: Vec<F>)
    ensures
        folded@ == spec_fold_layer(evaluations@, challenge, generator_inv),
{
    let half = evaluations.len() / 2;
    let mut folded: Vec<F> = Vec::new();
    let mut x_inv = Felt::one();
    let mut i: usize = 0;
    proof {
        vstd::arithmetic::div_mod::lemma_small_mod(1, p());
    }
    while i < half
        invariant
            half == evaluations@.len() / 2,
            i <= half,
            folded@.len() == i,
            x_inv.val() == fpow(generator_inv.val(), i as nat),
            forall|k: int| 0 <= k < i ==> #[trigger] folded@[k] == spec_fold_layer(evaluations@, challenge, generator_inv)[k],
        decreases half - i,
    {
        let low = evaluations[i];
        let high = evaluations[i + half];
        proof {
            crate::field::lemma_fpow_bound(generator_inv.val() % p(), i as nat);
            crate::field::lemma_fpow_mod(generator_inv.val(), i as nat);
            vstd::arithmetic::div_mod::lemma_mod_bound(fpow(generator_inv.val(), i as nat) as int, p() as int);
            Felt::lemma_from_val(x_inv.val());
        }
        folded.push(fold_pair(low, high, challenge, x_inv));
        x_inv = x_inv.mul(generator_inv);
        proof {
            crate::field::lemma_fmul_comm(fpow(generator_inv.val(), i as nat), generator_inv.val());
        }
        i = i + 1;
    }
    assert(folded@ =~= spec_fold_layer(evaluations@, challenge, generator_inv));
    folded
}

/// The openings of one FRI layer at one query: the value, its paired value and
/// their authentication paths.
pub struct QueryLayer<F: FriField> {
    pub eval: F,
    pub sibling: F,
    pub eval_path: MerkleProof,
    pub sibling_path: MerkleProof,
}

/// The openings that back one query, one per folding round.
pub struct QueryProof<F: FriField> {
    pub position: usize,
    pub layers: Vec<QueryLayer<F>>,
}

/// A low degree proof: the layer commitments, the final layer and the queries.
pub struct FriProof<F: FriField> {
    pub layer_roots: Vec<Digest>,
    pub final_layer: Vec<F>,
    pub queries: Vec<QueryProof<F>>,
}

/// The leaf digests of a layer.
pub open spec fn layer_leaves<F: FriField>(values: Seq<F>) -> Seq<Seq<u8>> {
    values.map_values(|v: F| v.spec_leaf_digest())
}

/// Commits one layer of codeword values.
fn commit_layer<F: FriField>(values: &Vec<F>) -> (tree: MerkleTree)
    ensures
        tree.wf(),
        tree.leaves() == layer_leaves(values@),
{
    let mut leaves: Vec<Digest> = Vec::new();
    let mut i: usize = 0;
    while i < values.len()
        invariant
            i <= values@.len(),
            leaves@.len() == i,
            forall|k: int| 0 <= k < i ==> #[trigger] leaves@[k]@ == values@[k].spec_leaf_digest(),
        decreases values.len() - i,
    {
        leaves.push(values[i].hash_leaf());
        i = i + 1;
    }
    assert(digests(leaves@) =~= layer_leaves(values@));
    MerkleTree::commit(leaves.as_slice())
}

/// A proof has the scheduled shape: a root per round, a final layer of the
/// blow up's length, and per query an opening per round.
pub open spec fn fri_shape<F: FriField>(params: FriParams, proof: FriProof<F>) -> bool {
    &&& proof.layer_roots@.len() == params.spec_rounds()
    &&& proof.final_layer@.len() == params.blowup
    &&& proof.queries@.len() == params.num_queries
    &&& forall|q: int| 0 <= q < proof.queries@.len() ==> #[trigger] proof.queries@[q].layers@.len() == params.spec_rounds()
}

/// Proves that the evaluations are close to a low degree polynomial, under a
/// transcript seeded with the empty context.
pub fn prove<F: FriField>(evaluations: &[F], params: &FriParams) -> (proof: FriProof<F>)
    requires
        params.valid(),
        params.spec_rounds() >= 1,
        evaluations@.len() == two_pow(params.log_domain_size as nat),
    ensures
        fri_shape(*params, proof),
        fri_honest(*params, evaluations@, domain_state(Seq::empty()), proof),
        proof.layer_roots@[0]@ == tree_root(layer_leaves(evaluations@)),
        forall|q: int| 0 <= q < proof.queries@.len()
            ==> (#[trigger] proof.queries@[q]).position < two_pow((params.log_domain_size - 1) as nat),
        forall|q: int, r: int| 0 <= q < proof.queries@.len() && 0 <= r < params.spec_rounds()
            ==> #[trigger] opened_at(*params, proof, q, r),
{
    let mut transcript = Transcript::with_domain(&[]);
    proof {
        assert(transcript@ == domain_state(Seq::<u8>::empty()));
    }
    prove_with_domain(evaluations, params, &mut transcript)
}

/// The openings of a query in a round sit at the query position reduced below
/// the round's half length, and at that index plus the half length.
pub open spec fn opened_at<F: FriField>(params: FriParams, proof: FriProof<F>, q: int, r: int) -> bool {
    query_opened_at(params, proof.queries@[q], r)
}

/// The openings of one query in a round sit at the query position reduced
/// below the round's half length, and at that index plus the half length.
pub open spec fn query_opened_at<F: FriField>(params: FriParams, query: QueryProof<F>, r: int) -> bool {
    let half = two_pow((params.log_domain_size - 1 - r) as nat);
    let index = (query.position as nat) % half;
    &&& query.layers@[r].eval_path.leaf_index == index
    &&& query.layers@[r].sibling_path.leaf_index == index + half
}

/// Proves that the evaluations are close to a low degree polynomial, drawing
/// every challenge from the given transcript. The first layer root commits to
/// the evaluations.
#[verifier::spinoff_prover]
#[verifier::rlimit(40)]
pub fn prove_with_domain<F: FriField>(
    evaluations: &[F],
    params: &FriParams,
    transcript: &mut Transcript,
) -> (proof: FriProof<F>)
    requires
        params.valid(),
        params.spec_rounds() >= 1,
        evaluations@.len() == two_pow(params.log_domain_size as nat),
    ensures
        fri_shape(*params, proof),
        fri_honest(*params, evaluations@, old(transcript)@, proof),
        proof.layer_roots@[0]@ == tree_root(layer_leaves(evaluations@)),
        forall|q: int| 0 <= q < proof.queries@.len()
            ==> (#[trigger] proof.queries@[q]).position < two_pow((params.log_domain_size - 1) as nat),
        forall|q: int, r: int| 0 <= q < proof.queries@.len() && 0 <= r < params.spec_rounds()
            ==> #[trigger] opened_at(*params, proof, q, r),
{
    let ghost start = transcript@;
    let ghost e = evaluations@;
    let ghost g0 = domain_generator_inv(params.log_domain_size);
    let n = params.domain_size();
    let rounds = params.rounds();
    proof {
        crate::util::lemma_pow2_log2(params.blowup as nat);
        crate::util::lemma_two_pow_is_pow2(params.log_domain_size as nat);
    }
    let mut layers: Vec<Vec<F>> = Vec::new();
    layers.push(copy_slice(evaluations));
    let mut trees: Vec<MerkleTree> = Vec::new();
    let mut layer_roots: Vec<Digest> = Vec::new();

    let first_tree = commit_layer(&layers[0]);
    let first_root = first_tree.root();
    transcript.absorb_digest(&first_root);
    layer_roots.push(first_root);
    trees.push(first_tree);
    let ghost s0 = transcript@;

    let mut generator_inv = root_of_unity(params.log_domain_size).inv();
    let mut final_layer: Vec<F> = Vec::new();
    let ghost mut cs: Seq<F> = Seq::empty();
    proof {
        crate::field::lemma_fpow_bound(fpow(crate::field::GENERATOR as nat, (((MODULUS - 1) as u64) >> params.log_domain_size) as nat) % p(), (p() - 2) as nat);
        assert(g0 < p()) by {
            let x = fpow(crate::field::GENERATOR as nat, (((MODULUS - 1) as u64) >> params.log_domain_size) as nat);
            assert(finv(x) == fpow(x, (p() - 2) as nat));
            if (p() - 2) as nat > 0 {
                assert(fpow(x, (p() - 2) as nat) == fmul(x, fpow(x, (p() - 3) as nat)));
            }
        }
        assert(honest_layers(e, cs, g0, 0) == e);
    }

    let mut round: usize = 0;
    while round < rounds
        invariant
            rounds == params.spec_rounds(),
            rounds >= 1,
            params.valid(),
            n == two_pow(params.log_domain_size as nat),
            e == evaluations@,
            e.len() == n,
            g0 == domain_generator_inv(params.log_domain_size),
            g0 < p(),
            round <= rounds,
            layers@.len() == if round < rounds { round + 1 } else { rounds as int },
            trees@.len() == layers@.len(),
            layer_roots@.len() == layers@.len(),
            layer_roots@[0]@ == tree_root(layer_leaves(evaluations@)),
            layers@[0]@ == evaluations@,
            forall|k: int| 0 <= k < layers@.len() ==> (#[trigger] trees@[k]).wf()
                && trees@[k].leaves() == layer_leaves(layers@[k]@)
                && layers@[k]@.len() == two_pow((params.log_domain_size - k) as nat),
            forall|k: int| 0 <= k < layers@.len() ==> (#[trigger] layers@[k])@ == honest_layers(e, cs, g0, k as nat),
            forall|k: int| 0 <= k < layers@.len() ==> (#[trigger] layer_roots@[k])@ == tree_root(layer_leaves(layers@[k]@)),
            round < rounds ==> generator_inv.val() == round_generator_inv(g0, round as nat),
            round == rounds ==> final_layer@.len() == params.blowup,
            round == rounds ==> final_layer@ == honest_layers(e, cs, g0, rounds as nat),
            params.blowup as nat == two_pow(log2(params.blowup as nat)),
            s0 == spec_sha3_256(start + layer_roots@[0]@),
            cs == round_draws(layer_roots@, final_layer@, rounds as nat, s0, round as nat).0,
            transcript@ == round_draws(layer_roots@, final_layer@, rounds as nat, s0, round as nat).1,
            cs.len() == round,
        decreases rounds - round,
    {
        let ghost before_state = transcript@;
        let ghost old_roots = layer_roots@;
        let ghost old_final = final_layer@;
        let ghost old_cs = cs;
        let challenge = F::sample(transcript);
        let ghost drawn = transcript@;
        proof {
            cs = cs.push(challenge);
            assert(trees@[round as int].wf());
            lemma_round_generator_bound(g0, round as nat);
            Felt::lemma_from_val(round_generator_inv(g0, round as nat));
            Felt::lemma_val_injective(generator_inv, Felt::from_val(round_generator_inv(g0, round as nat)));
            lemma_honest_prefix(e, old_cs, cs, g0, round as nat);
            assert(cs[round as int] == challenge);
        }
        let folded = fold_layer(layers[round].as_slice(), challenge, generator_inv);
        proof {
            let e2 = (params.log_domain_size - round) as nat;
            assert(e2 >= 1);
            assert(two_pow(e2) / 2 == two_pow((e2 - 1) as nat));
            assert((params.log_domain_size - (round + 1)) as nat == (e2 - 1) as nat);
            assert(round + 1 == rounds ==> (e2 - 1) as nat == log2(params.blowup as nat));
            assert(folded@ == honest_layers(e, cs, g0, (round + 1) as nat));
            assert forall|k: int| 0 <= k < layers@.len() implies (#[trigger] layers@[k])@ == honest_layers(e, cs, g0, k as nat) by {
                lemma_honest_prefix(e, old_cs, cs, g0, k as nat);
            }
        }
        if round < rounds - 1 {
            let tree = commit_layer(&folded);
            let root = tree.root();
            transcript.absorb_digest(&root);
            layer_roots.push(root);
            trees.push(tree);
            let ghost old_layers = layers@;
            let ghost old_trees = trees@;
            layers.push(folded);
            generator_inv = generator_inv.mul(generator_inv);
            proof {
                assert forall|k: int| 0 <= k < layers@.len() implies (#[trigger] trees@[k]).wf()
                    && trees@[k].leaves() == layer_leaves(layers@[k]@)
                    && layers@[k]@.len() == two_pow((params.log_domain_size - k) as nat) by {
                    if k < old_layers.len() {
                        assert(old_trees[k].wf());
                        assert(trees@[k] == old_trees[k]);
                        assert(layers@[k] == old_layers[k]);
                    }
                }
                assert forall|k: int| 0 <= k < layers@.len() implies (#[trigger] layers@[k])@ == honest_layers(e, cs, g0, k as nat) by {
                    if k < old_layers.len() {
                        assert(layers@[k] == old_layers[k]);
                    }
                }
                assert forall|k: int| 0 <= k < layers@.len() implies (#[trigger] layer_roots@[k])@ == tree_root(layer_leaves(layers@[k]@)) by {
                    if k < old_layers.len() {
                        assert(layers@[k] == old_layers[k]);
                        assert(layer_roots@[k] == old_roots[k]);
                    }
                }
                lemma_round_draws_prefix(old_roots, old_final, layer_roots@, final_layer@, rounds as nat, s0, round as nat);
                assert(layer_roots@[round + 1] == root);
            }
        } else {
            let mut k: usize = 0;
            while k < folded.len()
                invariant
                    k <= folded@.len(),
                    transcript@ == absorb_values(drawn, folded@, k as nat),
                decreases folded.len() - k,
            {
                folded[k].absorb(transcript);
                k = k + 1;
            }
            final_layer = folded;
            proof {
                lemma_round_draws_prefix(old_roots, old_final, layer_roots@, final_layer@, rounds as nat, s0, round as nat);
                assert forall|k: int| 0 <= k < layers@.len() implies (#[trigger] trees@[k]).wf()
                    && trees@[k].leaves() == layer_leaves(layers@[k]@)
                    && layers@[k]@.len() == two_pow((params.log_domain_size - k) as nat) by {
                    assert(trees@[k].wf());
                }
            }
        }
        round = round + 1;
    }

    let ghost s1 = transcript@;
    let half_domain = n / 2;
    proof {
        assert(two_pow(params.log_domain_size as nat) / 2 == two_pow((params.log_domain_size - 1) as nat));
    }
    let mut queries: Vec<QueryProof<F>> = Vec::new();
    let mut q: usize = 0;
    while q < params.num_queries
        invariant
            rounds == params.spec_rounds(),
            rounds >= 1,
            params.valid(),
            n == two_pow(params.log_domain_size as nat),
            half_domain == n / 2,
            half_domain == two_pow((params.log_domain_size - 1) as nat),
            layers@.len() == rounds,
            trees@.len() == rounds,
            forall|k: int| 0 <= k < layers@.len() ==> (#[trigger] trees@[k]).wf()
                && trees@[k].leaves() == layer_leaves(layers@[k]@)
                && layers@[k]@.len() == two_pow((params.log_domain_size - k) as nat),
            forall|k: int| 0 <= k < layers@.len() ==> (#[trigger] layers@[k])@ == honest_layers(e, cs, g0, k as nat),
            g0 == domain_generator_inv(params.log_domain_size),
            queries@.len() == q,
            q <= params.num_queries,
            forall|j: int| 0 <= j < q ==> #[trigger] queries@[j].layers@.len() == rounds,
            forall|j: int| 0 <= j < q ==> #[trigger] queries@[j].position < half_domain,
            forall|j: int, r: int| 0 <= j < q && 0 <= r < rounds ==> #[trigger] query_opened_at(*params, queries@[j], r),
            forall|j: int, r: int| 0 <= j < q && 0 <= r < rounds ==> #[trigger] honest_layer_opening(*params, e, cs,
                queries@[j].position as nat, r, queries@[j].layers@[r]),
            position_draws(s1, half_domain as nat, q as nat).0.len() == q,
            forall|j: int| 0 <= j < q ==> #[trigger] queries@[j].position as nat == position_draws(s1, half_domain as nat, q as nat).0[j],
            transcript@ == position_draws(s1, half_domain as nat, q as nat).1,
            final_layer@.len() == params.blowup,
            layer_roots@.len() == rounds,
            layer_roots@[0]@ == tree_root(layer_leaves(evaluations@)),
        decreases params.num_queries - q,
    {
        proof {
            assert(params.log_domain_size >= 1);
            assert(two_pow(params.log_domain_size as nat) / 2 == two_pow((params.log_domain_size - 1) as nat));
            crate::util::lemma_two_pow_is_pow2((params.log_domain_size - 1) as nat);
        }
        let ghost prev_draws = position_draws(s1, half_domain as nat, q as nat);
        let position = transcript.challenge_index(half_domain);
        let mut half = half_domain;
        let mut opened: Vec<QueryLayer<F>> = Vec::new();
        let mut round: usize = 0;
        while round < rounds
            invariant
                rounds == params.spec_rounds(),
                params.valid(),
                n == two_pow(params.log_domain_size as nat),
                half_domain == n / 2,
                layers@.len() == rounds,
                trees@.len() == rounds,
                forall|k: int| 0 <= k < layers@.len() ==> (#[trigger] trees@[k]).wf()
                    && trees@[k].leaves() == layer_leaves(layers@[k]@)
                    && layers@[k]@.len() == two_pow((params.log_domain_size - k) as nat),
                forall|k: int| 0 <= k < layers@.len() ==> (#[trigger] layers@[k])@ == honest_layers(e, cs, g0, k as nat),
                g0 == domain_generator_inv(params.log_domain_size),
                opened@.len() == round,
                round <= rounds,
                round < rounds ==> half == two_pow((params.log_domain_size - round - 1) as nat),
                forall|r: int| 0 <= r < round ==> {
                    let h = two_pow((params.log_domain_size - 1 - r) as nat);
                    &&& (#[trigger] opened@[r]).eval_path.leaf_index == (position as nat) % h
                    &&& opened@[r].sibling_path.leaf_index == (position as nat) % h + h
                },
                forall|r: int| 0 <= r < round ==> #[trigger] honest_layer_opening(*params, e, cs, position as nat, r, opened@[r]),
            decreases rounds - round,
        {
            proof {
                let e2 = (params.log_domain_size - round) as nat;
                assert(two_pow(e2) == 2 * two_pow((e2 - 1) as nat));
                crate::util::lemma_two_pow_is_pow2((e2 - 1) as nat);
            }
            let index = position % half;
            proof {
                assert(trees@[round as int].wf());
            }
            let layer = &layers[round];
            let layer_len = layer.len();
            proof {
                let e2 = (params.log_domain_size - round) as nat;
                assert(layer@.len() == two_pow(e2));
                assert(index + half < layer@.len());
            }
            let ghost before_opened = opened@;
            let ql = QueryLayer {
                eval: layer[index],
                sibling: layer[index + half],
                eval_path: trees[round].open(index),
                sibling_path: trees[round].open(index + half),
            };
            proof {
                assert(honest_layer_opening(*params, e, cs, position as nat, round as int, ql));
            }
            opened.push(ql);
            proof {
                assert forall|r: int| 0 <= r < round + 1 implies #[trigger] honest_layer_opening(*params, e, cs, position as nat, r, opened@[r]) by {
                    if r < round {
                        assert(opened@[r] == before_opened[r]);
                    }
                }
                let e2 = (params.log_domain_size - round - 1) as nat;
                if round + 1 < rounds {
                    assert(two_pow(e2) / 2 == two_pow((e2 - 1) as nat));
                }
            }
            half = half / 2;
            round = round + 1;
        }
        let ghost before = queries@;
        queries.push(QueryProof { position, layers: opened });
        proof {
            let next = position_draws(s1, half_domain as nat, (q + 1) as nat);
            assert(next.0 == prev_draws.0.push(position as nat));
            assert forall|j: int, r: int| 0 <= j < q + 1 && 0 <= r < rounds
                implies #[trigger] query_opened_at(*params, queries@[j], r) by {
                if j < q {
                    assert(queries@[j] == before[j]);
                } else {
                    assert(opened@[r].eval_path.leaf_index == (position as nat) % two_pow((params.log_domain_size - 1 - r) as nat));
                }
            }
            assert forall|j: int, r: int| 0 <= j < q + 1 && 0 <= r < rounds
                implies #[trigger] honest_layer_opening(*params, e, cs, queries@[j].position as nat, r, queries@[j].layers@[r]) by {
                if j < q {
                    assert(queries@[j] == before[j]);
                } else {
                    assert(honest_layer_opening(*params, e, cs, position as nat, r, opened@[r]));
                }
            }
            assert forall|j: int| 0 <= j < q + 1 implies #[trigger] queries@[j].position as nat == next.0[j] by {
                if j < q {
                    assert(queries@[j] == before[j]);
                }
            }
        }
        q = q + 1;
    }

    let out = FriProof { layer_roots, final_layer, queries };
    assert(forall|j: int| 0 <= j < out.queries@.len() ==> #[trigger] out.queries@[j].layers@.len() == params.spec_rounds());
    assert(forall|j: int| 0 <= j < out.queries@.len() ==> #[trigger] out.queries@[j].position < half_domain);
    assert(out.queries@.len() == params.num_queries);
    proof {
        lemma_round_draws_len(layer_roots@, final_layer@, rounds as nat, s0, rounds as nat);
        assert(fri_challenges(*params, out, start).0 == cs);
        assert(fri_challenges(*params, out, start).1 == s1);
        assert forall|j: int, r: int| 0 <= j < out.queries@.len() && 0 <= r < params.spec_rounds()
            implies #[trigger] opened_at(*params, out, j, r) by {
            assert(out.queries@[j] == queries@[j]);
            assert(query_opened_at(*params, queries@[j], r));
        }
        assert forall|k: int| 0 <= k < rounds implies #[trigger] out.layer_roots@[k]@
            == tree_root(layer_leaves(honest_layers(e, cs, g0, k as nat))) by {
            assert(layers@[k]@ == honest_layers(e, cs, g0, k as nat));
        }
        assert forall|j: int| 0 <= j < params.num_queries implies #[trigger] out.queries@[j].position
            == fri_positions(*params, out, start)[j] by {
            assert(out.queries@[j] == queries@[j]);
        }
        assert forall|j: int, r: int| 0 <= j < params.num_queries && 0 <= r < rounds implies #[trigger] honest_layer_opening(*params, e,
            fri_challenges(*params, out, start).0, out.queries@[j].position as nat, r, out.queries@[j].layers@[r]) by {
            assert(out.queries@[j] == queries@[j]);
        }
    }
    out
}

/// The openings of one layer of one query authenticate against the layer root
/// at the positions the query fixes.
pub open spec fn layer_opens<F: FriField>(params: FriParams, proof: FriProof<F>, q: int, round: int) -> bool {
    let half = two_pow((params.log_domain_size - 1 - round) as nat);
    let query = proof.queries@[q];
    let index = (query.position as nat) % half;
    let layer = query.layers@[round];
    &&& layer.eval_path.leaf_index == index
    &&& layer.sibling_path.leaf_index == index + half
    &&& layer.eval_path.siblings@.len() <= crate::merkle::MAX_MERKLE_DEPTH
    &&& layer.sibling_path.siblings@.len() <= crate::merkle::MAX_MERKLE_DEPTH
    &&& fold_path(layer.eval.spec_leaf_digest(), index, layer.eval_path.path()) == proof.layer_roots@[round]@
    &&& fold_path(layer.sibling.spec_leaf_digest(), index + half, layer.sibling_path.path()) == proof.layer_roots@[round]@
}

/// What an accepted proof is known to satisfy: the scheduled shape, a constant
/// final layer and authenticated openings in every layer of every query.
pub open spec fn fri_accepted<F: FriField>(params: FriParams, proof: FriProof<F>) -> bool {
    &&& fri_shape(params, proof)
    &&& params.spec_rounds() >= 1
    &&& forall|i: int| 0 <= i < proof.final_layer@.len() ==> #[trigger] proof.final_layer@[i] == proof.final_layer@[0]
    &&& forall|q: int, round: int| 0 <= q < params.num_queries && 0 <= round < params.spec_rounds()
        ==> #[trigger] layer_opens(params, proof, q, round)
}

/// The transcript state after absorbing the first k values in turn.
pub open spec fn absorb_values<F: FriField>(state: Seq<u8>, values: Seq<F>, k: nat) -> Seq<u8>
    decreases k,
{
    if k == 0 {
        state
    } else {
        spec_sha3_256(absorb_values(state, values, (k - 1) as nat) + values[k - 1].spec_bytes())
    }
}

/// The folding challenges of the first k rounds, drawn from a state that has
/// absorbed the first layer root, and the state after them: each round draws
/// its challenge, then absorbs the next layer root, or after the last round
/// every value of the final layer.
pub open spec fn round_draws<F: FriField>(
    roots: Seq<Digest>,
    final_layer: Seq<F>,
    rounds: nat,
    state: Seq<u8>,
    k: nat,
) -> (Seq<F>, Seq<u8>)
    decreases k,
{
    if k == 0 {
        (Seq::empty(), state)
    } else {
        let prev = round_draws(roots, final_layer, rounds, state, (k - 1) as nat);
        let drawn = F::spec_draw(prev.1);
        let after = if k < rounds {
            spec_sha3_256(drawn.1 + roots[k as int]@)
        } else {
            absorb_values(drawn.1, final_layer, final_layer.len())
        };
        (prev.0.push(drawn.0), after)
    }
}

/// The first k query positions drawn below a bound, and the state after them.
pub open spec fn position_draws(state: Seq<u8>, bound: nat, k: nat) -> (Seq<nat>, Seq<u8>)
    decreases k,
{
    if k == 0 {
        (Seq::empty(), state)
    } else {
        let prev = position_draws(state, bound, (k - 1) as nat);
        let drawn = index_draw(prev.1, bound);
        (prev.0.push(drawn.0), drawn.1)
    }
}

/// The inverse of the root of unity that generates a domain of the given log
/// size.
pub open spec fn domain_generator_inv(log: u32) -> nat {
    finv(fpow(crate::field::GENERATOR as nat, (((MODULUS - 1) as u64) >> log) as nat))
}

/// The inverse generator of the layer folded in a round: the domain's, squared
/// once per round before it.
pub open spec fn round_generator_inv(g: nat, round: nat) -> nat
    decreases round,
{
    if round == 0 {
        g
    } else {
        let h = round_generator_inv(g, (round - 1) as nat);
        fmul(h, h)
    }
}

/// The fold of a query's opening in a round, under that round's challenge at
/// the opened point, matches the next layer's opening at the folded position,
/// or after the last round the final layer.
pub open spec fn fold_consistent<F: FriField>(
    params: FriParams,
    proof: FriProof<F>,
    challenges: Seq<F>,
    q: int,
    round: int,
) -> bool {
    let rounds = params.spec_rounds() as int;
    let half = two_pow((params.log_domain_size - 1 - round) as nat);
    let query = proof.queries@[q];
    let index = (query.position as nat) % half;
    let layer = query.layers@[round];
    let g = round_generator_inv(domain_generator_inv(params.log_domain_size), round as nat);
    let folded = spec_fold(layer.eval, layer.sibling, challenges[round], Felt::from_val(fpow(g, index)));
    if round < rounds - 1 {
        let next = query.layers@[round + 1];
        folded == (if index < half / 2 { next.eval } else { next.sibling })
    } else {
        index < proof.final_layer@.len() && folded == proof.final_layer@[index as int]
    }
}

/// The challenges a proof's rounds draw from a transcript state.
pub open spec fn fri_challenges<F: FriField>(params: FriParams, proof: FriProof<F>, state: Seq<u8>) -> (Seq<F>, Seq<u8>) {
    round_draws(proof.layer_roots@, proof.final_layer@, params.spec_rounds(),
        spec_sha3_256(state + proof.layer_roots@[0]@), params.spec_rounds())
}

/// The query positions a proof draws from a transcript state, after its
/// challenges.
pub open spec fn fri_positions<F: FriField>(params: FriParams, proof: FriProof<F>, state: Seq<u8>) -> Seq<nat> {
    position_draws(fri_challenges(params, proof, state).1, two_pow((params.log_domain_size - 1) as nat),
        params.num_queries as nat).0
}

/// What verification under a transcript state decides: valid parameters with
/// at least one round, the scheduled shape, a constant final layer, the query
/// positions replayed from the transcript, and in every layer of every query
/// authenticated openings whose fold matches the next layer.
pub open spec fn fri_verifies<F: FriField>(params: FriParams, proof: FriProof<F>, state: Seq<u8>) -> bool {
    let challenges = fri_challenges(params, proof, state).0;
    let positions = fri_positions(params, proof, state);
    &&& params.valid()
    &&& params.spec_rounds() >= 1
    &&& fri_shape(params, proof)
    &&& forall|i: int| 0 <= i < proof.final_layer@.len() ==> #[trigger] proof.final_layer@[i] == proof.final_layer@[0]
    &&& forall|q: int| 0 <= q < params.num_queries ==> #[trigger] proof.queries@[q].position == positions[q]
    &&& forall|q: int, round: int| 0 <= q < params.num_queries && 0 <= round < params.spec_rounds()
        ==> #[trigger] layer_opens(params, proof, q, round)
    &&& forall|q: int, round: int| 0 <= q < params.num_queries && 0 <= round < params.spec_rounds()
        ==> #[trigger] fold_consistent(params, proof, challenges, q, round)
}

/// The layers an honest prover folds: the evaluations, then each layer folded
/// under its round's challenge with that round's inverse generator.
pub open spec fn honest_layers<F: FriField>(evals: Seq<F>, challenges: Seq<F>, g0: nat, k: nat) -> Seq<F>
    decreases k,
{
    if k == 0 {
        evals
    } else {
        spec_fold_layer(honest_layers(evals, challenges, g0, (k - 1) as nat), challenges[k - 1],
            Felt::from_val(round_generator_inv(g0, (k - 1) as nat)))
    }
}

/// A query layer opened honestly in a round at a position: the layer's values
/// at the reduced position and its pair, with their authentication paths.
pub open spec fn honest_layer_opening<F: FriField>(
    params: FriParams,
    evals: Seq<F>,
    challenges: Seq<F>,
    position: nat,
    r: int,
    opened: QueryLayer<F>,
) -> bool {
    let layer = honest_layers(evals, challenges, domain_generator_inv(params.log_domain_size), r as nat);
    let half = two_pow((params.log_domain_size - 1 - r) as nat);
    let index = position % half;
    &&& opened.eval == layer[index as int]
    &&& opened.sibling == layer[(index + half) as int]
    &&& opened.eval_path.leaf_index == index
    &&& opened.sibling_path.leaf_index == index + half
    &&& opened.eval_path.path() == tree_path(layer_leaves(layer), index)
    &&& opened.sibling_path.path() == tree_path(layer_leaves(layer), index + half)
}

/// The proof an honest prover sends for evaluations from a transcript state:
/// the scheduled shape, each round's root committing the folded layer, the
/// final layer the last fold, the query positions replayed from the
/// transcript and every query layer opened honestly.
pub open spec fn fri_honest<F: FriField>(params: FriParams, evals: Seq<F>, state: Seq<u8>, proof: FriProof<F>) -> bool {
    let rounds = params.spec_rounds();
    let challenges = fri_challenges(params, proof, state).0;
    let g0 = domain_generator_inv(params.log_domain_size);
    &&& fri_shape(params, proof)
    &&& forall|k: int| 0 <= k < rounds
        ==> #[trigger] proof.layer_roots@[k]@ == tree_root(layer_leaves(honest_layers(evals, challenges, g0, k as nat)))
    &&& proof.final_layer@ == honest_layers(evals, challenges, g0, rounds)
    &&& forall|q: int| 0 <= q < params.num_queries
        ==> #[trigger] proof.queries@[q].position == fri_positions(params, proof, state)[q]
    &&& forall|q: int, r: int| 0 <= q < params.num_queries && 0 <= r < rounds
        ==> #[trigger] honest_layer_opening(params, evals, challenges, proof.queries@[q].position as nat, r,
            proof.queries@[q].layers@[r])
}

/// Round draws depend on the roots only up to the round and on the final
/// layer only after the last round.
proof fn lemma_round_draws_prefix<F: FriField>(
    r1: Seq<Digest>,
    f1: Seq<F>,
    r2: Seq<Digest>,
    f2: Seq<F>,
    rounds: nat,
    state: Seq<u8>,
    k: nat,
)
    requires
        k <= rounds,
        forall|j: int| 0 < j <= k && j < rounds ==> r1[j] == r2[j],
        k == rounds ==> f1 == f2,
    ensures
        round_draws(r1, f1, rounds, state, k) == round_draws(r2, f2, rounds, state, k),
    decreases k,
{
    if k > 0 {
        lemma_round_draws_prefix(r1, f1, r2, f2, rounds, state, (k - 1) as nat);
    }
}

/// Round draws produce one challenge per round.
proof fn lemma_round_draws_len<F: FriField>(roots: Seq<Digest>, f: Seq<F>, rounds: nat, state: Seq<u8>, k: nat)
    ensures
        round_draws(roots, f, rounds, state, k).0.len() == k,
    decreases k,
{
    if k > 0 {
        lemma_round_draws_len(roots, f, rounds, state, (k - 1) as nat);
    }
}

/// Honest layers depend on the challenges only before the round.
proof fn lemma_honest_prefix<F: FriField>(evals: Seq<F>, c1: Seq<F>, c2: Seq<F>, g0: nat, k: nat)
    requires
        forall|j: int| 0 <= j < k ==> c1[j] == c2[j],
    ensures
        honest_layers(evals, c1, g0, k) == honest_layers(evals, c2, g0, k),
    decreases k,
{
    if k > 0 {
        lemma_honest_prefix(evals, c1, c2, g0, (k - 1) as nat);
    }
}

/// Each fold halves an honest layer.
/// The honest layer after k folds of a layer of two to the l has two to the
/// l less k values.
pub proof fn lemma_honest_len<F: FriField>(evals: Seq<F>, cs: Seq<F>, g0: nat, l: nat, k: nat)
    requires
        evals.len() == two_pow(l),
        k <= l,
    ensures
        honest_layers(evals, cs, g0, k).len() == two_pow((l - k) as nat),
    decreases k,
{
    if k > 0 {
        lemma_honest_len(evals, cs, g0, l, (k - 1) as nat);
        let e = (l - (k - 1)) as nat;
        assert(two_pow(e) == 2 * two_pow((e - 1) as nat));
    }
}

/// The inverse generator of every round is a canonical field value.
proof fn lemma_round_generator_bound(g: nat, round: nat)
    requires
        g < p(),
    ensures
        round_generator_inv(g, round) < p(),
    decreases round,
{
    if round > 0 {
        lemma_round_generator_bound(g, (round - 1) as nat);
    }
}

/// An honest proof whose final layer came out constant, as it does for
/// evaluations of low degree, verifies under the transcript state it was made
/// from.
pub proof fn law_honest_proof_verifies<F: FriField>(params: FriParams, evals: Seq<F>, state: Seq<u8>, proof: FriProof<F>)
    requires
        params.valid(),
        params.spec_rounds() >= 1,
        evals.len() == two_pow(params.log_domain_size as nat),
        fri_honest(params, evals, state, proof),
        forall|i: int| 0 <= i < proof.final_layer@.len() ==> #[trigger] proof.final_layer@[i] == proof.final_layer@[0],
    ensures
        fri_verifies(params, proof, state),
{
    let rounds = params.spec_rounds();
    let challenges = fri_challenges(params, proof, state).0;
    let g0 = domain_generator_inv(params.log_domain_size);
    let l = params.log_domain_size as nat;
    let x = fpow(crate::field::GENERATOR as nat, (((MODULUS - 1) as u64) >> params.log_domain_size) as nat);
    assert(g0 < p()) by {
        assert(fpow(x, (p() - 2) as nat) == fmul(x, fpow(x, (p() - 3) as nat)));
    }
    crate::util::lemma_pow2_log2(params.blowup as nat);
    assert forall|q: int, r: int| 0 <= q < params.num_queries && 0 <= r < rounds
        implies #[trigger] layer_opens(params, proof, q, r) && fold_consistent(params, proof, challenges, q, r) by {
        let layer = honest_layers(evals, challenges, g0, r as nat);
        let next = honest_layers(evals, challenges, g0, (r + 1) as nat);
        let half = two_pow((l - 1 - r) as nat);
        let query = proof.queries@[q];
        let index = (query.position as nat) % half;
        let opened = query.layers@[r];
        assert(honest_layer_opening(params, evals, challenges, query.position as nat, r, opened));
        lemma_honest_len(evals, challenges, g0, l, r as nat);
        lemma_honest_len(evals, challenges, g0, l, (r + 1) as nat);
        assert(two_pow((l - r) as nat) == 2 * two_pow((l - r - 1) as nat));
        crate::util::lemma_two_pow_monotone((l - r) as nat, l);
        crate::util::lemma_two_pow_is_pow2((l - r - 1) as nat);
        let leaves = layer_leaves(layer);
        assert(index < half);
        crate::merkle::law_inclusion_complete(leaves, index);
        crate::merkle::law_inclusion_complete(leaves, index + half);
        assert(opened.eval_path.siblings@.len() == opened.eval_path.path().len());
        assert(opened.sibling_path.siblings@.len() == opened.sibling_path.path().len());
        assert(leaves[index as int] == opened.eval.spec_leaf_digest());
        assert(leaves[(index + half) as int] == opened.sibling.spec_leaf_digest());
        assert(proof.layer_roots@[r]@ == tree_root(leaves));
        assert(layer_opens(params, proof, q, r));
        let gr = round_generator_inv(g0, r as nat);
        lemma_round_generator_bound(g0, r as nat);
        Felt::lemma_from_val(gr);
        assert(next[index as int] == spec_fold(layer[index as int], layer[(index + half) as int], challenges[r],
            Felt::from_val(fpow(gr, index))));
        if r < rounds - 1 {
            let h2 = two_pow((l - 1 - (r + 1)) as nat);
            assert(half == 2 * h2);
            let q_next = query.layers@[r + 1];
            assert(honest_layer_opening(params, evals, challenges, query.position as nat, r + 1, q_next));
            let index2 = (query.position as nat) % h2;
            vstd::arithmetic::div_mod::lemma_mod_mod(query.position as int, h2 as int, 2);
            assert(index % h2 == index2);
            if index < h2 {
                vstd::arithmetic::div_mod::lemma_small_mod(index, h2);
            } else {
                vstd::arithmetic::div_mod::lemma_fundamental_div_mod(index as int, h2 as int);
                assert(index / h2 == 1) by (nonlinear_arith)
                    requires h2 <= index < 2 * h2, h2 > 0;
            }
        } else {
            assert(r == rounds - 1);
            assert(proof.final_layer@ == next);
        }
    }
    assert forall|q: int, r: int| 0 <= q < params.num_queries && 0 <= r < rounds
        implies #[trigger] fold_consistent(params, proof, challenges, q, r) by {
        assert(layer_opens(params, proof, q, r));
    }
}

/// An honest proof over the evaluations, on a coset of the domain, of a
/// polynomial with at most two to the round count coefficients verifies under
/// the transcript state it was made from: every fold halves the coefficient
/// count, so the final layer comes out constant.
pub proof fn law_low_degree_proof_verifies(
    params: FriParams,
    evals: Seq<Felt>,
    state: Seq<u8>,
    proof: FriProof<Felt>,
    coeffs: Seq<Felt>,
    shift: nat,
)
    requires
        params.valid(),
        params.spec_rounds() >= 1,
        evals.len() == two_pow(params.log_domain_size as nat),
        fri_honest(params, evals, state, proof),
        shift < p(),
        coeffs.len() <= two_pow(params.spec_rounds()),
        forall|i: int| 0 <= i < evals.len() ==> #[trigger] evals[i].val() == crate::poly::poly_eval(
            coeffs, fmul(shift, fpow(crate::poly::subgroup_root(params.log_domain_size), i as nat))),
    ensures
        fri_verifies(params, proof, state),
{
    let l = params.log_domain_size as nat;
    let rounds = params.spec_rounds();
    let chs = fri_challenges(params, proof, state).0;
    assert(l as u32 == params.log_domain_size);
    crate::folding::lemma_low_degree_folds_to_constant(evals, chs, coeffs, shift, l, rounds);
    lemma_honest_len(evals, chs, domain_generator_inv(params.log_domain_size), l, rounds);
    assert(proof.final_layer@ == honest_layers(evals, chs, domain_generator_inv(params.log_domain_size), rounds));
    law_honest_proof_verifies(params, evals, state, proof);
}

/// Folding the evaluations of a polynomial over the subgroup of order two to
/// k, under the inverse root, gives the evaluations over the subgroup of
/// half that order of the polynomial whose coefficients are each even
/// coefficient plus the challenge times the odd one after it.
pub proof fn law_fold_matches_coefficient_fold(evals: Seq<Felt>, coeffs: Seq<Felt>, k: u32, challenge: Felt)
    requires
        1 <= k <= TWO_ADICITY,
        evals.len() == two_pow(k as nat),
        forall|i: int| 0 <= i < evals.len() ==> #[trigger] evals[i].val()
            == crate::poly::poly_eval(coeffs, fpow(crate::poly::subgroup_root(k), i as nat)),
    ensures
        spec_fold_layer(evals, challenge, Felt::from_val(domain_generator_inv(k))).len() == two_pow((k - 1) as nat),
        forall|i: int| 0 <= i < two_pow((k - 1) as nat) ==> #[trigger] spec_fold_layer(evals, challenge,
            Felt::from_val(domain_generator_inv(k)))[i].val() == crate::folding::ieval(
                crate::folding::fold_coeffs(crate::folding::vals(coeffs), challenge.val() as int),
                fpow(crate::poly::subgroup_root((k - 1) as u32), i as nat) as int,
            ) % (p() as int),
{
    let w = crate::poly::subgroup_root(k);
    let h = domain_generator_inv(k);
    let n = two_pow(k as nat);
    let m = two_pow((k - 1) as nat);
    assert(n == 2 * m);
    crate::util::lemma_two_pow_is_pow2((k - 1) as nat);
    crate::field::law_root_of_unity_order(k);
    crate::field::law_root_of_unity_squares(k);
    crate::poly::lemma_root_inverse_power(k);
    crate::field::lemma_fpow_bound(7, (((MODULUS - 1) as u64) >> k) as nat);
    crate::field::lemma_fpow_bound(w, (n - 1) as nat);
    assert(fpow(w, n) == fmul(w, fpow(w, (n - 1) as nat)));
    crate::field::lemma_fmul_comm(w, h);
    vstd::arithmetic::div_mod::lemma_small_mod(1, p());
    let c = crate::folding::vals(coeffs);
    assert forall|i: int| 0 <= i < evals.len()
        implies #[trigger] evals[i].val() == crate::folding::ieval(c, fmul(1, fpow(w, i as nat)) as int) % (p() as int) by {
        crate::field::lemma_fpow_bound(w, i as nat);
        vstd::arithmetic::div_mod::lemma_small_mod(fpow(w, i as nat), p());
        assert(fmul(1, fpow(w, i as nat)) == fpow(w, i as nat));
        crate::folding::lemma_poly_eval_ieval(coeffs, fpow(w, i as nat));
    }
    crate::folding::lemma_fold_layer_holds(evals, c, 1, w, h, challenge, m);
    let next = spec_fold_layer(evals, challenge, Felt::from_val(h));
    assert(fmul(1, 1) == 1);
    assert(challenge.val() * 1 == challenge.val());
    assert forall|i: int| 0 <= i < m implies #[trigger] next[i].val() == crate::folding::ieval(
        crate::folding::fold_coeffs(c, challenge.val() as int),
        fpow(crate::poly::subgroup_root((k - 1) as u32), i as nat) as int) % (p() as int) by {
        let wk = crate::poly::subgroup_root((k - 1) as u32);
        crate::field::lemma_fpow_bound(wk, i as nat);
        crate::field::lemma_fpow_bound(7, (((MODULUS - 1) as u64) >> ((k - 1) as u32)) as nat);
        vstd::arithmetic::div_mod::lemma_small_mod(fpow(wk, i as nat), p());
        assert(fmul(1, fpow(wk, i as nat)) == fpow(wk, i as nat));
    }
}

/// A failed fold check at one query and round refutes verification.
proof fn lemma_fold_refutes<F: FriField>(params: FriParams, proof: FriProof<F>, state: Seq<u8>, q: int, round: int)
    requires
        0 <= q < params.num_queries,
        0 <= round < params.spec_rounds(),
        !fold_consistent(params, proof, fri_challenges(params, proof, state).0, q, round),
    ensures
        !fri_verifies(params, proof, state),
{
}

/// A query whose position differs from the replayed one, or whose openings
/// miss a round, refutes verification.
proof fn lemma_query_refutes<F: FriField>(params: FriParams, proof: FriProof<F>, state: Seq<u8>, q: int)
    requires
        0 <= q < params.num_queries,
        proof.queries@[q].position != fri_positions(params, proof, state)[q]
            || proof.queries@[q].layers@.len() != params.spec_rounds(),
    ensures
        !fri_verifies(params, proof, state),
{
    if fri_verifies(params, proof, state) {
        assert(proof.queries@[q].position == fri_positions(params, proof, state)[q]);
        assert(proof.queries@[q].layers@.len() == params.spec_rounds());
    }
}

/// Checks a low degree proof under a transcript seeded with the empty context.
pub fn verify<F: FriField>(params: &FriParams, proof: &FriProof<F>) -> (r: bool)
    requires
        params.log_domain_size <= TWO_ADICITY,
        two_pow(params.log_domain_size as nat) <= usize::MAX,
        is_pow2(params.blowup as nat) ==> log2(params.blowup as nat) <= params.log_domain_size,
    ensures
        r == fri_verifies(*params, *proof, domain_state(Seq::empty())),
        r ==> fri_accepted(*params, *proof),
{
    let mut transcript = Transcript::with_domain(&[]);
    proof {
        assert(transcript@ == domain_state(Seq::<u8>::empty()));
    }
    verify_with_domain(params, proof, &mut transcript)
}

/// Checks a low degree proof, replaying every challenge from the transcript:
/// the shape, the constant final layer, the query positions, the layer
/// openings and the consistency of each fold with the next layer.
#[verifier::rlimit(60)]
pub fn verify_with_domain<F: FriField>(
    params: &FriParams,
    proof: &FriProof<F>,
    transcript: &mut Transcript,
) -> (r: bool)
    requires
        params.log_domain_size <= TWO_ADICITY,
        two_pow(params.log_domain_size as nat) <= usize::MAX,
        is_pow2(params.blowup as nat) ==> log2(params.blowup as nat) <= params.log_domain_size,
    ensures
        r == fri_verifies(*params, *proof, old(transcript)@),
        r ==> fri_accepted(*params, *proof),
{
    let ghost start = transcript@;
    if !crate::util::is_power_of_two(params.blowup) {
        return false;
    }
    let n = params.domain_size();
    let rounds = params.rounds();
    if rounds == 0 || proof.layer_roots.len() != rounds || proof.final_layer.len() != params.blowup
        || proof.queries.len() != params.num_queries
    {
        return false;
    }

    let constant = proof.final_layer[0];
    let mut i: usize = 0;
    while i < proof.final_layer.len()
        invariant
            i <= proof.final_layer@.len(),
            proof.final_layer@.len() >= 1,
            constant == proof.final_layer@[0],
            forall|k: int| 0 <= k < i ==> #[trigger] proof.final_layer@[k] == constant,
        decreases proof.final_layer.len() - i,
    {
        if !proof.final_layer[i].equals(constant) {
            return false;
        }
        i = i + 1;
    }

    transcript.absorb_digest(&proof.layer_roots[0]);
    let ghost s0 = transcript@;
    assert(s0 == spec_sha3_256(start + proof.layer_roots@[0]@));
    let mut challenges: Vec<F> = Vec::new();
    let mut round: usize = 0;
    while round < rounds
        invariant
            rounds == proof.layer_roots@.len(),
            rounds == params.spec_rounds(),
            round <= rounds,
            challenges@ == round_draws(proof.layer_roots@, proof.final_layer@, rounds as nat, s0, round as nat).0,
            transcript@ == round_draws(proof.layer_roots@, proof.final_layer@, rounds as nat, s0, round as nat).1,
            challenges@.len() == round,
        decreases rounds - round,
    {
        let ghost before = transcript@;
        challenges.push(F::sample(transcript));
        let ghost drawn = transcript@;
        if round < rounds - 1 {
            transcript.absorb_digest(&proof.layer_roots[round + 1]);
        } else {
            let mut k: usize = 0;
            while k < proof.final_layer.len()
                invariant
                    k <= proof.final_layer@.len(),
                    transcript@ == absorb_values(drawn, proof.final_layer@, k as nat),
                decreases proof.final_layer.len() - k,
            {
                proof.final_layer[k].absorb(transcript);
                k = k + 1;
            }
        }
        round = round + 1;
    }
    let ghost s1 = transcript@;
    assert(challenges@ == fri_challenges(*params, *proof, start).0);
    assert(s1 == fri_challenges(*params, *proof, start).1);

    proof {
        crate::util::lemma_pow2_log2(params.blowup as nat);
        assert(params.log_domain_size >= 1);
        assert(two_pow(params.log_domain_size as nat) / 2 == two_pow((params.log_domain_size - 1) as nat));
        crate::util::lemma_two_pow_is_pow2((params.log_domain_size - 1) as nat);
    }
    let half_domain = n / 2;
    let mut positions: Vec<usize> = Vec::new();
    let mut q: usize = 0;
    while q < params.num_queries
        invariant
            q <= params.num_queries,
            half_domain > 0,
            positions@.len() == q,
            position_draws(s1, half_domain as nat, q as nat).0.len() == q,
            forall|j: int| 0 <= j < q ==> #[trigger] positions@[j] as nat == position_draws(s1, half_domain as nat, q as nat).0[j],
            transcript@ == position_draws(s1, half_domain as nat, q as nat).1,
        decreases params.num_queries - q,
    {
        let ghost prev = position_draws(s1, half_domain as nat, q as nat);
        let ghost before = positions@;
        positions.push(transcript.challenge_index(half_domain));
        proof {
            let next = position_draws(s1, half_domain as nat, (q + 1) as nat);
            assert(next.0 == prev.0.push(next.0[q as int]));
            assert forall|j: int| 0 <= j < q + 1 implies #[trigger] positions@[j] as nat == next.0[j] by {
                if j < q {
                    assert(positions@[j] == before[j]);
                }
            }
        }
        q = q + 1;
    }
    let ghost spos = fri_positions(*params, *proof, start);
    assert(forall|j: int| 0 <= j < params.num_queries ==> #[trigger] positions@[j] as nat == spos[j]);

    let ghost g0 = domain_generator_inv(params.log_domain_size);
    let mut generator_inv: Vec<Felt> = Vec::new();
    let mut current = root_of_unity(params.log_domain_size).inv();
    let mut round: usize = 0;
    while round < rounds
        invariant
            generator_inv@.len() == round,
            round <= rounds,
            current.val() == round_generator_inv(g0, round as nat),
            forall|k: int| 0 <= k < round ==> #[trigger] generator_inv@[k].val() == round_generator_inv(g0, k as nat),
        decreases rounds - round,
    {
        generator_inv.push(current);
        current = current.mul(current);
        round = round + 1;
    }

    let mut q: usize = 0;
    while q < params.num_queries
        invariant
            params.valid(),
            rounds == params.spec_rounds(),
            rounds >= 1,
            rounds == proof.layer_roots@.len(),
            proof.queries@.len() == params.num_queries,
            positions@.len() == params.num_queries,
            forall|j: int| 0 <= j < params.num_queries ==> #[trigger] positions@[j] as nat == spos[j],
            spos == fri_positions(*params, *proof, start),
            start == old(transcript)@,
            challenges@ == fri_challenges(*params, *proof, start).0,
            challenges@.len() == rounds,
            generator_inv@.len() == rounds,
            forall|k: int| 0 <= k < rounds ==> #[trigger] generator_inv@[k].val() == round_generator_inv(g0, k as nat),
            g0 == domain_generator_inv(params.log_domain_size),
            proof.final_layer@.len() == params.blowup,
            params.blowup as nat == two_pow(log2(params.blowup as nat)),
            half_domain == two_pow((params.log_domain_size - 1) as nat),
            q <= params.num_queries,
            half_domain <= n / 2,
            n <= usize::MAX,
            forall|j: int, rr: int| 0 <= j < q && 0 <= rr < rounds ==> #[trigger] layer_opens(*params, *proof, j, rr),
            forall|j: int, rr: int| 0 <= j < q && 0 <= rr < rounds ==> #[trigger] fold_consistent(*params, *proof, challenges@, j, rr),
            forall|j: int| 0 <= j < q ==> #[trigger] proof.queries@[j].layers@.len() == rounds,
            forall|j: int| 0 <= j < q ==> #[trigger] proof.queries@[j].position == spos[j],
            forall|k: int| 0 <= k < proof.final_layer@.len() ==> #[trigger] proof.final_layer@[k] == proof.final_layer@[0],
        decreases params.num_queries - q,
    {
        let query = &proof.queries[q];
        if query.position != positions[q] || query.layers.len() != rounds {
            proof {
                assert(positions@[q as int] as nat == spos[q as int]);
                lemma_query_refutes(*params, *proof, start, q as int);
            }
            return false;
        }
        let mut half = half_domain;
        let mut round: usize = 0;
        while round < rounds
            invariant
                params.valid(),
                rounds == params.spec_rounds(),
                rounds == proof.layer_roots@.len(),
                proof.queries@.len() == params.num_queries,
                q < params.num_queries,
                *query == proof.queries@[q as int],
                query.layers@.len() == rounds,
                challenges@ == fri_challenges(*params, *proof, start).0,
                start == old(transcript)@,
                challenges@.len() == rounds,
                generator_inv@.len() == rounds,
                forall|k: int| 0 <= k < rounds ==> #[trigger] generator_inv@[k].val() == round_generator_inv(g0, k as nat),
                g0 == domain_generator_inv(params.log_domain_size),
                proof.final_layer@.len() == params.blowup,
                params.blowup as nat == two_pow(log2(params.blowup as nat)),
                round <= rounds,
                round < rounds ==> half == two_pow((params.log_domain_size - 1 - round) as nat),
                half <= half_domain,
                half_domain <= n / 2,
                n <= usize::MAX,
                forall|rr: int| 0 <= rr < round ==> #[trigger] layer_opens(*params, *proof, q as int, rr),
                forall|rr: int| 0 <= rr < round ==> #[trigger] fold_consistent(*params, *proof, challenges@, q as int, rr),
            decreases rounds - round,
        {
            proof {
                crate::util::lemma_two_pow_is_pow2((params.log_domain_size - 1 - round) as nat);
            }
            let index = query.position % half;
            let layer = &query.layers[round];
            if layer.eval_path.leaf_index != index || layer.sibling_path.leaf_index != index + half {
                assert(!layer_opens(*params, *proof, q as int, round as int));
                return false;
            }
            let eval_leaf = layer.eval.hash_leaf();
            if !crate::merkle::verify(&proof.layer_roots[round], &eval_leaf, &layer.eval_path) {
                assert(!layer_opens(*params, *proof, q as int, round as int));
                return false;
            }
            let sibling_leaf = layer.sibling.hash_leaf();
            if !crate::merkle::verify(&proof.layer_roots[round], &sibling_leaf, &layer.sibling_path) {
                assert(!layer_opens(*params, *proof, q as int, round as int));
                return false;
            }
            let x_inv = generator_inv[round].pow(index as u64);
            proof {
                let gv = generator_inv@[round as int].val();
                crate::field::lemma_fpow_bound(gv, index as nat);
                Felt::lemma_from_val(x_inv.val());
                Felt::lemma_val_injective(x_inv, Felt::from_val(fpow(round_generator_inv(g0, round as nat), index as nat)));
            }
            let folded = fold_pair(layer.eval, layer.sibling, challenges[round], x_inv);
            if round < rounds - 1 {
                let next = &query.layers[round + 1];
                let half_next = half / 2;
                let expected = if index < half_next { next.eval } else { next.sibling };
                if !folded.equals(expected) {
                    proof {
                        lemma_fold_refutes(*params, *proof, start, q as int, round as int);
                    }
                    return false;
                }
            } else {
                if index >= proof.final_layer.len() {
                    proof {
                        lemma_fold_refutes(*params, *proof, start, q as int, round as int);
                    }
                    return false;
                }
                if !folded.equals(proof.final_layer[index]) {
                    proof {
                        lemma_fold_refutes(*params, *proof, start, q as int, round as int);
                    }
                    return false;
                }
            }
            proof {
                let e = (params.log_domain_size - 1 - round) as nat;
                if round + 1 < rounds {
                    assert(two_pow(e) / 2 == two_pow((e - 1) as nat));
                }
                assert(layer_opens(*params, *proof, q as int, round as int));
                assert(fold_consistent(*params, *proof, challenges@, q as int, round as int));
            }
            half = half / 2;
            round = round + 1;
        }
        q = q + 1;
    }
    true
}

} // verus!
