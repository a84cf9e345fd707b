//! The verification interface for the low degree backend.
use vstd::prelude::*;
use crate::field::TWO_ADICITY;
use crate::fri::{fri_accepted, fri_verifies, domain_state};
use crate::prover::{Proof, PublicInputs};
use crate::util::{is_pow2, log2, two_pow};

verus! {

/// The verifier checks a proof against the public inputs without the witness.
pub trait Verifier {
    /// Returns true when the proof is accepted for the given statement.
    fn verify(&self, public: &PublicInputs, proof: &Proof) -> (r: bool)
        requires
            public.params.log_domain_size <= TWO_ADICITY,
            two_pow(public.params.log_domain_size as nat) <= usize::MAX,
            is_pow2(public.params.blowup as nat) ==> log2(public.params.blowup as nat) <= public.params.log_domain_size,
        ensures
            r ==> public.params.valid() && fri_accepted(public.params, *proof);
}

/// The FRI backed low degree verifier.
pub struct LowDegreeVerifier;

impl Verifier for LowDegreeVerifier {
    /// Accepts exactly the proofs that verify under a transcript seeded with
    /// the empty context.
    fn verify(&self, public: &PublicInputs, proof: &Proof) -> (r: bool)
        ensures
            r == fri_verifies(public.params, *proof, domain_state(Seq::empty())),
    {
        crate::fri::verify(&public.params, proof)
    }
}

} // verus!
