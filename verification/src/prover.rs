//! The proving interface for the low degree backend.
use vstd::prelude::*;
use crate::field::Felt;
use crate::fri::{FriParams, FriProof, fri_shape, fri_honest, domain_state, layer_leaves, opened_at};
use crate::merkle::tree_root;
use crate::util::two_pow;

verus! {

/// The proof the low degree backend emits.
pub type Proof = FriProof<Felt>;

/// The statement a proof is made for.
pub struct PublicInputs {
    pub params: FriParams,
}

/// The evaluations the prover holds.
pub struct Witness {
    pub trace: Vec<Felt>,
}

/// A prover turns a witness into a proof for the public statement.
pub trait Prover {
    fn prove(&self, public: &PublicInputs, witness: &Witness) -> (proof: Proof)
        requires
            public.params.valid(),
            public.params.spec_rounds() >= 1,
            witness.trace@.len() == two_pow(public.params.log_domain_size as nat),
        ensures
            fri_shape(public.params, proof);
}

/// The FRI backed low degree prover.
pub struct LowDegreeProver;

impl Prover for LowDegreeProver {
    /// The proof is the honest one for the witness under a transcript seeded
    /// with the empty context: the first layer root commits the witness, and
    /// each query opens every round at its position reduced below that
    /// round's half length.
    fn prove(&self, public: &PublicInputs, witness: &Witness) -> (proof: Proof)
        ensures
            fri_honest(public.params, witness.trace@, domain_state(Seq::empty()), proof),
            proof.layer_roots@[0]@ == tree_root(layer_leaves(witness.trace@)),
            forall|q: int| 0 <= q < proof.queries@.len()
                ==> (#[trigger] proof.queries@[q]).position < two_pow((public.params.log_domain_size - 1) as nat),
            forall|q: int, r: int| 0 <= q < proof.queries@.len() && 0 <= r < public.params.spec_rounds()
                ==> #[trigger] opened_at(public.params, proof, q, r),
    {
        crate::fri::prove(witness.trace.as_slice(), &public.params)
    }
}

} // verus!
