//! A hash based STARK proving system over the Goldilocks field, with the
//! arithmetization of the module lattice signature verify relation.
pub mod air;
pub mod batch;
pub mod certificate;
pub mod challenge_ball;
pub mod codec;
pub mod crypto;
pub mod decompose;
pub mod encode;
pub mod entry;
pub mod examples;
pub mod field;
pub mod field_ext;
pub mod fri;
pub mod folding;
pub mod hashing;
pub mod hint;
pub mod keccak;
pub mod lattice;
pub mod merkle;
pub mod norm;
pub mod ntt;
pub mod poly;
pub mod prover;
pub mod qudros;
pub mod rescue;
pub mod sample;
pub mod signing;
pub mod sponge;
pub mod stark;
pub mod transform;
pub mod util;
pub mod zkvrf;
pub mod verifiers;
