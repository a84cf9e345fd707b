//! The Keccak f permutation under its standard name, the core of SHA3 and
//! SHAKE, and its arithmetization. The round, the column layout and the rules
//! are those of the permutation module; this one keeps the standard names.
use vstd::prelude::*;
use crate::air::{Air, TraceTable};
use crate::field::Felt;
use crate::qudros::{
    block_row_filled, describes_permutation, qudros_air, qudros_f1600, qudros_round, qudros_states, qudros_trace,
    spec_rc, spec_round, spec_states, QUDROS_TRACE_ROWS, QUDROS_WIDTH,
};
use crate::air::xor_val;

verus! {

/// The number of lanes in the state.
pub const LANES: usize = 25;

/// The bit width of a lane.
pub const LANE_BITS: usize = 64;

/// The number of rounds in the standard permutation.
pub const KECCAK_ROUNDS: usize = 24;

/// The full column width of the permutation trace.
pub const KECCAK_WIDTH: usize = QUDROS_WIDTH;

/// The number of rows of the permutation trace, a power of two above the
/// round count; the rows past the last round carry further genuine rounds.
pub const KECCAK_TRACE_ROWS: usize = QUDROS_TRACE_ROWS;

/// The round constants of the iota step from the standard shift register,
/// which runs on across the rounds.
pub fn round_constants(count: usize) -> (out: Vec<u64>)
    requires
        7 * count < usize::MAX,
    ensures
        out@.len() == count,
        forall|i: int| 0 <= i < count ==> #[trigger] out@[i] == spec_rc(i as nat),
{
    crate::qudros::round_constants(count)
}

/// Applies one round of the permutation to a state under the round constant.
pub fn keccak_round(state: &[u64; LANES], rc: u64) -> (out: [u64; LANES])
    ensures
        out@ == spec_round(state@, rc),
{
    qudros_round(state, rc)
}

/// Runs the given number of rounds and records the state before each round
/// and after the last.
pub fn keccak_states(input: &[u64; LANES], rounds: usize) -> (states: Vec<[u64; LANES]>)
    requires
        7 * rounds < usize::MAX,
    ensures
        states@.len() == rounds + 1,
        forall|k: int| 0 <= k <= rounds ==> (#[trigger] states@[k])@ == spec_states(input@, k as nat),
{
    qudros_states(input, rounds)
}

/// The full twenty four round permutation.
pub fn keccak_f1600(input: &[u64; LANES]) -> (out: [u64; LANES])
    ensures
        out@ == spec_states(input@, KECCAK_ROUNDS as nat),
{
    qudros_f1600(input)
}

/// An exclusive or of two field elements that are constrained to be bits.
pub fn xor2(a: Felt, b: Felt) -> (r: Felt)
    ensures
        r.val() == xor_val(a.val(), b.val()),
{
    crate::qudros::xor2(a, b)
}

/// An exclusive or of three bits.
pub fn xor3(a: Felt, b: Felt, c: Felt) -> (r: Felt)
    ensures
        r.val() == xor_val(xor_val(a.val(), b.val()), c.val()),
{
    crate::qudros::xor3(a, b, c)
}

/// An exclusive or over a slice of bits, folded from zero.
pub fn xor_all(bits: &[Felt]) -> (r: Felt)
    ensures
        r.val() == crate::qudros::xor_fold(bits@, bits@.len()),
{
    crate::qudros::xor_all(bits)
}

/// The description of the permutation over a public input and output, bound
/// bit exact through the half lane columns.
pub fn keccak_air(input: &[u64; LANES], output: &[u64; LANES]) -> (air: Air)
    ensures
        describes_permutation(air, input@, output@),
{
    qudros_air(input, output)
}

/// A filled permutation trace with its description and the output state.
pub struct KeccakInstance {
    /// The description shared with the verifier.
    pub air: Air,
    /// The filled trace.
    pub trace: TraceTable,
    /// The output after the standard round count.
    pub output: [u64; LANES],
}

/// Builds the permutation trace over the input state, the output read at the
/// round count row.
pub fn keccak_trace(input: &[u64; LANES]) -> (instance: KeccakInstance)
    ensures
        instance.output@ == spec_states(input@, KECCAK_ROUNDS as nat),
        describes_permutation(instance.air, input@, instance.output@),
        instance.trace.spec_width() == KECCAK_WIDTH,
        instance.trace.spec_length() == KECCAK_TRACE_ROWS,
        forall|r: int| 0 <= r < KECCAK_TRACE_ROWS
            ==> block_row_filled(#[trigger] instance.trace.spec_row(r), 0, spec_states(input@, r as nat), spec_rc(r as nat)),
{
    let inner = qudros_trace(input);
    KeccakInstance { air: inner.air, trace: inner.trace, output: inner.output }
}

} // verus!
