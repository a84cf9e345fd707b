//! Worked computations for the proof protocol.
use vstd::prelude::*;
use crate::air::{Air, Expr, TraceTable, cell_val};
use crate::field::{Felt, fmul, fsub, p};
use crate::util::{is_pow2, two_pow, lemma_shift_is_pow, lemma_two_pow_is_pow2};

verus! {

broadcast use Felt::lemma_val_injective;

/// The running value of a squaring chain after a number of steps.
pub open spec fn squared(seed: nat, steps: nat) -> nat
    decreases steps,
{
    if steps == 0 {
        seed
    } else {
        let prev = squared(seed, (steps - 1) as nat);
        fmul(prev, prev)
    }
}

/// A squaring chain together with its description and public values.
pub struct SquaringChain {
    /// The algebraic description of the chain.
    pub air: Air,
    /// The filled trace.
    pub trace: TraceTable,
    /// The pinned first value.
    pub seed: Felt,
    /// The pinned last value.
    pub output: Felt,
}

/// Builds a squaring chain whose length is two to the log length: the
/// running value squares from one row to the next, the first value is the
/// seed and the last is the output, both pinned by boundaries. The trace meets
/// the description.
pub fn squaring_chain(log_length: u32, seed: Felt) -> (chain: SquaringChain)
    requires
        log_length < 64,
        two_pow(log_length as nat) <= usize::MAX,
    ensures
        chain.trace.spec_width() == 1,
        chain.trace.spec_length() == two_pow(log_length as nat),
        forall|r: int| 0 <= r < chain.trace.spec_length() ==> (#[trigger] chain.trace.cell(0, r)).val() == squared(seed.val(), r as nat),
        chain.seed == seed,
        chain.output.val() == squared(seed.val(), (two_pow(log_length as nat) - 1) as nat),
        chain.air.wf(),
        chain.air.spec_base_width() == 1,
        chain.air.spec_length() == two_pow(log_length as nat),
        chain.air.spec_transitions().len() == 1,
        chain.air.spec_transitions()[0].exclude_last,
        chain.air.spec_transitions()[0].degree == 2,
        chain.air.spec_transitions()[0].rule == Expr::Sub(
            Box::new(Expr::Next(0)), Box::new(Expr::Mul(Box::new(Expr::Cur(0)), Box::new(Expr::Cur(0))))),
        chain.air.spec_boundaries().len() == 2,
        chain.air.spec_boundaries()[0].column == 0 && chain.air.spec_boundaries()[0].row == 0
            && chain.air.spec_boundaries()[0].value == seed,
        chain.air.spec_boundaries()[1].column == 0
            && chain.air.spec_boundaries()[1].row == two_pow(log_length as nat) - 1
            && chain.air.spec_boundaries()[1].value == chain.output,
        chain.air.spec_permutations().len() == 0,
        chain.air.spec_satisfied(&chain.trace),
{
    proof {
        lemma_shift_is_pow(log_length as usize);
        lemma_two_pow_is_pow2(log_length as nat);
    }
    let length = 1usize << (log_length as usize);
    let mut trace = TraceTable::new(1, length);
    let mut value = seed;
    let mut row: usize = 0;
    while row < length
        invariant
            row <= length,
            trace.spec_width() == 1,
            trace.spec_length() == length,
            value.val() == squared(seed.val(), row as nat),
            forall|r: int| 0 <= r < row ==> (#[trigger] trace.cell(0, r)).val() == squared(seed.val(), r as nat),
        decreases length - row,
    {
        trace.set(0, row, value);
        value = value.mul(value);
        row = row + 1;
    }
    let output = trace.get(0, length - 1);

    let mut air = Air::new(1, length);
    proof {
        reveal_with_fuel(Expr::reads_below, 3);
    }
    air.add_transition(2, Expr::next(0).sub(Expr::cur(0).mul(Expr::cur(0))));
    air.add_boundary(0, 0, seed);
    air.add_boundary(0, length - 1, output);
    proof {
        reveal_with_fuel(Expr::value, 4);
        assert forall|r: int, i: int| 0 <= r < air.spec_length() && 0 <= i < air.spec_transitions().len()
            implies #[trigger] air.transition_ok(&trace, r, i) by {
            let n = length as int;
            if r < n - 1 {
                vstd::arithmetic::div_mod::lemma_small_mod((r + 1) as nat, n as nat);
                assert(cell_val(trace.spec_row(r), 0) == trace.cell(0, r).val());
                assert(cell_val(trace.spec_row(r + 1), 0) == trace.cell(0, r + 1).val());
                assert(trace.cell(0, r + 1).val() == squared(seed.val(), (r + 1) as nat));
                let prev = squared(seed.val(), r as nat);
                vstd::arithmetic::div_mod::lemma_mod_bound((prev * prev) as int, p() as int);
                vstd::arithmetic::div_mod::lemma_small_mod(fmul(prev, prev), p());
                assert(fsub(fmul(prev, prev), fmul(prev, prev)) == 0);
            }
        }
        assert forall|j: int| 0 <= j < air.spec_boundaries().len() implies #[trigger] air.boundary_ok(&trace, j) by {
            if j == 0 {
                assert(trace.cell(0, 0).val() == squared(seed.val(), 0));
            }
        }
    }
    SquaringChain { air, trace, seed, output }
}

} // verus!
