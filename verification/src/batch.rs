//! A joined batch: modular products, response norms, commitment splits and
//! hint recoveries side by side in one trace, with a permutation that ties the
//! split coefficients to the hinted ones.
use vstd::prelude::*;
use crate::air::{Air, Expr, ExtExpr, TraceTable, rows_agree, lemma_row_frame, single_rows_appended, running_product_transition};
use crate::field::Felt;
use crate::lattice::{self, Q, modmul_row_filled};
use crate::norm::{self, norm_row_filled};
use crate::decompose::{self, decompose_row_filled};
use crate::hint::{self, hint_row_filled};
use crate::util::{is_pow2, next_pow2, padded_len, padded_length};

verus! {

broadcast use TraceTable::lemma_width_fits, TraceTable::lemma_length_fits;

/// The first column of the modular product piece.
pub const MODMUL_BASE: usize = 0;
/// The first column of the norm piece.
pub const NORM_BASE: usize = MODMUL_BASE + lattice::WIDTH;
/// The first column of the split piece.
pub const DECOMPOSE_BASE: usize = NORM_BASE + norm::WIDTH;
/// The first column of the hint piece.
pub const HINT_BASE: usize = DECOMPOSE_BASE + decompose::WIDTH;
/// The base width of the joined trace.
pub const BATCH_WIDTH: usize = HINT_BASE + hint::WIDTH;

/// The description of a joined batch of the given length: the four pieces'
/// rules in turn, one challenge, and a permutation between the split and the
/// hinted coefficient columns with its running product rule last.
pub fn batch_air(length: usize) -> (air: Air)
    requires
        is_pow2(length as nat),
    ensures
        air.wf(),
        air.spec_base_width() == BATCH_WIDTH,
        air.spec_length() == length,
        air.spec_num_challenges() == 1,
        air.spec_aux_width() == 1,
        ({
            let t = air.spec_transitions();
            let a = lattice::RULES as int;
            let b = a + norm::RULES as int;
            let c = b + decompose::RULES as int;
            let d = c + hint::RULES as int;
            &&& t.len() == d + 1
            &&& t[d] == running_product_transition(1)
            &&& single_rows_appended(Seq::empty(), t.take(a), lattice::RULES as nat,
                |k: nat| lattice::modmul_degree(k), |k: nat, row: Seq<Felt>| lattice::modmul_rule(MODMUL_BASE as nat, k, row))
            &&& single_rows_appended(t.take(a), t.take(b), norm::RULES as nat,
                |k: nat| norm::norm_degree(k), |k: nat, row: Seq<Felt>| norm::norm_rule(NORM_BASE as nat, k, row))
            &&& single_rows_appended(t.take(b), t.take(c), decompose::RULES as nat,
                |k: nat| decompose::decompose_degree(k), |k: nat, row: Seq<Felt>| decompose::decompose_rule(DECOMPOSE_BASE as nat, k, row))
            &&& single_rows_appended(t.take(c), t.take(d), hint::RULES as nat,
                |k: nat| hint::hint_degree(k), |k: nat, row: Seq<Felt>| hint::hint_rule(HINT_BASE as nat, k, row))
        }),
        air.spec_permutations().len() == 1,
        air.spec_permutations()[0].degree == 1,
        air.spec_permutations()[0].column == BATCH_WIDTH,
        air.spec_permutations()[0].numerator == ExtExpr::Sub(
            Box::new(ExtExpr::Challenge(0)), Box::new(ExtExpr::Base(Expr::Cur((DECOMPOSE_BASE + decompose::COL_R) as usize)))),
        air.spec_permutations()[0].denominator == ExtExpr::Sub(
            Box::new(ExtExpr::Challenge(0)), Box::new(ExtExpr::Base(Expr::Cur((HINT_BASE + hint::COL_R) as usize)))),
        air.spec_boundaries().len() == 1,
        air.spec_boundaries()[0].column == BATCH_WIDTH,
        air.spec_boundaries()[0].row == 0,
        air.spec_boundaries()[0].value.val() == 1,
{
    let mut air = Air::new(BATCH_WIDTH, length);
    lattice::add_constraints(&mut air, MODMUL_BASE);
    let ghost t1 = air.spec_transitions();
    norm::add_constraints(&mut air, NORM_BASE);
    let ghost t2 = air.spec_transitions();
    decompose::add_constraints(&mut air, DECOMPOSE_BASE);
    let ghost t3 = air.spec_transitions();
    hint::add_constraints(&mut air, HINT_BASE);
    let ghost t4 = air.spec_transitions();
    proof {
        assert(t4.take(t1.len() as int) =~= t1);
        assert(t4.take(t2.len() as int) =~= t2);
        assert(t4.take(t3.len() as int) =~= t3);
        assert(t3.take(t1.len() as int) =~= t1);
        assert(t3.take(t2.len() as int) =~= t2);
        assert(t2.take(t1.len() as int) =~= t1);
    }
    let gamma = air.add_challenge();
    let dec_r = DECOMPOSE_BASE + decompose::COL_R;
    let hint_r = HINT_BASE + hint::COL_R;
    proof {
        reveal_with_fuel(ExtExpr::reads_below, 3);
        reveal_with_fuel(Expr::reads_below, 2);
    }
    air.add_permutation(
        1,
        ExtExpr::challenge(gamma).sub(ExtExpr::base(Expr::cur(dec_r))),
        ExtExpr::challenge(gamma).sub(ExtExpr::base(Expr::cur(hint_r))),
    );
    proof {
        Felt::lemma_from_val(1);
        let t5 = air.spec_transitions();
        assert(t5.take(t4.len() as int) =~= t4);
        assert(t5.take(t1.len() as int) =~= t1);
        assert(t5.take(t2.len() as int) =~= t2);
        assert(t5.take(t3.len() as int) =~= t3);
    }
    air
}

/// A filled joined batch with its description.
pub struct BatchCertificate {
    pub air: Air,
    pub trace: TraceTable,
    /// The padded row count.
    pub length: usize,
}

/// The value at a position of a list, zero past its end.
pub open spec fn or_zero(values: Seq<u64>, i: int) -> u64 {
    if 0 <= i < values.len() { values[i] } else { 0 }
}

/// The factor pair at a position of a list, zeros past its end.
pub open spec fn pair_or_zero(values: Seq<(u64, u64)>, i: int) -> (u64, u64) {
    if 0 <= i < values.len() { values[i] } else { (0, 0) }
}

/// The cells of a joined row: each piece filled from its input at that row.
pub open spec fn batch_row_filled(
    row: Seq<Felt>,
    products: Seq<(u64, u64)>,
    response: Seq<u64>,
    commitment: Seq<u64>,
    hints: Seq<u64>,
    r: int,
) -> bool {
    let (a, b) = pair_or_zero(products, r);
    let c = or_zero(commitment, r) % Q;
    &&& modmul_row_filled(row, MODMUL_BASE as nat, a % Q, b % Q)
    &&& norm_row_filled(row, NORM_BASE as nat, (or_zero(response, r) % Q) as nat)
    &&& decompose_row_filled(row, DECOMPOSE_BASE as nat, c as nat)
    &&& hint_row_filled(row, HINT_BASE as nat, c as nat, or_zero(hints, r) & 1)
}

/// The longest of the input lists, at least one.
pub open spec fn batch_count(products: nat, response: nat, commitment: nat) -> nat {
    let m = if products >= response { products } else { response };
    let m2 = if m >= commitment { m } else { commitment };
    if m2 >= 1 { m2 } else { 1 }
}

/// Lays out a joined batch: each input list fills its piece row by row,
/// reduced first, zeros past its end, over the longest list padded to a power
/// of two of at least two rows. The hint of a row is its low bit.
pub fn batch_trace(
    products: &[(u64, u64)],
    response: &[u64],
    commitment: &[u64],
    hints: &[u64],
) -> (cert: BatchCertificate)
    requires
        BATCH_WIDTH * next_pow2(batch_count(products@.len(), response@.len(), commitment@.len())) <= usize::MAX,
    ensures
        cert.length == padded_len(batch_count(products@.len(), response@.len(), commitment@.len())),
        cert.trace.spec_width() == BATCH_WIDTH,
        cert.trace.spec_length() == cert.length,
        cert.air.wf(),
        cert.air.spec_length() == cert.length,
        cert.air.spec_base_width() == BATCH_WIDTH,
        forall|r: int| 0 <= r < cert.length ==> batch_row_filled(
            #[trigger] cert.trace.spec_row(r), products@, response@, commitment@, hints@, r),
{
    let mut count = products.len();
    if response.len() > count {
        count = response.len();
    }
    if commitment.len() > count {
        count = commitment.len();
    }
    if count < 1 {
        count = 1;
    }
    proof {
        crate::util::lemma_next_pow2(count as nat);
    }
    assert(next_pow2(count as nat) <= BATCH_WIDTH * next_pow2(count as nat)) by (nonlinear_arith)
        requires next_pow2(count as nat) >= 1;
    let length = padded_length(count);
    assert(BATCH_WIDTH * length <= usize::MAX) by (nonlinear_arith)
        requires BATCH_WIDTH * next_pow2(count as nat) <= usize::MAX, next_pow2(count as nat) >= 1,
            length == next_pow2(count as nat) || length == 2;
    let mut trace = TraceTable::new(BATCH_WIDTH, length);
    let mut row: usize = 0;
    while row < length
        invariant
            row <= length,
            trace.spec_width() == BATCH_WIDTH,
            trace.spec_length() == length,
            forall|r: int| 0 <= r < row ==> batch_row_filled(
                #[trigger] trace.spec_row(r), products@, response@, commitment@, hints@, r),
        decreases length - row,
    {
        let (a, b) = if row < products.len() { products[row] } else { (0, 0) };
        let z = if row < response.len() { response[row] % Q } else { 0 };
        let c = if row < commitment.len() { commitment[row] % Q } else { 0 };
        let h = if row < hints.len() { hints[row] & 1 } else { 0 };
        let ghost t0 = trace;
        lattice::fill_row(&mut trace, MODMUL_BASE, row, a % Q, b % Q);
        let ghost t1 = trace;
        norm::fill_row(&mut trace, NORM_BASE, row, z);
        let ghost t2 = trace;
        decompose::fill_row(&mut trace, DECOMPOSE_BASE, row, c);
        let ghost t3 = trace;
        hint::fill_row(&mut trace, HINT_BASE, row, c, h);
        proof {
            let ri = row as int;
            lemma_row_frame(&t0, &t1, ri, MODMUL_BASE as int, NORM_BASE as int, ri);
            lemma_row_frame(&t1, &t2, ri, NORM_BASE as int, DECOMPOSE_BASE as int, ri);
            lemma_row_frame(&t2, &t3, ri, DECOMPOSE_BASE as int, HINT_BASE as int, ri);
            lemma_row_frame(&t3, &trace, ri, HINT_BASE as int, BATCH_WIDTH as int, ri);
            let fin = trace.spec_row(ri);
            assert(rows_agree(t3.spec_row(ri), t2.spec_row(ri), MODMUL_BASE as nat, NORM_BASE as nat));
            assert(rows_agree(t2.spec_row(ri), t1.spec_row(ri), MODMUL_BASE as nat, NORM_BASE as nat));
            assert(rows_agree(fin, t3.spec_row(ri), MODMUL_BASE as nat, NORM_BASE as nat));
            assert(rows_agree(t1.spec_row(ri), fin, MODMUL_BASE as nat, NORM_BASE as nat));
            lattice::lemma_filled_frame(t1.spec_row(ri), fin, MODMUL_BASE as nat, a % Q, b % Q);
            assert(rows_agree(fin, t3.spec_row(ri), NORM_BASE as nat, DECOMPOSE_BASE as nat));
            assert(rows_agree(t3.spec_row(ri), t2.spec_row(ri), NORM_BASE as nat, DECOMPOSE_BASE as nat));
            assert(rows_agree(t2.spec_row(ri), fin, NORM_BASE as nat, DECOMPOSE_BASE as nat));
            norm::lemma_filled_frame(t2.spec_row(ri), fin, NORM_BASE as nat, z as nat);
            assert(rows_agree(fin, t3.spec_row(ri), DECOMPOSE_BASE as nat, HINT_BASE as nat));
            assert(rows_agree(t3.spec_row(ri), fin, DECOMPOSE_BASE as nat, HINT_BASE as nat));
            decompose::lemma_filled_frame(t3.spec_row(ri), fin, DECOMPOSE_BASE as nat, c as nat);
            assert(0u64 & 1 == 0) by (bit_vector);
            assert((a, b) == pair_or_zero(products@, ri));
            assert(z == or_zero(response@, ri) % Q);
            assert(c == or_zero(commitment@, ri) % Q);
            assert(h == or_zero(hints@, ri) & 1);
            assert(modmul_row_filled(fin, MODMUL_BASE as nat, a % Q, b % Q));
            assert(norm_row_filled(fin, NORM_BASE as nat, z as nat));
            assert(decompose_row_filled(fin, DECOMPOSE_BASE as nat, c as nat));
            assert(hint_row_filled(fin, HINT_BASE as nat, c as nat, h));
            assert(batch_row_filled(fin, products@, response@, commitment@, hints@, ri));
            assert forall|r: int| 0 <= r < row implies #[trigger] trace.spec_row(r) == t0.spec_row(r) by {
                lemma_row_frame(&t0, &t1, ri, MODMUL_BASE as int, NORM_BASE as int, r);
                lemma_row_frame(&t1, &t2, ri, NORM_BASE as int, DECOMPOSE_BASE as int, r);
                lemma_row_frame(&t2, &t3, ri, DECOMPOSE_BASE as int, HINT_BASE as int, r);
                lemma_row_frame(&t3, &trace, ri, HINT_BASE as int, BATCH_WIDTH as int, r);
            }
        }
        row = row + 1;
    }
    BatchCertificate { air: batch_air(length), trace, length }
}

} // verus!
