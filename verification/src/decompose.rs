//! The high and low split of a coefficient, as a constraint piece: a
//! coefficient r is r1 times alpha plus a centered low part, with the top of
//! the range folded back to zero.
use vstd::prelude::*;
use crate::air::{
    Air, Expr, TraceTable, bit_of, bool_val, cell_val, fill_bits, lemma_append_rule, recompose_val,
    single_rows_appended, rows_agree,
};
use crate::field::{Felt, finv, fmul, fsub, p};
use crate::lattice::Q;
use crate::util::{is_pow2, next_pow2, padded_len, padded_length};

verus! {

broadcast use TraceTable::lemma_width_fits, TraceTable::lemma_length_fits;

/// The low part range parameter, the modulus less one over thirty two.
pub const GAMMA2: u64 = (Q - 1) / 32;

/// The step between high parts, twice gamma2.
pub const ALPHA: u64 = 2 * GAMMA2;

/// The number of distinct high parts.
pub const HIGH_COUNT: u64 = (Q - 1) / ALPHA;

/// The bit width of a high part.
pub const HIGH_BITS: usize = 4;

/// The bit width of a shifted low part.
pub const LOW_BITS: usize = 20;

/// The coefficient column, relative to the piece base.
pub const COL_R: usize = 0;
/// The high part column.
pub const COL_R1: usize = 1;
/// The low part shifted up by gamma2.
pub const COL_R0S: usize = 2;
/// The wrap flag, one when the coefficient folds back to high part zero.
pub const COL_KC: usize = 3;
/// The inverse of the shifted low part.
pub const COL_R0S_INV: usize = 4;
/// The first high part bit column.
pub const COL_R1_BITS: usize = 5;
/// The first shifted low part bit column.
pub const COL_R0S_BITS: usize = COL_R1_BITS + HIGH_BITS;
/// The first bit column of alpha less the shifted low part.
pub const COL_R0S_SLACK: usize = COL_R0S_BITS + LOW_BITS;

/// The column width of the piece.
pub const WIDTH: usize = COL_R0S_SLACK + LOW_BITS;

/// The number of rules the piece adds.
pub const RULES: usize = 7 + HIGH_BITS + 2 * LOW_BITS;

/// The values of the split parameters.
pub proof fn lemma_constants()
    ensures
        GAMMA2 == 261888,
        ALPHA == 523776,
        HIGH_COUNT == 16,
        Q == 16 * ALPHA + 1,
{
    assert((Q - 1) / 32 == 261888);
    assert((Q - 1) / 523776 == 16);
}

/// The centered low part of a coefficient.
pub open spec fn centered_low(r: nat) -> int {
    let raw = r % (ALPHA as nat);
    if raw <= GAMMA2 { raw as int } else { raw as int - ALPHA as int }
}

/// The high part, centered low part and wrap flag of a coefficient.
pub open spec fn spec_decompose(r: nat) -> (u64, i64, u64) {
    let r0c = centered_low(r);
    let quotient = (r as int - r0c) / (ALPHA as int);
    if quotient == HIGH_COUNT as int {
        (0, (r0c - 1) as i64, 1)
    } else {
        (quotient as u64, r0c as i64, 0)
    }
}

/// Splits a coefficient into its high part, its centered low part and the
/// wrap flag, so that r equals r1 times alpha plus r0 plus the flag times the
/// modulus. The coefficient and its difference with the centered low part
/// must fit a signed word.
pub fn decompose(r: u64) -> (parts: (u64, i64, u64))
    requires
        r <= 0x7FFF_FFFF_FFFF_FFFF,
        r as int - centered_low(r as nat) <= 0x7FFF_FFFF_FFFF_FFFF,
    ensures
        parts == spec_decompose(r as nat),
{
    let r0_raw = r % ALPHA;
    let r0c: i64 = if r0_raw <= GAMMA2 { r0_raw as i64 } else { r0_raw as i64 - ALPHA as i64 };
    let quotient: i64 = (r as i64 - r0c) / (ALPHA as i64);
    proof {
        vstd::arithmetic::div_mod::lemma_mod_bound(r as int, ALPHA as int);
        if r < ALPHA {
            vstd::arithmetic::div_mod::lemma_small_mod(r as nat, ALPHA as nat);
        }
        assert(r as int - r0c >= 0);
        vstd::arithmetic::div_mod::lemma_div_pos_is_pos((r as int - r0c) as int, ALPHA as int);
        vstd::arithmetic::div_mod::lemma_div_is_ordered_by_denominator((r as int - r0c) as int, 1, ALPHA as int);
    }
    if quotient == HIGH_COUNT as i64 {
        (0, r0c - 1, 1)
    } else {
        (quotient as u64, r0c, 0)
    }
}

/// The degree of rule k of the piece.
pub open spec fn decompose_degree(k: nat) -> nat {
    if k == 0 { 1 } else if k < 3 { 2 } else if k == 3 { 3 } else if k < 7 { 1 } else { 2 }
}

/// The value of rule k of the piece on a row.
pub open spec fn decompose_rule(base: nat, k: nat, row: Seq<Felt>) -> nat {
    let r = cell_val(row, (base + COL_R) as int);
    let r1 = cell_val(row, (base + COL_R1) as int);
    let r0s = cell_val(row, (base + COL_R0S) as int);
    let kc = cell_val(row, (base + COL_KC) as int);
    let inv = cell_val(row, (base + COL_R0S_INV) as int);
    if k == 0 {
        fsub(fsub(fsub(r, fmul(r1, ALPHA as nat)), fsub(r0s, GAMMA2 as nat)), fmul(kc, Q as nat))
    } else if k == 1 {
        bool_val(row, (base + COL_KC) as nat)
    } else if k == 2 {
        fmul(kc, r1)
    } else if k == 3 {
        fmul(fsub(1, kc), fsub(fmul(r0s, inv), 1))
    } else if k == 4 {
        fsub(recompose_val(row, (base + COL_R1_BITS) as nat, HIGH_BITS as nat), r1)
    } else if k == 5 {
        fsub(recompose_val(row, (base + COL_R0S_BITS) as nat, LOW_BITS as nat), r0s)
    } else if k == 6 {
        fsub(recompose_val(row, (base + COL_R0S_SLACK) as nat, LOW_BITS as nat), fsub(ALPHA as nat, r0s))
    } else {
        bool_val(row, (base + k - 2) as nat)
    }
}

/// Adds the decomposition rules for a piece at the given column base.
pub fn add_constraints(air: &mut Air, base: usize)
    requires
        old(air).wf(),
        base + WIDTH <= old(air).spec_base_width(),
    ensures
        final(air).wf(),
        single_rows_appended(
            old(air).spec_transitions(),
            final(air).spec_transitions(),
            RULES as nat,
            |k: nat| decompose_degree(k),
            |k: nat, row: Seq<Felt>| decompose_rule(base as nat, k, row),
        ),
        final(air).spec_boundaries() == old(air).spec_boundaries(),
        final(air).spec_permutations() == old(air).spec_permutations(),
        final(air).spec_base_width() == old(air).spec_base_width(),
        final(air).spec_aux_width() == old(air).spec_aux_width(),
        final(air).spec_length() == old(air).spec_length(),
        final(air).spec_num_challenges() == old(air).spec_num_challenges(),
{
    let ghost start = air.spec_transitions();
    let ghost degree = |k: nat| decompose_degree(k);
    let ghost rule = |k: nat, row: Seq<Felt>| decompose_rule(base as nat, k, row);
    let alpha = Felt::new(ALPHA);
    let modulus = Felt::new(Q);
    let low_shift = Felt::new(GAMMA2);
    let one = Felt::one();
    proof {
        vstd::arithmetic::div_mod::lemma_small_mod(Q as nat, p());
        vstd::arithmetic::div_mod::lemma_small_mod(ALPHA as nat, p());
        vstd::arithmetic::div_mod::lemma_small_mod(GAMMA2 as nat, p());
        reveal_with_fuel(Expr::value, 6);
        reveal_with_fuel(Expr::reads_below, 6);
        assert(single_rows_appended(start, air.spec_transitions(), 0, degree, rule));
    }
    let r = base + COL_R;
    let r1 = base + COL_R1;
    let r0s = base + COL_R0S;
    let kc = base + COL_KC;
    let r0s_inv = base + COL_R0S_INV;

    let e0 = Expr::cur(r).sub(Expr::cur(r1).mul(Expr::constant(alpha)))
        .sub(Expr::cur(r0s).sub(Expr::constant(low_shift)))
        .sub(Expr::cur(kc).mul(Expr::constant(modulus)));
    let ghost mid = air.spec_transitions();
    air.add_single_row(1, e0);
    proof { lemma_append_rule(start, mid, air.spec_transitions(), 0, degree, rule, air.spec_transitions().last()); }

    let e1 = Expr::boolean(kc);
    proof {
        assert(e1.reads_below(air.spec_base_width()));
        assert forall|cur: Seq<Felt>, next: Seq<Felt>| #[trigger] e1.value(cur, next) == rule(1, cur) by {
            assert(e1.value(cur, next) == bool_val(cur, kc as nat));
        }
    }
    let ghost mid = air.spec_transitions();
    air.add_single_row(2, e1);
    proof { lemma_append_rule(start, mid, air.spec_transitions(), 1, degree, rule, air.spec_transitions().last()); }

    let e2 = Expr::cur(kc).mul(Expr::cur(r1));
    let ghost mid = air.spec_transitions();
    air.add_single_row(2, e2);
    proof { lemma_append_rule(start, mid, air.spec_transitions(), 2, degree, rule, air.spec_transitions().last()); }

    let e3 = Expr::constant(one).sub(Expr::cur(kc)).mul(Expr::cur(r0s).mul(Expr::cur(r0s_inv)).sub(Expr::constant(one)));
    let ghost mid = air.spec_transitions();
    air.add_single_row(3, e3);
    proof { lemma_append_rule(start, mid, air.spec_transitions(), 3, degree, rule, air.spec_transitions().last()); }

    let rc = Expr::recompose(base + COL_R1_BITS, HIGH_BITS);
    proof { assert(rc.reads_below(air.spec_base_width())); }
    let e4 = rc.sub(Expr::cur(r1));
    proof {
        assert forall|cur: Seq<Felt>, next: Seq<Felt>| #[trigger] e4.value(cur, next) == rule(4, cur) by {
            assert(rc.value(cur, next) == recompose_val(cur, (base + COL_R1_BITS) as nat, HIGH_BITS as nat));
        }
    }
    let ghost mid = air.spec_transitions();
    air.add_single_row(1, e4);
    proof { lemma_append_rule(start, mid, air.spec_transitions(), 4, degree, rule, air.spec_transitions().last()); }

    let rc = Expr::recompose(base + COL_R0S_BITS, LOW_BITS);
    proof { assert(rc.reads_below(air.spec_base_width())); }
    let e5 = rc.sub(Expr::cur(r0s));
    proof {
        assert forall|cur: Seq<Felt>, next: Seq<Felt>| #[trigger] e5.value(cur, next) == rule(5, cur) by {
            assert(rc.value(cur, next) == recompose_val(cur, (base + COL_R0S_BITS) as nat, LOW_BITS as nat));
        }
    }
    let ghost mid = air.spec_transitions();
    air.add_single_row(1, e5);
    proof { lemma_append_rule(start, mid, air.spec_transitions(), 5, degree, rule, air.spec_transitions().last()); }

    let rc = Expr::recompose(base + COL_R0S_SLACK, LOW_BITS);
    proof { assert(rc.reads_below(air.spec_base_width())); }
    let e6 = rc.sub(Expr::constant(alpha).sub(Expr::cur(r0s)));
    proof {
        assert forall|cur: Seq<Felt>, next: Seq<Felt>| #[trigger] e6.value(cur, next) == rule(6, cur) by {
            assert(rc.value(cur, next) == recompose_val(cur, (base + COL_R0S_SLACK) as nat, LOW_BITS as nat));
        }
    }
    let ghost mid = air.spec_transitions();
    air.add_single_row(1, e6);
    proof { lemma_append_rule(start, mid, air.spec_transitions(), 6, degree, rule, air.spec_transitions().last()); }

    let mut k: usize = 7;
    while k < RULES
        invariant
            7 <= k <= RULES,
            air.wf(),
            base + WIDTH <= air.spec_base_width(),
            single_rows_appended(start, air.spec_transitions(), k as nat, degree, rule),
            degree == (|k: nat| decompose_degree(k)),
            rule == (|k: nat, row: Seq<Felt>| decompose_rule(base as nat, k, row)),
            air.spec_boundaries() == old(air).spec_boundaries(),
            air.spec_permutations() == old(air).spec_permutations(),
            air.spec_base_width() == old(air).spec_base_width(),
            air.spec_aux_width() == old(air).spec_aux_width(),
            air.spec_length() == old(air).spec_length(),
            air.spec_num_challenges() == old(air).spec_num_challenges(),
        decreases RULES - k,
    {
        let e = Expr::boolean(base + (k - 2));
        proof {
            assert(e.reads_below(air.spec_base_width()));
            assert forall|cur: Seq<Felt>, next: Seq<Felt>| #[trigger] e.value(cur, next) == rule(k as nat, cur) by {
                assert(e.value(cur, next) == bool_val(cur, (base + k - 2) as nat));
            }
        }
        let ghost mid = air.spec_transitions();
        air.add_single_row(2, e);
        proof { lemma_append_rule(start, mid, air.spec_transitions(), k as nat, degree, rule, air.spec_transitions().last()); }
        k = k + 1;
    }
}

/// What the description of a batch of decompositions of the given length holds:
/// the piece's rules at column zero on every row, nothing else.
pub open spec fn describes_decompose(air: Air, length: nat) -> bool {
    &&& air.wf()
    &&& air.spec_base_width() == WIDTH
    &&& air.spec_length() == length
    &&& air.spec_aux_width() == 0
    &&& air.spec_num_challenges() == 0
    &&& air.spec_boundaries().len() == 0
    &&& single_rows_appended(Seq::empty(), air.spec_transitions(), RULES as nat,
        |k: nat| decompose_degree(k), |k: nat, row: Seq<Felt>| decompose_rule(0, k, row))
}

/// The description of a batch of decompositions of the given length.
pub fn decompose_air(length: usize) -> (air: Air)
    requires
        is_pow2(length as nat),
    ensures
        describes_decompose(air, length as nat),
        air.wf(),
        air.spec_base_width() == WIDTH,
        air.spec_length() == length,
        air.spec_aux_width() == 0,
        air.spec_num_challenges() == 0,
        air.spec_boundaries().len() == 0,
        single_rows_appended(
            Seq::empty(),
            air.spec_transitions(),
            RULES as nat,
            |k: nat| decompose_degree(k),
            |k: nat, row: Seq<Felt>| decompose_rule(0, k, row),
        ),
{
    let mut air = Air::new(WIDTH, length);
    add_constraints(&mut air, 0);
    air
}

/// The cells a filled piece row holds for a coefficient.
pub open spec fn decompose_row_filled(row: Seq<Felt>, base: nat, r: nat) -> bool {
    let parts = spec_decompose(r);
    let r1 = parts.0 as nat;
    let r0s = (parts.1 + GAMMA2 as int) as u64 as nat;
    let kc = parts.2 as nat;
    let slack = (ALPHA as int - r0s as int) as u64 as nat;
    &&& cell_val(row, (base + COL_R) as int) == r % p()
    &&& cell_val(row, (base + COL_R1) as int) == r1 % p()
    &&& cell_val(row, (base + COL_R0S) as int) == r0s % p()
    &&& cell_val(row, (base + COL_KC) as int) == kc % p()
    &&& cell_val(row, (base + COL_R0S_INV) as int) == (if kc == 0 { finv(r0s % p()) } else { 0 })
    &&& forall|k: nat| k < HIGH_BITS ==> #[trigger] cell_val(row, (base + COL_R1_BITS + k) as int) == bit_of(r1, k)
    &&& forall|k: nat| k < LOW_BITS ==> #[trigger] cell_val(row, (base + COL_R0S_BITS + k) as int) == bit_of(r0s, k)
    &&& forall|k: nat| k < LOW_BITS ==> #[trigger] cell_val(row, (base + COL_R0S_SLACK + k) as int) == bit_of(slack, k)
}

/// Fills one decomposition row at the given column base.
pub fn fill_row(trace: &mut TraceTable, base: usize, row: usize, r: u64)
    requires
        base + WIDTH <= old(trace).spec_width(),
        row < old(trace).spec_length(),
        r < 0x4000_0000_0000_0000,
    ensures
        final(trace).spec_width() == old(trace).spec_width(),
        final(trace).spec_length() == old(trace).spec_length(),
        decompose_row_filled(final(trace).spec_row(row as int), base as nat, r as nat),
        forall|c: int, rr: int| (rr != row || c < base || c >= base + WIDTH) && 0 <= c < old(trace).spec_width()
            && 0 <= rr < old(trace).spec_length() ==> #[trigger] final(trace).cell(c, rr) == old(trace).cell(c, rr),
{
    let (r1, r0c, kc) = decompose(r);
    proof {
        vstd::arithmetic::div_mod::lemma_mod_bound(r as int, ALPHA as int);
    }
    let r0s = (r0c + GAMMA2 as i64) as u64;
    trace.set(base + COL_R, row, Felt::new(r));
    trace.set(base + COL_R1, row, Felt::new(r1));
    trace.set(base + COL_R0S, row, Felt::new(r0s));
    trace.set(base + COL_KC, row, Felt::new(kc));
    let inverse = if kc == 0 { Felt::new(r0s).inv() } else { Felt::zero() };
    trace.set(base + COL_R0S_INV, row, inverse);
    let slack = ALPHA.wrapping_sub(r0s);
    fill_bits(trace, base + COL_R1_BITS, row, r1, HIGH_BITS);
    fill_bits(trace, base + COL_R0S_BITS, row, r0s, LOW_BITS);
    fill_bits(trace, base + COL_R0S_SLACK, row, slack, LOW_BITS);
    proof {
        let rv = trace.spec_row(row as int);
        assert forall|k: nat| k < HIGH_BITS implies #[trigger] cell_val(rv, (base + COL_R1_BITS + k) as int) == bit_of(r1 as nat, k) by {
            assert(trace.cell((base + COL_R1_BITS) as int + k as int, row as int).val() == bit_of(r1 as nat, k));
        }
        assert forall|k: nat| k < LOW_BITS implies #[trigger] cell_val(rv, (base + COL_R0S_BITS + k) as int) == bit_of(r0s as nat, k) by {
            assert(trace.cell((base + COL_R0S_BITS) as int + k as int, row as int).val() == bit_of(r0s as nat, k));
        }
        assert forall|k: nat| k < LOW_BITS implies #[trigger] cell_val(rv, (base + COL_R0S_SLACK + k) as int) == bit_of(slack as nat, k) by {
            assert(trace.cell((base + COL_R0S_SLACK) as int + k as int, row as int).val() == bit_of(slack as nat, k));
        }
    }
}

/// A filled decomposition batch with its description.
pub struct DecomposeBatch {
    pub air: Air,
    pub trace: TraceTable,
    /// The number of real coefficients before padding.
    pub count: usize,
}

/// Lays out a trace that splits a batch of coefficients, each reduced first,
/// padded with zero coefficients up to a power of two length of at least two.
pub fn decompose_batch(coefficients: &[u64]) -> (batch: DecomposeBatch)
    requires
        WIDTH * next_pow2(coefficients@.len()) <= usize::MAX,
    ensures
        describes_decompose(batch.air, padded_len(coefficients@.len())),
        batch.count == coefficients@.len(),
        batch.air.wf(),
        batch.air.spec_base_width() == WIDTH,
        batch.air.spec_length() == padded_len(coefficients@.len()),
        batch.trace.spec_width() == WIDTH,
        batch.trace.spec_length() == padded_len(coefficients@.len()),
        single_rows_appended(
            Seq::empty(),
            batch.air.spec_transitions(),
            RULES as nat,
            |k: nat| decompose_degree(k),
            |k: nat, row: Seq<Felt>| decompose_rule(0, k, row),
        ),
        batch.air.spec_boundaries().len() == 0,
        forall|r: int| 0 <= r < coefficients@.len() ==> decompose_row_filled(
            #[trigger] batch.trace.spec_row(r), 0, (coefficients@[r] % Q) as nat),
        forall|r: int| coefficients@.len() <= r < batch.trace.spec_length() ==> decompose_row_filled(
            #[trigger] batch.trace.spec_row(r), 0, 0),
{
    let count = coefficients.len();
    proof {
        crate::util::lemma_next_pow2(count as nat);
    }
    assert(next_pow2(count as nat) <= WIDTH * next_pow2(count as nat)) by (nonlinear_arith)
        requires next_pow2(count as nat) >= 1;
    let length = padded_length(count);
    assert(WIDTH * length <= usize::MAX) by (nonlinear_arith)
        requires WIDTH * next_pow2(count as nat) <= usize::MAX, next_pow2(count as nat) >= 1,
            length == next_pow2(count as nat) || length == 2;
    let mut trace = TraceTable::new(WIDTH, length);
    let mut row: usize = 0;
    while row < length
        invariant
            row <= length,
            count == coefficients@.len(),
            length == padded_len(count as nat),
            trace.spec_width() == WIDTH,
            trace.spec_length() == length,
            forall|r: int| 0 <= r < row && r < count ==> decompose_row_filled(
                #[trigger] trace.spec_row(r), 0, (coefficients@[r] % Q) as nat),
            forall|r: int| count <= r < row ==> decompose_row_filled(#[trigger] trace.spec_row(r), 0, 0),
        decreases length - row,
    {
        let r = if row < count { coefficients[row] % Q } else { 0 };
        let ghost before = trace;
        fill_row(&mut trace, 0, row, r);
        proof {
            assert forall|rr: int| 0 <= rr < row implies #[trigger] trace.spec_row(rr) == before.spec_row(rr) by {
                assert(trace.spec_row(rr) =~= before.spec_row(rr));
            }
        }
        row = row + 1;
    }
    DecomposeBatch { air: decompose_air(length), trace, count }
}


/// A filled row stays filled when the piece's columns are unchanged.
pub proof fn lemma_filled_frame(a: Seq<Felt>, b: Seq<Felt>, base: nat, r: nat)
    requires
        decompose_row_filled(a, base, r),
        rows_agree(a, b, base, (base + WIDTH) as nat),
    ensures
        decompose_row_filled(b, base, r),
{
    assert(cell_val(b, (base + COL_R) as int) == cell_val(a, (base + COL_R) as int));
    assert(cell_val(b, (base + COL_R1) as int) == cell_val(a, (base + COL_R1) as int));
    assert(cell_val(b, (base + COL_R0S) as int) == cell_val(a, (base + COL_R0S) as int));
    assert(cell_val(b, (base + COL_KC) as int) == cell_val(a, (base + COL_KC) as int));
    assert(cell_val(b, (base + COL_R0S_INV) as int) == cell_val(a, (base + COL_R0S_INV) as int));
    assert forall|k: nat| k < HIGH_BITS implies #[trigger] cell_val(b, (base + COL_R1_BITS + k) as int) == cell_val(a, (base + COL_R1_BITS + k) as int) by {}
    assert forall|k: nat| k < LOW_BITS implies #[trigger] cell_val(b, (base + COL_R0S_BITS + k) as int) == cell_val(a, (base + COL_R0S_BITS + k) as int) by {}
    assert forall|k: nat| k < LOW_BITS implies #[trigger] cell_val(b, (base + COL_R0S_SLACK + k) as int) == cell_val(a, (base + COL_R0S_SLACK + k) as int) by {}
}
/// A coefficient below the modulus splits into a high part below sixteen and
/// a centered low part: without the wrap flag the coefficient is the high
/// part times alpha plus the low part, which lies above minus gamma2 and at
/// most gamma2; with it the high part is zero, the coefficient is the low
/// part plus the modulus, and the low part lies from minus gamma2 to zero.
pub proof fn law_decompose_parts(r: nat)
    requires
        r < Q,
    ensures
        spec_decompose(r).0 < 16,
        spec_decompose(r).2 <= 1,
        spec_decompose(r).2 == 0 ==> r == spec_decompose(r).0 as int * 523776 + spec_decompose(r).1 as int
            && -261888 < spec_decompose(r).1 <= 261888,
        spec_decompose(r).2 == 1 ==> spec_decompose(r).0 == 0 && r == spec_decompose(r).1 as int + Q
            && -261888 <= spec_decompose(r).1 <= 0,
{
    lemma_constants();
    crate::hint::lemma_decompose_bounds(r);
    let a = ALPHA as int;
    let raw = r % (ALPHA as nat);
    vstd::arithmetic::div_mod::lemma_mod_bound(r as int, a);
    vstd::arithmetic::div_mod::lemma_fundamental_div_mod(r as int, a);
    let q = r as int / a;
    let r0c = centered_low(r);
    if raw <= GAMMA2 {
        assert(r as int - r0c == a * q);
        vstd::arithmetic::div_mod::lemma_div_multiples_vanish(q, a);
        vstd::arithmetic::mul::lemma_mul_is_commutative(a, q);
    } else {
        vstd::arithmetic::mul::lemma_mul_is_distributive_add(a, q, 1);
        assert(r as int - r0c == a * (q + 1));
        vstd::arithmetic::div_mod::lemma_div_multiples_vanish(q + 1, a);
        vstd::arithmetic::mul::lemma_mul_is_commutative(a, q + 1);
    }
}

} // verus!
