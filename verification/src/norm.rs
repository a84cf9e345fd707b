//! Infinity norm range check for the signature response.
//!
//! Each coefficient lies in zero to the modulus less one and stands for a
//! centered value, negative when it is above half the modulus. The piece
//! proves the centered magnitude of every coefficient is below the bound gamma1
//! less beta, so a coefficient in the middle band is rejected.
use vstd::prelude::*;
use vstd::arithmetic::power2::pow2;
use crate::air::{
    Air, Expr, TraceTable, bit_of, bool_val, cell_val, fill_bits, lemma_append_rule, lemma_bit_rule,
    lemma_recompose_bits, lemma_rules_met, recompose_val, single_rows_appended, rows_agree,
};
use crate::field::{Felt, fadd, fmul, fsub, p};
use crate::lattice::Q;
use crate::util::{is_pow2, next_pow2, padded_len, padded_length};

verus! {

broadcast use TraceTable::lemma_width_fits, TraceTable::lemma_length_fits;

/// The response range parameter gamma1, two to the nineteen.
pub const GAMMA1: u64 = 0x80000;

/// The rejection margin beta, the challenge weight times the secret bound.
pub const BETA: u64 = 196;

/// The exclusive infinity norm bound the response must respect.
pub const NORM_BOUND: u64 = GAMMA1 - BETA;

/// The bit width that covers the bound.
pub const NORM_BITS: usize = 20;

/// The input response coefficient column, relative to the piece base.
pub const COL_Z: usize = 0;
/// The sign bit column.
pub const COL_SIGN: usize = 1;
/// The centered magnitude column.
pub const COL_MAG: usize = 2;
/// The first magnitude bit column.
pub const COL_MAG_BITS: usize = 3;
/// The first bit column of the bound less one less the magnitude.
pub const COL_MAG_SLACK: usize = COL_MAG_BITS + NORM_BITS;

/// The column width of the norm check piece.
pub const WIDTH: usize = COL_MAG_SLACK + NORM_BITS;

/// The number of rules the piece adds.
pub const RULES: usize = 4 + 2 * NORM_BITS;

/// The degree of rule k of the piece.
pub open spec fn norm_degree(k: nat) -> nat {
    if k < 2 { 2 } else if k < 4 { 1 } else { 2 }
}

/// The value of rule k of the piece on a row.
pub open spec fn norm_rule(base: nat, k: nat, row: Seq<Felt>) -> nat {
    let z = cell_val(row, (base + COL_Z) as int);
    let sign = cell_val(row, (base + COL_SIGN) as int);
    let mag = cell_val(row, (base + COL_MAG) as int);
    if k == 0 {
        fsub(fsub(mag, z), fmul(sign, fsub(Q as nat, fadd(z, z))))
    } else if k == 1 {
        bool_val(row, (base + COL_SIGN) as nat)
    } else if k == 2 {
        fsub(recompose_val(row, (base + COL_MAG_BITS) as nat, NORM_BITS as nat), mag)
    } else if k == 3 {
        fsub(recompose_val(row, (base + COL_MAG_SLACK) as nat, NORM_BITS as nat), fsub((NORM_BOUND - 1) as nat, mag))
    } else {
        bool_val(row, (base + k - 1) as nat)
    }
}

/// Adds the infinity norm rules for a piece at the given column base.
pub fn add_constraints(air: &mut Air, base: usize)
    requires
        old(air).wf(),
        base + WIDTH <= old(air).spec_base_width(),
    ensures
        final(air).wf(),
        single_rows_appended(
            old(air).spec_transitions(),
            final(air).spec_transitions(),
            RULES as nat,
            |k: nat| norm_degree(k),
            |k: nat, row: Seq<Felt>| norm_rule(base as nat, k, row),
        ),
        final(air).spec_boundaries() == old(air).spec_boundaries(),
        final(air).spec_permutations() == old(air).spec_permutations(),
        final(air).spec_base_width() == old(air).spec_base_width(),
        final(air).spec_aux_width() == old(air).spec_aux_width(),
        final(air).spec_length() == old(air).spec_length(),
        final(air).spec_num_challenges() == old(air).spec_num_challenges(),
{
    let ghost start = air.spec_transitions();
    let ghost degree = |k: nat| norm_degree(k);
    let ghost rule = |k: nat, row: Seq<Felt>| norm_rule(base as nat, k, row);
    let modulus = Felt::new(Q);
    let bound_minus_one = Felt::new(NORM_BOUND - 1);
    proof {
        vstd::arithmetic::div_mod::lemma_small_mod(Q as nat, p());
        vstd::arithmetic::div_mod::lemma_small_mod((NORM_BOUND - 1) as nat, p());
        reveal_with_fuel(Expr::value, 5);
        reveal_with_fuel(Expr::reads_below, 5);
        assert(single_rows_appended(start, air.spec_transitions(), 0, degree, rule));
    }
    let z = base + COL_Z;
    let sign = base + COL_SIGN;
    let mag = base + COL_MAG;

    let mirror = Expr::constant(modulus).sub(Expr::cur(z).add(Expr::cur(z)));
    let e0 = Expr::cur(mag).sub(Expr::cur(z)).sub(Expr::cur(sign).mul(mirror));
    let ghost mid = air.spec_transitions();
    air.add_single_row(2, e0);
    proof { lemma_append_rule(start, mid, air.spec_transitions(), 0, degree, rule, air.spec_transitions().last()); }

    let e1 = Expr::boolean(sign);
    proof {
        assert(e1.reads_below(air.spec_base_width()));
        assert forall|cur: Seq<Felt>, next: Seq<Felt>| #[trigger] e1.value(cur, next) == rule(1, cur) by {
            assert(e1.value(cur, next) == bool_val(cur, sign as nat));
        }
    }
    let ghost mid = air.spec_transitions();
    air.add_single_row(2, e1);
    proof { lemma_append_rule(start, mid, air.spec_transitions(), 1, degree, rule, air.spec_transitions().last()); }

    let rc = Expr::recompose(base + COL_MAG_BITS, NORM_BITS);
    proof { assert(rc.reads_below(air.spec_base_width())); }
    let e2 = rc.sub(Expr::cur(mag));
    proof {
        assert forall|cur: Seq<Felt>, next: Seq<Felt>| #[trigger] e2.value(cur, next) == rule(2, cur) by {
            assert(rc.value(cur, next) == recompose_val(cur, (base + COL_MAG_BITS) as nat, NORM_BITS as nat));
        }
    }
    let ghost mid = air.spec_transitions();
    air.add_single_row(1, e2);
    proof { lemma_append_rule(start, mid, air.spec_transitions(), 2, degree, rule, air.spec_transitions().last()); }

    let rc = Expr::recompose(base + COL_MAG_SLACK, NORM_BITS);
    proof { assert(rc.reads_below(air.spec_base_width())); }
    let e3 = rc.sub(Expr::constant(bound_minus_one).sub(Expr::cur(mag)));
    proof {
        assert forall|cur: Seq<Felt>, next: Seq<Felt>| #[trigger] e3.value(cur, next) == rule(3, cur) by {
            assert(rc.value(cur, next) == recompose_val(cur, (base + COL_MAG_SLACK) as nat, NORM_BITS as nat));
        }
    }
    let ghost mid = air.spec_transitions();
    air.add_single_row(1, e3);
    proof { lemma_append_rule(start, mid, air.spec_transitions(), 3, degree, rule, air.spec_transitions().last()); }

    let mut k: usize = 4;
    while k < RULES
        invariant
            4 <= k <= RULES,
            air.wf(),
            base + WIDTH <= air.spec_base_width(),
            single_rows_appended(start, air.spec_transitions(), k as nat, degree, rule),
            degree == (|k: nat| norm_degree(k)),
            rule == (|k: nat, row: Seq<Felt>| norm_rule(base as nat, k, row)),
            air.spec_boundaries() == old(air).spec_boundaries(),
            air.spec_permutations() == old(air).spec_permutations(),
            air.spec_base_width() == old(air).spec_base_width(),
            air.spec_aux_width() == old(air).spec_aux_width(),
            air.spec_length() == old(air).spec_length(),
            air.spec_num_challenges() == old(air).spec_num_challenges(),
        decreases RULES - k,
    {
        let e = Expr::boolean(base + k - 1);
        proof {
            assert(e.reads_below(air.spec_base_width()));
            assert forall|cur: Seq<Felt>, next: Seq<Felt>| #[trigger] e.value(cur, next) == rule(k as nat, cur) by {
                assert(e.value(cur, next) == bool_val(cur, (base + k - 1) as nat));
            }
        }
        let ghost mid = air.spec_transitions();
        air.add_single_row(2, e);
        proof { lemma_append_rule(start, mid, air.spec_transitions(), k as nat, degree, rule, air.spec_transitions().last()); }
        k = k + 1;
    }
}

/// What the description of a batch of infinity norm checks of the given length holds:
/// the piece's rules at column zero on every row, nothing else.
pub open spec fn describes_norm(air: Air, length: nat) -> bool {
    &&& air.wf()
    &&& air.spec_base_width() == WIDTH
    &&& air.spec_length() == length
    &&& air.spec_aux_width() == 0
    &&& air.spec_num_challenges() == 0
    &&& air.spec_boundaries().len() == 0
    &&& single_rows_appended(Seq::empty(), air.spec_transitions(), RULES as nat,
        |k: nat| norm_degree(k), |k: nat, row: Seq<Felt>| norm_rule(0, k, row))
}

/// The description of a batch of infinity norm checks of the given length.
pub fn norm_air(length: usize) -> (air: Air)
    requires
        is_pow2(length as nat),
    ensures
        describes_norm(air, length as nat),
        air.wf(),
        air.spec_base_width() == WIDTH,
        air.spec_length() == length,
        air.spec_aux_width() == 0,
        air.spec_num_challenges() == 0,
        air.spec_boundaries().len() == 0,
        single_rows_appended(
            Seq::empty(),
            air.spec_transitions(),
            RULES as nat,
            |k: nat| norm_degree(k),
            |k: nat, row: Seq<Felt>| norm_rule(0, k, row),
        ),
{
    let mut air = Air::new(WIDTH, length);
    add_constraints(&mut air, 0);
    air
}

/// The sign of a coefficient: one above half the modulus.
pub open spec fn centered_sign(z: nat) -> nat {
    if z <= Q / 2 { 0 } else { 1 }
}

/// The centered magnitude of a coefficient at most the modulus.
pub open spec fn centered_magnitude(z: nat) -> nat {
    if z <= Q / 2 { z } else { (Q - z) as nat }
}

/// The bound less one less the magnitude, wrapping around the word.
pub open spec fn norm_slack(mag: nat) -> nat {
    if mag <= NORM_BOUND - 1 {
        ((NORM_BOUND - 1) - mag) as nat
    } else {
        ((NORM_BOUND - 1) + 0x1_0000_0000_0000_0000 - mag) as nat
    }
}

/// The cells a filled piece row holds.
pub open spec fn norm_row_filled(row: Seq<Felt>, base: nat, z: nat) -> bool {
    let mag = centered_magnitude(z);
    let slack = norm_slack(mag);
    &&& cell_val(row, (base + COL_Z) as int) == z % p()
    &&& cell_val(row, (base + COL_SIGN) as int) == centered_sign(z)
    &&& cell_val(row, (base + COL_MAG) as int) == mag % p()
    &&& forall|k: nat| k < NORM_BITS ==> #[trigger] cell_val(row, (base + COL_MAG_BITS + k) as int) == bit_of(mag, k)
    &&& forall|k: nat| k < NORM_BITS ==> #[trigger] cell_val(row, (base + COL_MAG_SLACK + k) as int) == bit_of(slack, k)
}

/// Fills one infinity norm check row at the given column base. A coefficient
/// outside the bound gets the wrapped slack, which the rules reject.
pub fn fill_row(trace: &mut TraceTable, base: usize, row: usize, z: u64)
    requires
        base + WIDTH <= old(trace).spec_width(),
        row < old(trace).spec_length(),
        z <= Q,
    ensures
        final(trace).spec_width() == old(trace).spec_width(),
        final(trace).spec_length() == old(trace).spec_length(),
        norm_row_filled(final(trace).spec_row(row as int), base as nat, z as nat),
        forall|c: int, r: int| (r != row || c < base || c >= base + WIDTH) && 0 <= c < old(trace).spec_width()
            && 0 <= r < old(trace).spec_length() ==> #[trigger] final(trace).cell(c, r) == old(trace).cell(c, r),
{
    let (sign, magnitude) = if z <= Q / 2 { (0u64, z) } else { (1u64, Q - z) };
    trace.set(base + COL_Z, row, Felt::new(z));
    trace.set(base + COL_SIGN, row, Felt::new(sign));
    trace.set(base + COL_MAG, row, Felt::new(magnitude));
    let slack = (NORM_BOUND - 1).wrapping_sub(magnitude);
    fill_bits(trace, base + COL_MAG_BITS, row, magnitude, NORM_BITS);
    fill_bits(trace, base + COL_MAG_SLACK, row, slack, NORM_BITS);
    proof {
        vstd::arithmetic::div_mod::lemma_small_mod(sign as nat, p());
        let rv = trace.spec_row(row as int);
        assert forall|k: nat| k < NORM_BITS implies #[trigger] cell_val(rv, (base + COL_MAG_BITS + k) as int) == bit_of(magnitude as nat, k) by {
            assert(trace.cell((base + COL_MAG_BITS) as int + k as int, row as int).val() == bit_of(magnitude as nat, k));
        }
        assert forall|k: nat| k < NORM_BITS implies #[trigger] cell_val(rv, (base + COL_MAG_SLACK + k) as int) == bit_of(slack as nat, k) by {
            assert(trace.cell((base + COL_MAG_SLACK) as int + k as int, row as int).val() == bit_of(slack as nat, k));
        }
    }
}

/// A row filled from a coefficient below the modulus whose centered magnitude
/// is below the bound meets every rule of the piece.
pub proof fn law_filled_row_meets_rules(row: Seq<Felt>, base: nat, z: nat)
    requires
        z < Q,
        centered_magnitude(z) < NORM_BOUND,
        norm_row_filled(row, base, z),
    ensures
        forall|k: nat| k < RULES ==> #[trigger] norm_rule(base, k, row) == 0,
{
    let mag = centered_magnitude(z);
    let slack = norm_slack(mag);
    vstd::arithmetic::div_mod::lemma_small_mod(z, p());
    vstd::arithmetic::div_mod::lemma_small_mod(mag, p());
    vstd::arithmetic::div_mod::lemma_small_mod(slack, p());
    vstd::arithmetic::div_mod::lemma_small_mod(0, p());
    vstd::arithmetic::div_mod::lemma_small_mod(1, p());
    vstd::arithmetic::div_mod::lemma_small_mod(Q as nat, p());
    vstd::arithmetic::div_mod::lemma_small_mod((NORM_BOUND - 1) as nat, p());
    vstd::arithmetic::div_mod::lemma_small_mod(z + z, p());
    vstd::arithmetic::power2::lemma2_to64();
    assert forall|k: nat| k < RULES implies #[trigger] norm_rule(base, k, row) == 0 by {
        if k == 0 {
            if z <= Q / 2 {
                vstd::arithmetic::div_mod::lemma_small_mod((Q - (z + z)) as nat, p());
            } else {
                let d = (z + z - Q) as nat;
                vstd::arithmetic::div_mod::lemma_mod_add_multiples_vanish(-(d as int), p() as int);
                vstd::arithmetic::div_mod::lemma_small_mod((p() - d) as nat, p());
                assert(((Q as nat) as int - (z + z) as int) % (p() as int) == (p() - d) as int);
                assert(((mag as int) - (z as int)) % (p() as int) == (p() - d) as int);
                vstd::arithmetic::div_mod::lemma_small_mod((p() - d) as nat, p());
            }
        } else if k == 1 {
            lemma_bit_rule(row, (base + COL_SIGN) as nat);
        } else if k == 2 {
            lemma_recompose_bits(row, (base + COL_MAG_BITS) as nat, NORM_BITS as nat, mag);
            vstd::arithmetic::div_mod::lemma_small_mod(mag, pow2(NORM_BITS as nat));
        } else if k == 3 {
            lemma_recompose_bits(row, (base + COL_MAG_SLACK) as nat, NORM_BITS as nat, slack);
            vstd::arithmetic::div_mod::lemma_small_mod(slack, pow2(NORM_BITS as nat));
        } else {
            if k < 4 + NORM_BITS {
                let j = (k - 4) as nat;
                assert(cell_val(row, (base + COL_MAG_BITS + j) as int) == bit_of(mag, j));
            } else {
                let j = (k - 4 - NORM_BITS) as nat;
                assert(cell_val(row, (base + COL_MAG_SLACK + j) as int) == bit_of(slack, j));
            }
            lemma_bit_rule(row, (base + k - 1) as nat);
        }
    }
}

/// A row filled from a coefficient below the modulus whose centered
/// magnitude reaches the bound breaks the magnitude rule or the slack rule.
pub proof fn law_filled_row_breaks_rules(row: Seq<Felt>, base: nat, z: nat)
    requires
        z < Q,
        centered_magnitude(z) >= NORM_BOUND,
        norm_row_filled(row, base, z),
    ensures
        norm_rule(base, 2, row) != 0 || norm_rule(base, 3, row) != 0,
{
    let mag = centered_magnitude(z);
    let slack = norm_slack(mag);
    vstd::arithmetic::power2::lemma2_to64();
    assert(pow2(NORM_BITS as nat) == 0x10_0000);
    vstd::arithmetic::div_mod::lemma_small_mod(mag, p());
    assert(mag < 0x80_0000);
    lemma_recompose_bits(row, (base + COL_MAG_BITS) as nat, NORM_BITS as nat, mag);
    lemma_recompose_bits(row, (base + COL_MAG_SLACK) as nat, NORM_BITS as nat, slack);
    if mag >= 0x10_0000 {
        let low = mag % 0x10_0000;
        assert(low < mag);
        vstd::arithmetic::div_mod::lemma_mod_add_multiples_vanish((low as int - mag as int), p() as int);
        vstd::arithmetic::div_mod::lemma_small_mod((p() as int + low as int - mag as int) as nat, p());
        assert(norm_rule(base, 2, row) == fsub(low, mag));
        assert((low as int - mag as int) % (p() as int) == p() as int + low as int - mag as int) by {
            vstd::arithmetic::div_mod::lemma_mod_add_multiples_vanish(low as int - mag as int, p() as int);
        }
    } else {
        let d = (mag - (NORM_BOUND - 1)) as nat;
        assert(slack == 0x1_0000_0000_0000_0000 - d);
        assert(0x1_0000_0000_0000_0000 == 0x10_0000 * 0x1000_0000_0000nat);
        assert(slack % 0x10_0000 == 0x10_0000 - d) by {
            vstd::arithmetic::div_mod::lemma_mod_multiples_vanish(0x1000_0000_0000 - 1, (0x10_0000 - d) as int, 0x10_0000);
            assert(slack as int == 0x10_0000 * (0x1000_0000_0000 - 1) + (0x10_0000 - d) as int);
            vstd::arithmetic::div_mod::lemma_small_mod((0x10_0000 - d) as nat, 0x10_0000);
        }
        let inner = fsub((NORM_BOUND - 1) as nat, mag % p());
        assert(inner == (p() - d) as nat) by {
            vstd::arithmetic::div_mod::lemma_mod_add_multiples_vanish(-(d as int), p() as int);
            vstd::arithmetic::div_mod::lemma_small_mod((p() - d) as nat, p());
        }
        assert(norm_rule(base, 3, row) == fsub((0x10_0000 - d) as nat, inner));
        assert(fsub((0x10_0000 - d) as nat, (p() - d) as nat) == 0x10_0000) by {
            assert((0x10_0000 - d) as int - (p() - d) as int == 0x10_0000 - p() as int);
            vstd::arithmetic::div_mod::lemma_mod_add_multiples_vanish(0x10_0000 - p() as int, p() as int);
            vstd::arithmetic::div_mod::lemma_small_mod(0x10_0000, p());
        }
    }
}

/// A filled norm batch with its description.
pub struct NormBatch {
    pub air: Air,
    pub trace: TraceTable,
    /// The number of real coefficients before padding.
    pub count: usize,
}

/// Lays out a trace that checks the infinity norm of a batch of coefficients,
/// each reduced first, padded with zero coefficients up to a power of two
/// length of at least two. The trace meets the description exactly when every
/// reduced coefficient is inside the bound.
pub fn norm_batch(coefficients: &[u64]) -> (batch: NormBatch)
    requires
        WIDTH * next_pow2(coefficients@.len()) <= usize::MAX,
    ensures
        describes_norm(batch.air, padded_len(coefficients@.len())),
        batch.count == coefficients@.len(),
        batch.air.wf(),
        batch.air.spec_base_width() == WIDTH,
        batch.air.spec_length() == padded_len(coefficients@.len()),
        batch.trace.spec_width() == WIDTH,
        batch.trace.spec_length() == padded_len(coefficients@.len()),
        single_rows_appended(
            Seq::empty(),
            batch.air.spec_transitions(),
            RULES as nat,
            |k: nat| norm_degree(k),
            |k: nat, row: Seq<Felt>| norm_rule(0, k, row),
        ),
        batch.air.spec_boundaries().len() == 0,
        forall|r: int| 0 <= r < coefficients@.len() ==> norm_row_filled(
            #[trigger] batch.trace.spec_row(r), 0, (coefficients@[r] % Q) as nat),
        forall|r: int| coefficients@.len() <= r < batch.trace.spec_length() ==> norm_row_filled(
            #[trigger] batch.trace.spec_row(r), 0, 0),
        batch.air.spec_satisfied(&batch.trace) <==> (forall|r: int| 0 <= r < coefficients@.len()
            ==> centered_magnitude(#[trigger] (coefficients@[r] % Q) as nat) < NORM_BOUND),
{
    let count = coefficients.len();
    proof {
        crate::util::lemma_next_pow2(count as nat);
    }
    assert(next_pow2(count as nat) <= WIDTH * next_pow2(count as nat)) by (nonlinear_arith)
        requires next_pow2(count as nat) >= 1;
    let length = padded_length(count);
    assert(WIDTH * length <= usize::MAX) by (nonlinear_arith)
        requires WIDTH * next_pow2(count as nat) <= usize::MAX, next_pow2(count as nat) >= 1,
            length == next_pow2(count as nat) || length == 2;
    let mut trace = TraceTable::new(WIDTH, length);
    let mut row: usize = 0;
    while row < length
        invariant
            row <= length,
            count == coefficients@.len(),
            length == padded_len(count as nat),
            trace.spec_width() == WIDTH,
            trace.spec_length() == length,
            forall|r: int| 0 <= r < row && r < count ==> norm_row_filled(
                #[trigger] trace.spec_row(r), 0, (coefficients@[r] % Q) as nat),
            forall|r: int| count <= r < row ==> norm_row_filled(#[trigger] trace.spec_row(r), 0, 0),
        decreases length - row,
    {
        let z = if row < count { coefficients[row] % Q } else { 0 };
        let ghost before = trace;
        fill_row(&mut trace, 0, row, z);
        proof {
            assert forall|r: int| 0 <= r < row implies #[trigger] trace.spec_row(r) == before.spec_row(r) by {
                assert(trace.spec_row(r) =~= before.spec_row(r));
            }
        }
        row = row + 1;
    }
    let air = norm_air(length);
    proof {
        if forall|r: int| 0 <= r < count ==> centered_magnitude(#[trigger] (coefficients@[r] % Q) as nat) < NORM_BOUND {
            let rule = |k: nat, row: Seq<Felt>| norm_rule(0, k, row);
            assert forall|r: int, k: nat| 0 <= r < air.spec_length() && k < RULES
                implies #[trigger] rule(k, trace.spec_row(r)) == 0 by {
                if r < count {
                    assert(centered_magnitude((coefficients@[r] % Q) as nat) < NORM_BOUND);
                    law_filled_row_meets_rules(trace.spec_row(r), 0, (coefficients@[r] % Q) as nat);
                } else {
                    law_filled_row_meets_rules(trace.spec_row(r), 0, 0);
                }
            }
            lemma_rules_met(&air, &trace, RULES as nat, |k: nat| norm_degree(k), rule);
        } else {
            let r = choose|r: int| 0 <= r < count && !(centered_magnitude(#[trigger] (coefficients@[r] % Q) as nat) < NORM_BOUND);
            let row_r = trace.spec_row(r);
            law_filled_row_breaks_rules(row_r, 0, (coefficients@[r] % Q) as nat);
            let n = air.spec_length() as int;
            let next = trace.spec_row((r + 1) % n);
            let t = air.spec_transitions();
            assert(t[2].rule.value(row_r, next) == norm_rule(0, 2, row_r));
            assert(t[3].rule.value(row_r, next) == norm_rule(0, 3, row_r));
            if norm_rule(0, 2, row_r) != 0 {
                assert(!air.transition_ok(&trace, r, 2));
            } else {
                assert(!air.transition_ok(&trace, r, 3));
            }
        }
    }
    NormBatch { air, trace, count }
}


/// A filled row stays filled when the piece's columns are unchanged.
pub proof fn lemma_filled_frame(a: Seq<Felt>, b: Seq<Felt>, base: nat, z: nat)
    requires
        norm_row_filled(a, base, z),
        rows_agree(a, b, base, (base + WIDTH) as nat),
    ensures
        norm_row_filled(b, base, z),
{
    assert(cell_val(b, (base + COL_Z) as int) == cell_val(a, (base + COL_Z) as int));
    assert(cell_val(b, (base + COL_SIGN) as int) == cell_val(a, (base + COL_SIGN) as int));
    assert(cell_val(b, (base + COL_MAG) as int) == cell_val(a, (base + COL_MAG) as int));
    assert forall|k: nat| k < NORM_BITS implies #[trigger] cell_val(b, (base + COL_MAG_BITS + k) as int) == cell_val(a, (base + COL_MAG_BITS + k) as int) by {}
    assert forall|k: nat| k < NORM_BITS implies #[trigger] cell_val(b, (base + COL_MAG_SLACK + k) as int) == cell_val(a, (base + COL_MAG_SLACK + k) as int) by {}
}
/// The centered magnitude of a residue is its distance to zero modulo the
/// lattice prime: the residue itself or the prime less it, whichever is at
/// most half the prime.
pub proof fn law_centered_magnitude(z: nat)
    requires
        z < Q,
    ensures
        centered_magnitude(z) <= (Q - 1) / 2,
        centered_magnitude(z) == z || centered_magnitude(z) + z == Q,
        centered_sign(z) == 1 <==> centered_magnitude(z) != z,
{
}

} // verus!
