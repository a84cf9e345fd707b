//! Modular multiplication over the signature modulus, as a constraint piece:
//! each row proves a times b equals a quotient times the modulus plus a
//! canonical residue.
use vstd::prelude::*;
use vstd::arithmetic::power2::pow2;
use crate::air::{
    Air, Expr, TraceTable, bit_of, bool_val, cell_val, fill_bits, lemma_append_rule, recompose_val,
    lemma_bit_rule, lemma_recompose_bits, lemma_rules_met, rows_agree,
    single_rows_appended, Transition,
};
use crate::field::{Felt, fmul, fsub, p};
use crate::util::{is_pow2, next_pow2, padded_len, padded_length};

verus! {

broadcast use TraceTable::lemma_width_fits, TraceTable::lemma_length_fits;

/// The signature modulus.
pub const Q: u64 = 8_380_417;

/// The number of coefficients of a ring element.
pub const RING_DEGREE: usize = 256;

/// The bit width that covers a residue.
pub const RESIDUE_BITS: usize = 23;

/// The rows of the public matrix.
pub const MATRIX_ROWS: usize = 6;

/// The columns of the public matrix.
pub const MATRIX_COLS: usize = 5;

/// The coefficient products one signature verification performs.
pub const PRODUCTS_PER_SIGNATURE: usize = MATRIX_ROWS * MATRIX_COLS * RING_DEGREE;

/// The first factor column, relative to the piece base.
pub const COL_A: usize = 0;
/// The second factor column.
pub const COL_B: usize = 1;
/// The residue column.
pub const COL_R: usize = 2;
/// The quotient column.
pub const COL_QUO: usize = 3;
/// The first residue bit column.
pub const COL_R_BITS: usize = 4;
/// The first bit column of the modulus less one less the residue.
pub const COL_S_BITS: usize = COL_R_BITS + RESIDUE_BITS;
/// The first quotient bit column.
pub const COL_QUO_BITS: usize = COL_S_BITS + RESIDUE_BITS;

/// The column width of the piece.
pub const WIDTH: usize = COL_QUO_BITS + RESIDUE_BITS;

/// The number of rules the piece adds.
pub const RULES: usize = 4 + 3 * RESIDUE_BITS;

/// One step of the xorshift generator.
pub open spec fn xorshift_step(s: u64) -> u64 {
    let a = s ^ (s << 13u64);
    let b = a ^ (a >> 7u64);
    b ^ (b << 17u64)
}

/// The generator state after k steps from an odd seed.
pub open spec fn xorshift_state(seed: u64, k: nat) -> u64
    decreases k,
{
    if k == 0 {
        seed | 1
    } else {
        xorshift_step(xorshift_state(seed, (k - 1) as nat))
    }
}

/// A reproducible stream of factor pairs below the modulus: pair i takes
/// draws 2i plus one and 2i plus two of the generator, each reduced.
pub fn signature_batch_workload(signatures: usize, seed: u64) -> (w: Vec<(u64, u64)>)
    requires
        signatures * PRODUCTS_PER_SIGNATURE <= usize::MAX,
    ensures
        w@.len() == signatures * PRODUCTS_PER_SIGNATURE,
        forall|i: int| 0 <= i < w@.len() ==> (#[trigger] w@[i]).0 == xorshift_state(seed, (2 * i + 1) as nat) % Q
            && w@[i].1 == xorshift_state(seed, (2 * i + 2) as nat) % Q,
{
    let total = signatures * PRODUCTS_PER_SIGNATURE;
    let mut state = seed | 1;
    let mut w: Vec<(u64, u64)> = Vec::new();
    let mut i: usize = 0;
    while i < total
        invariant
            i <= total,
            w@.len() == i,
            state == xorshift_state(seed, (2 * i) as nat),
            forall|j: int| 0 <= j < i ==> (#[trigger] w@[j]).0 == xorshift_state(seed, (2 * j + 1) as nat) % Q
                && w@[j].1 == xorshift_state(seed, (2 * j + 2) as nat) % Q,
        decreases total - i,
    {
        let ghost prev = state;
        state = state ^ (state << 13u64);
        state = state ^ (state >> 7u64);
        state = state ^ (state << 17u64);
        assert(state == xorshift_step(prev));
        assert(state == xorshift_state(seed, (2 * i + 1) as nat));
        let a = state % Q;
        let ghost mid = state;
        state = state ^ (state << 13u64);
        state = state ^ (state >> 7u64);
        state = state ^ (state << 17u64);
        assert(state == xorshift_step(mid));
        assert(state == xorshift_state(seed, (2 * i + 2) as nat));
        let b = state % Q;
        w.push((a, b));
        i = i + 1;
    }
    w
}

/// The degree of rule k of the piece.
pub open spec fn modmul_degree(k: nat) -> nat {
    if k == 0 { 2 } else if k < 4 { 1 } else { 2 }
}

/// The value of rule k of the piece on a row, the piece starting at a base
/// column.
pub open spec fn modmul_rule(base: nat, k: nat, row: Seq<Felt>) -> nat {
    let a = cell_val(row, (base + COL_A) as int);
    let b = cell_val(row, (base + COL_B) as int);
    let r = cell_val(row, (base + COL_R) as int);
    let quo = cell_val(row, (base + COL_QUO) as int);
    if k == 0 {
        fsub(fsub(fmul(a, b), fmul(quo, Q as nat)), r)
    } else if k == 1 {
        fsub(recompose_val(row, (base + COL_R_BITS) as nat, RESIDUE_BITS as nat), r)
    } else if k == 2 {
        fsub(recompose_val(row, (base + COL_S_BITS) as nat, RESIDUE_BITS as nat), fsub((Q - 1) as nat, r))
    } else if k == 3 {
        fsub(recompose_val(row, (base + COL_QUO_BITS) as nat, RESIDUE_BITS as nat), quo)
    } else {
        bool_val(row, (base + k) as nat)
    }
}

/// Adds the modular product rules for a piece at the given column base.
pub fn add_constraints(air: &mut Air, base: usize)
    requires
        old(air).wf(),
        base + WIDTH <= old(air).spec_base_width(),
    ensures
        final(air).wf(),
        single_rows_appended(
            old(air).spec_transitions(),
            final(air).spec_transitions(),
            RULES as nat,
            |k: nat| modmul_degree(k),
            |k: nat, row: Seq<Felt>| modmul_rule(base as nat, k, row),
        ),
        final(air).spec_boundaries() == old(air).spec_boundaries(),
        final(air).spec_permutations() == old(air).spec_permutations(),
        final(air).spec_base_width() == old(air).spec_base_width(),
        final(air).spec_aux_width() == old(air).spec_aux_width(),
        final(air).spec_length() == old(air).spec_length(),
        final(air).spec_num_challenges() == old(air).spec_num_challenges(),
{
    let ghost start = air.spec_transitions();
    let ghost degree = |k: nat| modmul_degree(k);
    let ghost rule = |k: nat, row: Seq<Felt>| modmul_rule(base as nat, k, row);
    let modulus = Felt::new(Q);
    let modulus_minus_one = Felt::new(Q - 1);
    proof {
        vstd::arithmetic::div_mod::lemma_small_mod(Q as nat, p());
        vstd::arithmetic::div_mod::lemma_small_mod((Q - 1) as nat, p());
        reveal_with_fuel(Expr::value, 5);
        reveal_with_fuel(Expr::reads_below, 5);
        assert(single_rows_appended(start, air.spec_transitions(), 0, degree, rule));
    }
    let a = base + COL_A;
    let b = base + COL_B;
    let r = base + COL_R;
    let quo = base + COL_QUO;

    let e0 = Expr::cur(a).mul(Expr::cur(b)).sub(Expr::cur(quo).mul(Expr::constant(modulus))).sub(Expr::cur(r));
    let ghost mid = air.spec_transitions();
    air.add_single_row(2, e0);
    proof { lemma_append_rule(start, mid, air.spec_transitions(), 0, degree, rule, air.spec_transitions().last()); }

    let rc = Expr::recompose(base + COL_R_BITS, RESIDUE_BITS);
    proof { assert(rc.reads_below(air.spec_base_width())); }
    let e1 = rc.sub(Expr::cur(r));
    proof {
        assert forall|cur: Seq<Felt>, next: Seq<Felt>| #[trigger] e1.value(cur, next) == rule(1, cur) by {
            assert(rc.value(cur, next) == recompose_val(cur, (base + COL_R_BITS) as nat, RESIDUE_BITS as nat));
        }
    }
    let ghost mid = air.spec_transitions();
    air.add_single_row(1, e1);
    proof { lemma_append_rule(start, mid, air.spec_transitions(), 1, degree, rule, air.spec_transitions().last()); }

    let rc = Expr::recompose(base + COL_S_BITS, RESIDUE_BITS);
    proof { assert(rc.reads_below(air.spec_base_width())); }
    let e2 = rc.sub(Expr::constant(modulus_minus_one).sub(Expr::cur(r)));
    proof {
        assert forall|cur: Seq<Felt>, next: Seq<Felt>| #[trigger] e2.value(cur, next) == rule(2, cur) by {
            assert(rc.value(cur, next) == recompose_val(cur, (base + COL_S_BITS) as nat, RESIDUE_BITS as nat));
        }
    }
    let ghost mid = air.spec_transitions();
    air.add_single_row(1, e2);
    proof { lemma_append_rule(start, mid, air.spec_transitions(), 2, degree, rule, air.spec_transitions().last()); }

    let rc = Expr::recompose(base + COL_QUO_BITS, RESIDUE_BITS);
    proof { assert(rc.reads_below(air.spec_base_width())); }
    let e3 = rc.sub(Expr::cur(quo));
    proof {
        assert forall|cur: Seq<Felt>, next: Seq<Felt>| #[trigger] e3.value(cur, next) == rule(3, cur) by {
            assert(rc.value(cur, next) == recompose_val(cur, (base + COL_QUO_BITS) as nat, RESIDUE_BITS as nat));
        }
    }
    let ghost mid = air.spec_transitions();
    air.add_single_row(1, e3);
    proof { lemma_append_rule(start, mid, air.spec_transitions(), 3, degree, rule, air.spec_transitions().last()); }

    let mut k: usize = 4;
    while k < RULES
        invariant
            4 <= k <= RULES,
            air.wf(),
            base + WIDTH <= air.spec_base_width(),
            single_rows_appended(start, air.spec_transitions(), k as nat, degree, rule),
            degree == (|k: nat| modmul_degree(k)),
            rule == (|k: nat, row: Seq<Felt>| modmul_rule(base as nat, k, row)),
            air.spec_boundaries() == old(air).spec_boundaries(),
            air.spec_permutations() == old(air).spec_permutations(),
            air.spec_base_width() == old(air).spec_base_width(),
            air.spec_aux_width() == old(air).spec_aux_width(),
            air.spec_length() == old(air).spec_length(),
            air.spec_num_challenges() == old(air).spec_num_challenges(),
        decreases RULES - k,
    {
        let e = Expr::boolean(base + k);
        proof {
            assert(e.reads_below(air.spec_base_width()));
            assert forall|cur: Seq<Felt>, next: Seq<Felt>| #[trigger] e.value(cur, next) == rule(k as nat, cur) by {
                assert(e.value(cur, next) == bool_val(cur, (base + k) as nat));
            }
        }
        let ghost mid = air.spec_transitions();
        air.add_single_row(2, e);
        proof { lemma_append_rule(start, mid, air.spec_transitions(), k as nat, degree, rule, air.spec_transitions().last()); }
        k = k + 1;
    }
}

/// What the description of a batch of products of the given length holds:
/// the piece's rules at column zero on every row, nothing else.
pub open spec fn describes_modmul(air: Air, length: nat) -> bool {
    &&& air.wf()
    &&& air.spec_base_width() == WIDTH
    &&& air.spec_length() == length
    &&& air.spec_aux_width() == 0
    &&& air.spec_num_challenges() == 0
    &&& air.spec_boundaries().len() == 0
    &&& single_rows_appended(Seq::empty(), air.spec_transitions(), RULES as nat,
        |k: nat| modmul_degree(k), |k: nat, row: Seq<Felt>| modmul_rule(0, k, row))
}

/// The description of a batch of modular products of the given length.
pub fn modmul_air(length: usize) -> (air: Air)
    requires
        is_pow2(length as nat),
    ensures
        describes_modmul(air, length as nat),
        air.wf(),
        air.spec_base_width() == WIDTH,
        air.spec_length() == length,
        air.spec_aux_width() == 0,
        air.spec_num_challenges() == 0,
        air.spec_boundaries().len() == 0,
        single_rows_appended(
            Seq::empty(),
            air.spec_transitions(),
            RULES as nat,
            |k: nat| modmul_degree(k),
            |k: nat, row: Seq<Felt>| modmul_rule(0, k, row),
        ),
{
    let mut air = Air::new(WIDTH, length);
    add_constraints(&mut air, 0);
    air
}

/// The residue of a product.
pub open spec fn product_residue(a: u64, b: u64) -> nat {
    ((a as nat) * (b as nat)) % (Q as nat)
}

/// The quotient of a product by the modulus, kept to a word.
pub open spec fn product_quotient(a: u64, b: u64) -> u64 {
    (((a as nat) * (b as nat)) / (Q as nat)) as u64
}

/// The cells a filled piece row holds: the factors, the residue, the quotient
/// and the bits of the residue, of the modulus less one less the residue, and
/// of the quotient.
pub open spec fn modmul_row_filled(row: Seq<Felt>, base: nat, a: u64, b: u64) -> bool {
    let residue = product_residue(a, b);
    let quotient = product_quotient(a, b) as nat;
    let slack = ((Q - 1) as nat - residue) as nat;
    &&& cell_val(row, (base + COL_A) as int) == a as nat % p()
    &&& cell_val(row, (base + COL_B) as int) == b as nat % p()
    &&& cell_val(row, (base + COL_R) as int) == residue
    &&& cell_val(row, (base + COL_QUO) as int) == quotient % p()
    &&& forall|k: nat| k < RESIDUE_BITS ==> #[trigger] cell_val(row, (base + COL_R_BITS + k) as int) == bit_of(residue, k)
    &&& forall|k: nat| k < RESIDUE_BITS ==> #[trigger] cell_val(row, (base + COL_S_BITS + k) as int) == bit_of(slack, k)
    &&& forall|k: nat| k < RESIDUE_BITS ==> #[trigger] cell_val(row, (base + COL_QUO_BITS + k) as int) == bit_of(quotient, k)
}

/// Fills one modular product row at the given column base.
pub fn fill_row(trace: &mut TraceTable, base: usize, row: usize, a: u64, b: u64)
    requires
        base + WIDTH <= old(trace).spec_width(),
        row < old(trace).spec_length(),
    ensures
        final(trace).spec_width() == old(trace).spec_width(),
        final(trace).spec_length() == old(trace).spec_length(),
        modmul_row_filled(final(trace).spec_row(row as int), base as nat, a, b),
        forall|c: int, r: int| (r != row || c < base || c >= base + WIDTH) && 0 <= c < old(trace).spec_width()
            && 0 <= r < old(trace).spec_length() ==> #[trigger] final(trace).cell(c, r) == old(trace).cell(c, r),
{
    assert((a as u128) * (b as u128) <= u128::MAX) by (nonlinear_arith);
    let product = (a as u128) * (b as u128);
    let quotient = #[verifier::truncate] ((product / (Q as u128)) as u64);
    let residue = (product % (Q as u128)) as u64;
    let slack = Q - 1 - residue;
    trace.set(base + COL_A, row, Felt::new(a));
    trace.set(base + COL_B, row, Felt::new(b));
    trace.set(base + COL_R, row, Felt::new(residue));
    trace.set(base + COL_QUO, row, Felt::new(quotient));
    fill_bits(trace, base + COL_R_BITS, row, residue, RESIDUE_BITS);
    fill_bits(trace, base + COL_S_BITS, row, slack, RESIDUE_BITS);
    fill_bits(trace, base + COL_QUO_BITS, row, quotient, RESIDUE_BITS);
    proof {
        vstd::arithmetic::div_mod::lemma_small_mod(residue as nat, p());
        let rv = trace.spec_row(row as int);
        assert forall|k: nat| k < RESIDUE_BITS implies #[trigger] cell_val(rv, (base + COL_R_BITS + k) as int) == bit_of(residue as nat, k) by {
            assert(trace.cell((base + COL_R_BITS) as int + k as int, row as int).val() == bit_of(residue as nat, k));
        }
        assert forall|k: nat| k < RESIDUE_BITS implies #[trigger] cell_val(rv, (base + COL_S_BITS + k) as int) == bit_of(slack as nat, k) by {
            assert(trace.cell((base + COL_S_BITS) as int + k as int, row as int).val() == bit_of(slack as nat, k));
        }
        assert forall|k: nat| k < RESIDUE_BITS implies #[trigger] cell_val(rv, (base + COL_QUO_BITS + k) as int) == bit_of(quotient as nat, k) by {
            assert(trace.cell((base + COL_QUO_BITS) as int + k as int, row as int).val() == bit_of(quotient as nat, k));
        }
    }
}

/// A filled batch of modular products with its description.
pub struct ModMulBatch {
    pub air: Air,
    pub trace: TraceTable,
    /// The number of real products before padding.
    pub count: usize,
}

/// Lays out a trace that proves a batch of modular products, each factor
/// reduced first, padded with zero products up to a power of two length of
/// at least two.
pub fn modmul_batch(inputs: &[(u64, u64)]) -> (batch: ModMulBatch)
    requires
        WIDTH * next_pow2(inputs@.len()) <= usize::MAX,
    ensures
        batch.count == inputs@.len(),
        describes_modmul(batch.air, padded_len(inputs@.len())),
        batch.air.wf(),
        batch.air.spec_base_width() == WIDTH,
        batch.air.spec_length() == padded_len(inputs@.len()),
        batch.trace.spec_width() == WIDTH,
        batch.trace.spec_length() == padded_len(inputs@.len()),
        single_rows_appended(
            Seq::empty(),
            batch.air.spec_transitions(),
            RULES as nat,
            |k: nat| modmul_degree(k),
            |k: nat, row: Seq<Felt>| modmul_rule(0, k, row),
        ),
        batch.air.spec_boundaries().len() == 0,
        forall|r: int| 0 <= r < inputs@.len() ==> modmul_row_filled(
            #[trigger] batch.trace.spec_row(r), 0, inputs@[r].0 % Q, inputs@[r].1 % Q),
        forall|r: int| inputs@.len() <= r < batch.trace.spec_length() ==> modmul_row_filled(
            #[trigger] batch.trace.spec_row(r), 0, 0, 0),
        batch.air.spec_satisfied(&batch.trace),
{
    let count = inputs.len();
    proof {
        crate::util::lemma_next_pow2(count as nat);
    }
    assert(next_pow2(count as nat) <= WIDTH * next_pow2(count as nat)) by (nonlinear_arith)
        requires next_pow2(count as nat) >= 1;
    let length = padded_length(count);
    assert(WIDTH * length <= usize::MAX) by (nonlinear_arith)
        requires WIDTH * next_pow2(count as nat) <= usize::MAX, length <= 2 * next_pow2(count as nat), next_pow2(count as nat) >= 1,
            length == next_pow2(count as nat) || length == 2;
    let mut trace = TraceTable::new(WIDTH, length);
    let mut row: usize = 0;
    while row < length
        invariant
            row <= length,
            count == inputs@.len(),
            length == padded_len(count as nat),
            trace.spec_width() == WIDTH,
            trace.spec_length() == length,
            forall|r: int| 0 <= r < row && r < count ==> modmul_row_filled(
                #[trigger] trace.spec_row(r), 0, inputs@[r].0 % Q, inputs@[r].1 % Q),
            forall|r: int| count <= r < row ==> modmul_row_filled(#[trigger] trace.spec_row(r), 0, 0, 0),
        decreases length - row,
    {
        let (a, b) = if row < count { inputs[row] } else { (0, 0) };
        let ghost before = trace;
        fill_row(&mut trace, 0, row, a % Q, b % Q);
        proof {
            assert forall|r: int| 0 <= r < row implies #[trigger] trace.spec_row(r) == before.spec_row(r) by {
                assert(trace.spec_row(r) =~= before.spec_row(r));
            }
        }
        row = row + 1;
    }
    let air = modmul_air(length);
    proof {
        let rule = |k: nat, row: Seq<Felt>| modmul_rule(0, k, row);
        assert forall|r: int, k: nat| 0 <= r < air.spec_length() && k < RULES
            implies #[trigger] rule(k, trace.spec_row(r)) == 0 by {
            if r < count {
                law_filled_row_meets_rules(trace.spec_row(r), 0, inputs@[r].0 % Q, inputs@[r].1 % Q);
            } else {
                law_filled_row_meets_rules(trace.spec_row(r), 0, 0, 0);
            }
        }
        lemma_rules_met(&air, &trace, RULES as nat, |k: nat| modmul_degree(k), rule);
    }
    ModMulBatch { air, trace, count }
}


/// The residue, the slack and the quotient of factors below the modulus all
/// lie below the modulus.
proof fn lemma_product_parts(a: u64, b: u64)
    requires
        a < Q,
        b < Q,
    ensures
        (a as nat) * (b as nat) == (product_quotient(a, b) as nat) * (Q as nat) + product_residue(a, b),
        product_residue(a, b) < Q,
        (product_quotient(a, b) as nat) < Q,
        (a as nat) * (b as nat) < p(),
        (product_quotient(a, b) as nat) * (Q as nat) <= (a as nat) * (b as nat),
{
    let ab = (a as nat) * (b as nat);
    assert((a as nat) * (b as nat) < (Q as nat) * (Q as nat)) by (nonlinear_arith)
        requires a < Q, b < Q;
    vstd::arithmetic::div_mod::lemma_fundamental_div_mod(ab as int, Q as int);
    vstd::arithmetic::div_mod::lemma_div_is_ordered(ab as int, ((Q as nat) * (Q as nat)) as int, Q as int);
    vstd::arithmetic::div_mod::lemma_div_by_multiple((Q as nat) as int, Q as int);
    assert(ab / (Q as nat) < Q) by {
        vstd::arithmetic::div_mod::lemma_div_by_multiple_is_strongly_ordered(ab as int, ((Q as nat) * (Q as nat)) as int, Q as int, Q as int);
    }
}

/// A row filled from factors below the modulus meets every rule of the piece.
pub proof fn law_filled_row_meets_rules(row: Seq<Felt>, base: nat, a: u64, b: u64)
    requires
        a < Q,
        b < Q,
        modmul_row_filled(row, base, a, b),
    ensures
        forall|k: nat| k < RULES ==> #[trigger] modmul_rule(base, k, row) == 0,
{
    lemma_product_parts(a, b);
    let residue = product_residue(a, b);
    let quotient = product_quotient(a, b) as nat;
    let slack = ((Q - 1) as nat - residue) as nat;
    vstd::arithmetic::div_mod::lemma_small_mod(a as nat, p());
    vstd::arithmetic::div_mod::lemma_small_mod(b as nat, p());
    vstd::arithmetic::div_mod::lemma_small_mod(quotient, p());
    vstd::arithmetic::div_mod::lemma_small_mod(residue, p());
    vstd::arithmetic::div_mod::lemma_small_mod((Q - 1) as nat, p());
    vstd::arithmetic::power2::lemma2_to64();
    assert forall|k: nat| k < RULES implies #[trigger] modmul_rule(base, k, row) == 0 by {
        if k == 0 {
            let ab = (a as nat) * (b as nat);
            vstd::arithmetic::div_mod::lemma_small_mod(ab, p());
            assert(quotient * (Q as nat) <= ab);
            vstd::arithmetic::div_mod::lemma_small_mod(quotient * (Q as nat), p());
            vstd::arithmetic::div_mod::lemma_small_mod((ab - quotient * (Q as nat)) as nat, p());
            vstd::arithmetic::div_mod::lemma_small_mod(0, p());
        } else if k == 1 {
            lemma_recompose_bits(row, (base + COL_R_BITS) as nat, RESIDUE_BITS as nat, residue);
            vstd::arithmetic::div_mod::lemma_small_mod(residue, pow2(RESIDUE_BITS as nat));
            vstd::arithmetic::div_mod::lemma_small_mod(0, p());
        } else if k == 2 {
            assert forall|j: nat| j < RESIDUE_BITS implies #[trigger] cell_val(row, (base + COL_S_BITS + j) as int) == bit_of(slack, j) by {
                assert(cell_val(row, (base + COL_S_BITS + j) as int) == bit_of(slack, j));
            }
            lemma_recompose_bits(row, (base + COL_S_BITS) as nat, RESIDUE_BITS as nat, slack);
            vstd::arithmetic::div_mod::lemma_small_mod(slack, pow2(RESIDUE_BITS as nat));
            vstd::arithmetic::div_mod::lemma_small_mod(slack, p());
            vstd::arithmetic::div_mod::lemma_small_mod(0, p());
        } else if k == 3 {
            lemma_recompose_bits(row, (base + COL_QUO_BITS) as nat, RESIDUE_BITS as nat, quotient);
            vstd::arithmetic::div_mod::lemma_small_mod(quotient, pow2(RESIDUE_BITS as nat));
            vstd::arithmetic::div_mod::lemma_small_mod(0, p());
        } else {
            let j = (k - 4) as nat;
            if k < COL_S_BITS {
                assert(cell_val(row, (base + COL_R_BITS + j) as int) == bit_of(residue, j));
            } else if k < COL_QUO_BITS {
                let j2 = (k - COL_S_BITS) as nat;
                assert(cell_val(row, (base + COL_S_BITS + j2) as int) == bit_of(slack, j2));
            } else {
                let j3 = (k - COL_QUO_BITS) as nat;
                assert(cell_val(row, (base + COL_QUO_BITS + j3) as int) == bit_of(quotient, j3));
            }
            lemma_bit_rule(row, (base + k) as nat);
        }
    }
}

/// A filled row stays filled when the piece's columns are unchanged.
pub proof fn lemma_filled_frame(a: Seq<Felt>, b: Seq<Felt>, base: nat, x: u64, y: u64)
    requires
        modmul_row_filled(a, base, x, y),
        rows_agree(a, b, base, (base + WIDTH) as nat),
    ensures
        modmul_row_filled(b, base, x, y),
{
    assert(cell_val(b, (base + COL_A) as int) == cell_val(a, (base + COL_A) as int));
    assert(cell_val(b, (base + COL_B) as int) == cell_val(a, (base + COL_B) as int));
    assert(cell_val(b, (base + COL_R) as int) == cell_val(a, (base + COL_R) as int));
    assert(cell_val(b, (base + COL_QUO) as int) == cell_val(a, (base + COL_QUO) as int));
    assert forall|k: nat| k < RESIDUE_BITS implies #[trigger] cell_val(b, (base + COL_R_BITS + k) as int) == cell_val(a, (base + COL_R_BITS + k) as int) by {}
    assert forall|k: nat| k < RESIDUE_BITS implies #[trigger] cell_val(b, (base + COL_S_BITS + k) as int) == cell_val(a, (base + COL_S_BITS + k) as int) by {}
    assert forall|k: nat| k < RESIDUE_BITS implies #[trigger] cell_val(b, (base + COL_QUO_BITS + k) as int) == cell_val(a, (base + COL_QUO_BITS + k) as int) by {}
}
} // verus!
