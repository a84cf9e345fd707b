//! The fused certificate: a SHAKE256 sponge whose squeezed words are reduced
//! below the modulus into hash coefficients, and beside it the split, hint,
//! modular product and norm pieces, tied to the coefficients and to each
//! other by permutations under one challenge.
use vstd::prelude::*;
use crate::air::{
    Air, Boundary, Expr, ExtExpr, TraceTable, bool_val, cell_val, fill_bits, lemma_append_rule, recompose_val,
    single_rows_appended, transitions_appended, running_product_transition,
};
use crate::field::{Felt, fmul, fsub, p};
use crate::lattice::{self, Q, RESIDUE_BITS, modmul_row_filled};
use crate::decompose::{self, decompose_row_filled};
use crate::hint::{self, hint_row_filled};
use crate::norm::{self, norm_row_filled};
use crate::qudros::{block_degree, block_rule, boundary_is, BLOCK_RULES, HALF_OFF};
use crate::sponge::{
    self, add_sponge_constraints, bounds_follow, lemma_bounds_join, sponge_appended, sponge_bounds, sponge_rule,
    SHAKE256_RATE, SPONGE_WIDTH,
};
use crate::util::{is_pow2, log2, next_pow2, two_pow};

verus! {

broadcast use Felt::lemma_val_injective, TraceTable::lemma_width_fits, TraceTable::lemma_length_fits;

/// The bits of the reduction quotient of a thirty two bit word.
pub const QUO_BITS: usize = 10;
/// The column that is one on the squeeze rows.
pub const SQ_COL: usize = SPONGE_WIDTH;
/// The first column of the reduction piece.
pub const REDUCE_BASE: usize = SQ_COL + 1;
/// The squeezed word on a squeeze row, zero elsewhere.
pub const R_V: usize = REDUCE_BASE;
/// The word reduced below the modulus.
pub const R_R: usize = REDUCE_BASE + 1;
/// The reduction quotient.
pub const R_QUO: usize = REDUCE_BASE + 2;
/// The quotient bits.
pub const R_QUO_BITS: usize = REDUCE_BASE + 3;
/// The residue bits.
pub const R_R_BITS: usize = R_QUO_BITS + QUO_BITS;
/// The bits of the modulus less one less the residue.
pub const R_SLACK_BITS: usize = R_R_BITS + RESIDUE_BITS;
/// The width of the reduction piece.
pub const REDUCE_WIDTH: usize = 3 + QUO_BITS + 2 * RESIDUE_BITS;
/// The number of rules of the reduction piece.
pub const REDUCE_RULES: usize = 6 + QUO_BITS + 2 * RESIDUE_BITS;
/// The first column of the split piece.
pub const DECOMPOSE_BASE: usize = REDUCE_BASE + REDUCE_WIDTH;
/// The first column of the hint piece.
pub const HINT_BASE: usize = DECOMPOSE_BASE + decompose::WIDTH;
/// The first column of the modular product piece.
pub const MODMUL_BASE: usize = HINT_BASE + hint::WIDTH;
/// The first column of the norm piece.
pub const NORM_BASE: usize = MODMUL_BASE + lattice::WIDTH;
/// The base width of the certificate trace.
pub const CERT_WIDTH: usize = NORM_BASE + norm::WIDTH;

/// The degree of reduction rule k.
pub open spec fn reduce_degree(k: nat) -> nat {
    if k < 2 { 2 } else if k < 6 { 1 } else { 2 }
}

/// Reduction rule k on a row: the word is the squeezed low half on a
/// squeeze row and zero elsewhere, it is the quotient times the modulus plus
/// the residue, the quotient, the residue and the slack recompose from their
/// bits, and every bit is a bit.
pub open spec fn reduce_rule(k: nat, row: Seq<Felt>) -> nat {
    let sq = cell_val(row, SQ_COL as int);
    let v = cell_val(row, R_V as int);
    let r = cell_val(row, R_R as int);
    if k == 0 {
        fmul(sq, fsub(v, cell_val(row, HALF_OFF as int)))
    } else if k == 1 {
        fmul(fsub(1, sq), v)
    } else if k == 2 {
        fsub(fsub(v, fmul(cell_val(row, R_QUO as int), Q as nat)), r)
    } else if k == 3 {
        fsub(recompose_val(row, R_QUO_BITS as nat, QUO_BITS as nat), cell_val(row, R_QUO as int))
    } else if k == 4 {
        fsub(recompose_val(row, R_R_BITS as nat, RESIDUE_BITS as nat), r)
    } else if k == 5 {
        fsub(recompose_val(row, R_SLACK_BITS as nat, RESIDUE_BITS as nat), fsub((Q - 1) as nat, r))
    } else if k < 6 + QUO_BITS {
        bool_val(row, (R_QUO_BITS + (k - 6)) as nat)
    } else if k < 6 + QUO_BITS + RESIDUE_BITS {
        bool_val(row, (R_R_BITS + (k - 6 - QUO_BITS)) as nat)
    } else {
        bool_val(row, (R_SLACK_BITS + (k - 6 - QUO_BITS - RESIDUE_BITS)) as nat)
    }
}

fn reduce_rule_expr(k: usize) -> (r: (usize, Expr))
    requires
        k < REDUCE_RULES,
    ensures
        r.0 == reduce_degree(k as nat),
        forall|cur: Seq<Felt>, next: Seq<Felt>| #[trigger] r.1.value(cur, next) == reduce_rule(k as nat, cur),
        r.1.reads_below(CERT_WIDTH as nat),
{
    let one = Felt::one();
    let modulus = Felt::new(Q);
    let modulus_less_one = Felt::new(Q - 1);
    proof {
        vstd::arithmetic::div_mod::lemma_small_mod(Q as nat, p());
        vstd::arithmetic::div_mod::lemma_small_mod((Q - 1) as nat, p());
    }
    if k == 0 {
        let e = Expr::cur(SQ_COL).mul(Expr::cur(R_V).sub(Expr::cur(HALF_OFF)));
        proof {
            reveal_with_fuel(Expr::value, 3);
            reveal_with_fuel(Expr::reads_below, 3);
        }
        (2, e)
    } else if k == 1 {
        let e = Expr::constant(one).sub(Expr::cur(SQ_COL)).mul(Expr::cur(R_V));
        proof {
            reveal_with_fuel(Expr::value, 3);
            reveal_with_fuel(Expr::reads_below, 3);
        }
        (2, e)
    } else if k == 2 {
        let e = Expr::cur(R_V).sub(Expr::cur(R_QUO).mul(Expr::constant(modulus))).sub(Expr::cur(R_R));
        proof {
            reveal_with_fuel(Expr::value, 4);
            reveal_with_fuel(Expr::reads_below, 4);
        }
        (1, e)
    } else if k == 3 {
        (1, recompose_less(R_QUO_BITS, QUO_BITS, Expr::cur(R_QUO)))
    } else if k == 4 {
        (1, recompose_less(R_R_BITS, RESIDUE_BITS, Expr::cur(R_R)))
    } else if k == 5 {
        let slack = Expr::constant(modulus_less_one).sub(Expr::cur(R_R));
        proof {
            reveal_with_fuel(Expr::value, 3);
            reveal_with_fuel(Expr::reads_below, 3);
        }
        (1, recompose_less(R_SLACK_BITS, RESIDUE_BITS, slack))
    } else {
        let col = if k < 6 + QUO_BITS {
            R_QUO_BITS + (k - 6)
        } else if k < 6 + QUO_BITS + RESIDUE_BITS {
            R_R_BITS + (k - 6 - QUO_BITS)
        } else {
            R_SLACK_BITS + (k - 6 - QUO_BITS - RESIDUE_BITS)
        };
        let e = Expr::boolean(col);
        proof {
            assert(e.reads_below(CERT_WIDTH as nat));
        }
        (2, e)
    }
}

fn recompose_less(base: usize, bits: usize, other: Expr) -> (e: Expr)
    requires
        base + bits <= CERT_WIDTH,
        bits <= 64,
        other.reads_below(CERT_WIDTH as nat),
    ensures
        forall|cur: Seq<Felt>, next: Seq<Felt>| #[trigger] e.value(cur, next)
            == fsub(recompose_val(cur, base as nat, bits as nat), other.value(cur, next)),
        e.reads_below(CERT_WIDTH as nat),
{
    let rc = Expr::recompose(base, bits);
    let ghost g = rc;
    let ghost o = other;
    let e = rc.sub(other);
    proof {
        assert forall|cur: Seq<Felt>, next: Seq<Felt>| #[trigger] e.value(cur, next)
            == fsub(recompose_val(cur, base as nat, bits as nat), o.value(cur, next)) by {
            assert(g.value(cur, next) == recompose_val(cur, base as nat, bits as nat));
        }
        assert(g.reads_below(CERT_WIDTH as nat));
    }
    e
}

fn add_reduce_constraints(air: &mut Air)
    requires
        old(air).wf(),
        old(air).spec_base_width() == CERT_WIDTH,
    ensures
        final(air).wf(),
        single_rows_appended(
            old(air).spec_transitions(),
            final(air).spec_transitions(),
            REDUCE_RULES as nat,
            |k: nat| reduce_degree(k),
            |k: nat, row: Seq<Felt>| reduce_rule(k, row),
        ),
        final(air).spec_boundaries() == old(air).spec_boundaries(),
        final(air).spec_permutations() == old(air).spec_permutations(),
        final(air).spec_base_width() == old(air).spec_base_width(),
        final(air).spec_aux_width() == old(air).spec_aux_width(),
        final(air).spec_length() == old(air).spec_length(),
        final(air).spec_num_challenges() == old(air).spec_num_challenges(),
{
    let ghost start = air.spec_transitions();
    let ghost degree = |k: nat| reduce_degree(k);
    let ghost rule = |k: nat, row: Seq<Felt>| reduce_rule(k, row);
    proof {
        assert(single_rows_appended(start, air.spec_transitions(), 0, degree, rule));
    }
    let mut k: usize = 0;
    while k < REDUCE_RULES
        invariant
            k <= REDUCE_RULES,
            air.wf(),
            air.spec_base_width() == CERT_WIDTH,
            single_rows_appended(start, air.spec_transitions(), k as nat, degree, rule),
            degree == (|k: nat| reduce_degree(k)),
            rule == (|k: nat, row: Seq<Felt>| reduce_rule(k, row)),
            air.spec_boundaries() == old(air).spec_boundaries(),
            air.spec_permutations() == old(air).spec_permutations(),
            air.spec_base_width() == old(air).spec_base_width(),
            air.spec_aux_width() == old(air).spec_aux_width(),
            air.spec_length() == old(air).spec_length(),
            air.spec_num_challenges() == old(air).spec_num_challenges(),
        decreases REDUCE_RULES - k,
    {
        let (d, e) = reduce_rule_expr(k);
        proof {
            assert forall|cur: Seq<Felt>, next: Seq<Felt>| #[trigger] e.value(cur, next) == rule(k as nat, cur) by {
                assert(e.value(cur, next) == reduce_rule(k as nat, cur));
            }
        }
        let ghost mid = air.spec_transitions();
        air.add_single_row(d, e);
        proof {
            lemma_append_rule(start, mid, air.spec_transitions(), k as nat, degree, rule, air.spec_transitions().last());
        }
        k = k + 1;
    }
}

/// The squeeze row column boundaries: one on the squeeze row of each
/// segment, zero elsewhere.
pub open spec fn sq_bounds(rows: nat) -> Seq<(nat, nat, nat)> {
    Seq::new(rows, |g: int| (SQ_COL as nat, g as nat, if g % 32 == 24 { 1nat } else { 0nat }))
}

/// The first row boundaries of the four running product columns.
pub open spec fn aux_bounds() -> Seq<(nat, nat, nat)> {
    Seq::new(4, |i: int| ((CERT_WIDTH + i) as nat, 0nat, 1nat))
}

/// The factor the challenge less a cell of the current row.
pub open spec fn gamma_less(col: usize) -> ExtExpr {
    ExtExpr::Sub(Box::new(ExtExpr::Challenge(0)), Box::new(ExtExpr::Base(Expr::Cur(col))))
}

/// The four permutations of the certificate: the residue against the split
/// input, against the hinted input and against the product factor, and the
/// response factor against the norm input.
pub open spec fn cert_permutations() -> Seq<crate::air::Permutation> {
    seq![
        crate::air::Permutation { degree: 1, column: CERT_WIDTH, numerator: gamma_less(R_R),
            denominator: gamma_less((DECOMPOSE_BASE + decompose::COL_R) as usize) },
        crate::air::Permutation { degree: 1, column: (CERT_WIDTH + 1) as usize, numerator: gamma_less(R_R),
            denominator: gamma_less((HINT_BASE + hint::COL_R) as usize) },
        crate::air::Permutation { degree: 1, column: (CERT_WIDTH + 2) as usize, numerator: gamma_less(R_R),
            denominator: gamma_less((MODMUL_BASE + lattice::COL_A) as usize) },
        crate::air::Permutation { degree: 1, column: (CERT_WIDTH + 3) as usize,
            numerator: gamma_less((MODMUL_BASE + lattice::COL_B) as usize),
            denominator: gamma_less((NORM_BASE + norm::COL_Z) as usize) },
    ]
}

/// The rules of the certificate in order: the state block, the selected
/// rounds, the reduction, then the split, hint, product and norm pieces.
pub open spec fn cert_transitions_ok(t: Seq<crate::air::Transition>) -> bool {
    let b = BLOCK_RULES as int;
    let s = b + 1600;
    let r = s + REDUCE_RULES as int;
    let d = r + decompose::RULES as int;
    let h = d + hint::RULES as int;
    let m = h + lattice::RULES as int;
    let n = m + norm::RULES as int;
    &&& t.len() == n + 4
    &&& forall|k: int| n <= k < n + 4 ==> #[trigger] t[k] == running_product_transition(1)
    &&& single_rows_appended(Seq::empty(), t.take(b), BLOCK_RULES as nat,
        |k: nat| block_degree(k), |k: nat, row: Seq<Felt>| block_rule(0, k, row))
    &&& transitions_appended(t.take(b), t.take(s), 1600, true,
        |k: nat| 11, |k: nat, cur: Seq<Felt>, next: Seq<Felt>| sponge_rule(k, cur, next))
    &&& single_rows_appended(t.take(s), t.take(r), REDUCE_RULES as nat,
        |k: nat| reduce_degree(k), |k: nat, row: Seq<Felt>| reduce_rule(k, row))
    &&& single_rows_appended(t.take(r), t.take(d), decompose::RULES as nat,
        |k: nat| decompose::decompose_degree(k), |k: nat, row: Seq<Felt>| decompose::decompose_rule(DECOMPOSE_BASE as nat, k, row))
    &&& single_rows_appended(t.take(d), t.take(h), hint::RULES as nat,
        |k: nat| hint::hint_degree(k), |k: nat, row: Seq<Felt>| hint::hint_rule(HINT_BASE as nat, k, row))
    &&& single_rows_appended(t.take(h), t.take(m), lattice::RULES as nat,
        |k: nat| lattice::modmul_degree(k), |k: nat, row: Seq<Felt>| lattice::modmul_rule(MODMUL_BASE as nat, k, row))
    &&& single_rows_appended(t.take(m), t.take(n), norm::RULES as nat,
        |k: nat| norm::norm_degree(k), |k: nat, row: Seq<Felt>| norm::norm_rule(NORM_BASE as nat, k, row))
}

/// What the certificate description over a message and its squeeze holds.
pub open spec fn describes_certificate(air: Air, perms: nat, message: Seq<u8>, output: Seq<u8>) -> bool {
    &&& air.wf()
    &&& air.spec_base_width() == CERT_WIDTH
    &&& air.spec_aux_width() == 4
    &&& air.spec_length() == perms * 32
    &&& air.spec_num_challenges() == 1
    &&& cert_transitions_ok(air.spec_transitions())
    &&& air.spec_permutations() == cert_permutations()
    &&& bounds_follow(air.spec_boundaries(), 0,
        sponge_bounds(SHAKE256_RATE as nat, perms, message, output) + sq_bounds(perms * 32) + aux_bounds())
}

fn add_squeeze_bounds(air: &mut Air, rows: usize)
    requires
        old(air).wf(),
        SQ_COL < old(air).spec_base_width(),
        rows <= old(air).spec_length(),
    ensures
        final(air).wf(),
        bounds_follow(final(air).spec_boundaries(), old(air).spec_boundaries().len(), sq_bounds(rows as nat)),
        final(air).spec_boundaries().take(old(air).spec_boundaries().len() as int) == old(air).spec_boundaries(),
        final(air).spec_transitions() == old(air).spec_transitions(),
        final(air).spec_permutations() == old(air).spec_permutations(),
        final(air).spec_base_width() == old(air).spec_base_width(),
        final(air).spec_aux_width() == old(air).spec_aux_width(),
        final(air).spec_length() == old(air).spec_length(),
        final(air).spec_num_challenges() == old(air).spec_num_challenges(),
{
    let ghost from = air.spec_boundaries().len();
    let ghost list = sq_bounds(rows as nat);
    let mut g: usize = 0;
    while g < rows
        invariant
            g <= rows,
            rows <= air.spec_length(),
            SQ_COL < air.spec_base_width(),
            list == sq_bounds(rows as nat),
            air.wf(),
            air.spec_boundaries().len() == from + g,
            forall|j: int| 0 <= j < g ==> boundary_is(#[trigger] air.spec_boundaries()[from + j], list[j]),
            air.spec_boundaries().take(from as int) == old(air).spec_boundaries(),
            from == old(air).spec_boundaries().len(),
            air.spec_transitions() == old(air).spec_transitions(),
            air.spec_permutations() == old(air).spec_permutations(),
            air.spec_base_width() == old(air).spec_base_width(),
            air.spec_aux_width() == old(air).spec_aux_width(),
            air.spec_length() == old(air).spec_length(),
            air.spec_num_challenges() == old(air).spec_num_challenges(),
        decreases rows - g,
    {
        let value = if g % 32 == 24 { Felt::one() } else { Felt::zero() };
        let ghost before = air.spec_boundaries();
        air.add_boundary(SQ_COL, g, value);
        proof {
            assert forall|j: int| 0 <= j < g + 1 implies boundary_is(#[trigger] air.spec_boundaries()[from + j], list[j]) by {
                if j < g {
                    assert(air.spec_boundaries()[from + j] == before[from + j]);
                }
            }
            assert(air.spec_boundaries().take(from as int) =~= before.take(from as int));
        }
        g = g + 1;
    }
}

fn gamma_less_expr(gamma: usize, col: usize) -> (e: ExtExpr)
    ensures
        gamma == 0 ==> e == gamma_less(col),
        e == ExtExpr::Sub(Box::new(ExtExpr::Challenge(gamma)), Box::new(ExtExpr::Base(Expr::Cur(col)))),
{
    ExtExpr::challenge(gamma).sub(ExtExpr::base(Expr::cur(col)))
}

/// The description of the fused certificate over a message and the bytes
/// squeezed from it.
#[verifier::rlimit(60)]
pub fn certificate_air(perms: usize, message: &[u8], output: &[u8]) -> (air: Air)
    requires
        is_pow2((perms * 32) as nat),
        perms * 32 <= usize::MAX,
        message@.len() < SHAKE256_RATE,
        perms * SHAKE256_RATE <= output@.len(),
    ensures
        describes_certificate(air, perms as nat, message@, output@),
{
    let rows = perms * sponge::SEGMENT_ROWS;
    let mut air = Air::new(CERT_WIDTH, rows);
    proof {
        assert(air.spec_transitions() =~= Seq::<crate::air::Transition>::empty());
        assert(air.spec_boundaries() =~= Seq::<Boundary>::empty());
        if perms > 0 {
            assert((perms - 1) * 136 + 136 == perms * 136) by (nonlinear_arith);
        }
    }
    let ghost empty = air;
    add_sponge_constraints(&mut air, SHAKE256_RATE, perms, message, output);
    let ghost t1 = air.spec_transitions();
    let ghost b1 = air.spec_boundaries();
    add_squeeze_bounds(&mut air, rows);
    proof {
        assert(b1.len() == sponge_bounds(SHAKE256_RATE as nat, perms as nat, message@, output@).len());
        assert(bounds_follow(b1, 0, sponge_bounds(SHAKE256_RATE as nat, perms as nat, message@, output@))) by {
            assert forall|j: int| 0 <= j < sponge_bounds(SHAKE256_RATE as nat, perms as nat, message@, output@).len()
                implies boundary_is(#[trigger] b1[0 + j], sponge_bounds(SHAKE256_RATE as nat, perms as nat, message@, output@)[j]) by {
                assert(boundary_is(b1[empty.spec_boundaries().len() + j], sponge_bounds(SHAKE256_RATE as nat, perms as nat, message@, output@)[j]));
            }
        }
        lemma_bounds_join(b1, air.spec_boundaries(), 0, sponge_bounds(SHAKE256_RATE as nat, perms as nat, message@, output@), sq_bounds(rows as nat));
    }
    let ghost b2 = air.spec_boundaries();
    add_reduce_constraints(&mut air);
    let ghost t2 = air.spec_transitions();
    decompose::add_constraints(&mut air, DECOMPOSE_BASE);
    let ghost t3 = air.spec_transitions();
    hint::add_constraints(&mut air, HINT_BASE);
    let ghost t4 = air.spec_transitions();
    lattice::add_constraints(&mut air, MODMUL_BASE);
    let ghost t5 = air.spec_transitions();
    norm::add_constraints(&mut air, NORM_BASE);
    let ghost t6 = air.spec_transitions();
    proof {
        assert(t6.take(t1.len() as int) =~= t1);
        assert(t6.take(t2.len() as int) =~= t2);
        assert(t6.take(t3.len() as int) =~= t3);
        assert(t6.take(t4.len() as int) =~= t4);
        assert(t6.take(t5.len() as int) =~= t5);
        assert(t1.take(BLOCK_RULES as int) =~= t6.take(BLOCK_RULES as int));
    }
    let gamma = air.add_challenge();
    proof {
        reveal_with_fuel(ExtExpr::reads_below, 3);
        reveal_with_fuel(Expr::reads_below, 2);
    }
    air.add_permutation(1, gamma_less_expr(gamma, R_R), gamma_less_expr(gamma, DECOMPOSE_BASE + decompose::COL_R));
    air.add_permutation(1, gamma_less_expr(gamma, R_R), gamma_less_expr(gamma, HINT_BASE + hint::COL_R));
    air.add_permutation(1, gamma_less_expr(gamma, R_R), gamma_less_expr(gamma, MODMUL_BASE + lattice::COL_A));
    air.add_permutation(1, gamma_less_expr(gamma, MODMUL_BASE + lattice::COL_B), gamma_less_expr(gamma, NORM_BASE + norm::COL_Z));
    proof {
        Felt::lemma_from_val(1);
        let t7 = air.spec_transitions();
        assert(t7.take(t1.len() as int) =~= t1);
        assert(t7.take(t2.len() as int) =~= t2);
        assert(t7.take(t3.len() as int) =~= t3);
        assert(t7.take(t4.len() as int) =~= t4);
        assert(t7.take(t5.len() as int) =~= t5);
        assert(t7.take(t6.len() as int) =~= t6);
        assert(t1.take(BLOCK_RULES as int) =~= t7.take(BLOCK_RULES as int));
        assert(air.spec_permutations() =~= cert_permutations());
        let all = sponge_bounds(SHAKE256_RATE as nat, perms as nat, message@, output@) + sq_bounds(rows as nat);
        assert(air.spec_boundaries().take(b2.len() as int) =~= b2);
        assert(bounds_follow(air.spec_boundaries(), b2.len(), aux_bounds())) by {
            assert forall|j: int| 0 <= j < 4 implies boundary_is(#[trigger] air.spec_boundaries()[b2.len() + j], aux_bounds()[j]) by {
            }
        }
        lemma_bounds_join(b2, air.spec_boundaries(), 0, all, aux_bounds());
    }
    air
}

/// The reduction cells of a certificate row for a word and whether the row
/// is a squeeze row.
pub open spec fn reduce_row_filled(row: Seq<Felt>, v: nat, sq: bool) -> bool {
    let r = v % (Q as nat);
    let quo = v / (Q as nat);
    let slack = ((Q - 1) as nat - r) as nat;
    &&& cell_val(row, SQ_COL as int) == if sq { 1nat } else { 0nat }
    &&& cell_val(row, R_V as int) == v
    &&& cell_val(row, R_R as int) == r
    &&& cell_val(row, R_QUO as int) == quo
    &&& forall|k: nat| k < QUO_BITS ==> #[trigger] cell_val(row, (R_QUO_BITS + k) as int) == crate::air::bit_of(quo, k)
    &&& forall|k: nat| k < RESIDUE_BITS ==> #[trigger] cell_val(row, (R_R_BITS + k) as int) == crate::air::bit_of(r, k)
    &&& forall|k: nat| k < RESIDUE_BITS ==> #[trigger] cell_val(row, (R_SLACK_BITS + k) as int) == crate::air::bit_of(slack, k)
}

proof fn lemma_reduce_frame(a: Seq<Felt>, b: Seq<Felt>, v: nat, sq: bool)
    requires
        reduce_row_filled(a, v, sq),
        crate::air::rows_agree(a, b, SQ_COL as nat, DECOMPOSE_BASE as nat),
    ensures
        reduce_row_filled(b, v, sq),
{
    assert(cell_val(b, SQ_COL as int) == cell_val(a, SQ_COL as int));
    assert(cell_val(b, R_V as int) == cell_val(a, R_V as int));
    assert(cell_val(b, R_R as int) == cell_val(a, R_R as int));
    assert(cell_val(b, R_QUO as int) == cell_val(a, R_QUO as int));
    assert forall|k: nat| k < QUO_BITS implies #[trigger] cell_val(b, (R_QUO_BITS + k) as int) == cell_val(a, (R_QUO_BITS + k) as int) by {}
    assert forall|k: nat| k < RESIDUE_BITS implies #[trigger] cell_val(b, (R_R_BITS + k) as int) == cell_val(a, (R_R_BITS + k) as int) by {}
    assert forall|k: nat| k < RESIDUE_BITS implies #[trigger] cell_val(b, (R_SLACK_BITS + k) as int) == cell_val(a, (R_SLACK_BITS + k) as int) by {}
}

fn fill_reduce(trace: &mut TraceTable, row: usize, v: u64, sq: bool)
    requires
        v < 0x1_0000_0000,
        CERT_WIDTH <= old(trace).spec_width(),
        row < old(trace).spec_length(),
    ensures
        final(trace).spec_width() == old(trace).spec_width(),
        final(trace).spec_length() == old(trace).spec_length(),
        reduce_row_filled(final(trace).spec_row(row as int), v as nat, sq),
        forall|c: int, rr: int| (rr != row || c < SQ_COL || c >= DECOMPOSE_BASE) && 0 <= c < old(trace).spec_width()
            && 0 <= rr < old(trace).spec_length() ==> #[trigger] final(trace).cell(c, rr) == old(trace).cell(c, rr),
{
    let r = v % Q;
    let quo = v / Q;
    let slack = Q - 1 - r;
    let flag = if sq { Felt::one() } else { Felt::zero() };
    trace.set(SQ_COL, row, flag);
    trace.set(R_V, row, Felt::new(v));
    trace.set(R_R, row, Felt::new(r));
    trace.set(R_QUO, row, Felt::new(quo));
    fill_bits(trace, R_QUO_BITS, row, quo, QUO_BITS);
    fill_bits(trace, R_R_BITS, row, r, RESIDUE_BITS);
    fill_bits(trace, R_SLACK_BITS, row, slack, RESIDUE_BITS);
    proof {
        vstd::arithmetic::div_mod::lemma_small_mod(r as nat, p());
        vstd::arithmetic::div_mod::lemma_small_mod(quo as nat, p());
        vstd::arithmetic::div_mod::lemma_small_mod(v as nat, p());
        let rv = trace.spec_row(row as int);
        assert forall|k: nat| k < QUO_BITS implies #[trigger] cell_val(rv, (R_QUO_BITS + k) as int) == crate::air::bit_of(quo as nat, k) by {
            assert(trace.cell(R_QUO_BITS as int + k as int, row as int).val() == crate::air::bit_of(quo as nat, k));
        }
        assert forall|k: nat| k < RESIDUE_BITS implies #[trigger] cell_val(rv, (R_R_BITS + k) as int) == crate::air::bit_of(r as nat, k) by {
            assert(trace.cell(R_R_BITS as int + k as int, row as int).val() == crate::air::bit_of(r as nat, k));
        }
        assert forall|k: nat| k < RESIDUE_BITS implies #[trigger] cell_val(rv, (R_SLACK_BITS + k) as int) == crate::air::bit_of(slack as nat, k) by {
            assert(trace.cell(R_SLACK_BITS as int + k as int, row as int).val() == crate::air::bit_of(slack as nat, k));
        }
    }
}

/// The cells of a certificate row right of the sponge: the reduction of the
/// word, and the split, hint, product and norm pieces over its residue, the
/// hint bit and the response.
pub open spec fn cert_row_filled(row: Seq<Felt>, v: nat, sq: bool, h: u64, z: u64) -> bool {
    let r = v % (Q as nat);
    &&& reduce_row_filled(row, v, sq)
    &&& decompose_row_filled(row, DECOMPOSE_BASE as nat, r)
    &&& hint_row_filled(row, HINT_BASE as nat, r, h)
    &&& modmul_row_filled(row, MODMUL_BASE as nat, r as u64, z)
    &&& norm_row_filled(row, NORM_BASE as nat, z as nat)
}

fn fill_cert_row(trace: &mut TraceTable, row: usize, v: u64, sq: bool, h: u64, z: u64)
    requires
        v < 0x1_0000_0000,
        CERT_WIDTH <= old(trace).spec_width(),
        row < old(trace).spec_length(),
        z < Q,
    ensures
        final(trace).spec_width() == old(trace).spec_width(),
        final(trace).spec_length() == old(trace).spec_length(),
        cert_row_filled(final(trace).spec_row(row as int), v as nat, sq, h, z),
        forall|c: int, rr: int| (rr != row || c < SQ_COL || c >= CERT_WIDTH) && 0 <= c < old(trace).spec_width()
            && 0 <= rr < old(trace).spec_length() ==> #[trigger] final(trace).cell(c, rr) == old(trace).cell(c, rr),
{
    let r = v % Q;
    let ghost t0 = *trace;
    fill_reduce(trace, row, v, sq);
    let ghost t1 = *trace;
    decompose::fill_row(trace, DECOMPOSE_BASE, row, r);
    let ghost t2 = *trace;
    hint::fill_row(trace, HINT_BASE, row, r, h);
    let ghost t3 = *trace;
    lattice::fill_row(trace, MODMUL_BASE, row, r, z);
    let ghost t4 = *trace;
    norm::fill_row(trace, NORM_BASE, row, z);
    proof {
        let ri = row as int;
        crate::air::lemma_row_frame(&t0, &t1, ri, SQ_COL as int, DECOMPOSE_BASE as int, ri);
        crate::air::lemma_row_frame(&t1, &t2, ri, DECOMPOSE_BASE as int, HINT_BASE as int, ri);
        crate::air::lemma_row_frame(&t2, &t3, ri, HINT_BASE as int, MODMUL_BASE as int, ri);
        crate::air::lemma_row_frame(&t3, &t4, ri, MODMUL_BASE as int, NORM_BASE as int, ri);
        crate::air::lemma_row_frame(&t4, &*trace, ri, NORM_BASE as int, CERT_WIDTH as int, ri);
        let fin = trace.spec_row(ri);
        let (r1, r2, r3, r4) = (t1.spec_row(ri), t2.spec_row(ri), t3.spec_row(ri), t4.spec_row(ri));
        assert(crate::air::rows_agree(r2, r1, SQ_COL as nat, DECOMPOSE_BASE as nat));
        assert(crate::air::rows_agree(r3, r2, SQ_COL as nat, DECOMPOSE_BASE as nat));
        assert(crate::air::rows_agree(r4, r3, SQ_COL as nat, DECOMPOSE_BASE as nat));
        assert(crate::air::rows_agree(fin, r4, SQ_COL as nat, DECOMPOSE_BASE as nat));
        assert(crate::air::rows_agree(r1, fin, SQ_COL as nat, DECOMPOSE_BASE as nat));
        lemma_reduce_frame(r1, fin, v as nat, sq);
        assert(crate::air::rows_agree(r3, r2, DECOMPOSE_BASE as nat, HINT_BASE as nat));
        assert(crate::air::rows_agree(r4, r3, DECOMPOSE_BASE as nat, HINT_BASE as nat));
        assert(crate::air::rows_agree(fin, r4, DECOMPOSE_BASE as nat, HINT_BASE as nat));
        assert(crate::air::rows_agree(r2, fin, DECOMPOSE_BASE as nat, HINT_BASE as nat));
        decompose::lemma_filled_frame(r2, fin, DECOMPOSE_BASE as nat, r as nat);
        assert(crate::air::rows_agree(r4, r3, HINT_BASE as nat, MODMUL_BASE as nat));
        assert(crate::air::rows_agree(fin, r4, HINT_BASE as nat, MODMUL_BASE as nat));
        assert(crate::air::rows_agree(r3, fin, HINT_BASE as nat, MODMUL_BASE as nat));
        hint::lemma_filled_frame(r3, fin, HINT_BASE as nat, r as nat, h);
        assert(crate::air::rows_agree(fin, r4, MODMUL_BASE as nat, NORM_BASE as nat));
        assert(crate::air::rows_agree(r4, fin, MODMUL_BASE as nat, NORM_BASE as nat));
        lattice::lemma_filled_frame(r4, fin, MODMUL_BASE as nat, r, z);
    }
}

/// A filled certificate with its description, its squeeze and the hash
/// coefficients it reduced.
pub struct Certificate {
    pub air: Air,
    pub trace: TraceTable,
    /// The row count.
    pub length: usize,
    /// The squeezed bytes.
    pub output: Vec<u8>,
    /// The reduced squeeze words, one per permutation.
    pub coefficients: Vec<u64>,
}

/// The value at a position of a list, zero past its end.
pub open spec fn word_or_zero(values: Seq<u64>, i: int) -> u64 {
    if 0 <= i < values.len() { values[i] } else { 0 }
}

/// The squeezed word of permutation j: the low half of the first lane of
/// its output.
pub open spec fn squeeze_word(message: Seq<u8>, j: nat) -> nat {
    crate::qudros::half_of(sponge::squeeze_state(sponge::sponge_start(SHAKE256_RATE as nat, message), j + 1)[0], false)
}

/// What a certificate row holds right of the sponge: on the squeeze row of
/// permutation j the squeezed word, the low bit of hint j and response j
/// reduced; elsewhere zeros.
pub open spec fn cert_row_expected(row: Seq<Felt>, message: Seq<u8>, hints: Seq<u64>, responses: Seq<u64>, g: int) -> bool {
    if g % 32 == 24 {
        let j = g / 32;
        cert_row_filled(row, squeeze_word(message, j as nat), true, word_or_zero(hints, j) & 1,
            (word_or_zero(responses, j) % Q) as u64)
    } else {
        cert_row_filled(row, 0, false, 0, 0)
    }
}

/// Lays out the fused certificate: the sponge over the message, then on
/// each squeeze row the squeezed word reduced below the modulus, with the
/// split and hint of its residue, its product with the response and the
/// response norm; the other rows hold zeros in those pieces.
#[verifier::rlimit(40)]
pub fn certificate_trace(perms: usize, message: &[u8], hints: &[u64], responses: &[u64]) -> (cert: Certificate)
    requires
        is_pow2((perms * 32) as nat),
        CERT_WIDTH * (perms * 32) <= usize::MAX,
        message@.len() < SHAKE256_RATE,
    ensures
        cert.length == perms * 32,
        cert.output@ == sponge::squeeze_bytes(sponge::sponge_start(SHAKE256_RATE as nat, message@), 17, perms as nat),
        describes_certificate(cert.air, perms as nat, message@, cert.output@),
        cert.trace.spec_width() == CERT_WIDTH,
        cert.trace.spec_length() == perms * 32,
        cert.coefficients@ == Seq::new(perms as nat, |j: int| (squeeze_word(message@, j as nat) % (Q as nat)) as u64),
        forall|j: int, r: int| 0 <= j < perms && 0 <= r < 32
            ==> sponge::sponge_row_filled(#[trigger] cert.trace.spec_row(j * 32 + r),
                sponge::squeeze_state(sponge::sponge_start(SHAKE256_RATE as nat, message@), j as nat), r as nat, (j * 32 + r) as nat),
        forall|g: int| 0 <= g < perms * 32
            ==> cert_row_expected(#[trigger] cert.trace.spec_row(g), message@, hints@, responses@, g),
{
    proof {
        assert(perms * 32 <= CERT_WIDTH * (perms * 32)) by (nonlinear_arith);
    }
    let rows = perms * sponge::SEGMENT_ROWS;
    let mut trace = TraceTable::new(CERT_WIDTH, rows);
    sponge::fill_sponge_columns(&mut trace, SHAKE256_RATE, perms, message);
    let ghost filled = trace;
    let ghost start = sponge::sponge_start(SHAKE256_RATE as nat, message@);
    let mut coefficients: Vec<u64> = Vec::new();
    let mut row: usize = 0;
    while row < rows
        invariant
            row <= rows,
            rows == perms * 32,
            trace.spec_width() == CERT_WIDTH,
            trace.spec_length() == rows,
            start == sponge::sponge_start(SHAKE256_RATE as nat, message@),
            forall|j: int, r: int| 0 <= j < perms && 0 <= r < 32
                ==> sponge::sponge_row_filled(#[trigger] filled.spec_row(j * 32 + r), sponge::squeeze_state(start, j as nat), r as nat, (j * 32 + r) as nat),
            filled.spec_width() == CERT_WIDTH,
            filled.spec_length() == rows,
            forall|c: int, r: int| 0 <= c < SQ_COL && 0 <= r < rows ==> #[trigger] trace.cell(c, r) == filled.cell(c, r),
            forall|g: int| 0 <= g < row ==> cert_row_expected(#[trigger] trace.spec_row(g), message@, hints@, responses@, g),
            coefficients@.len() == (row + 7) / 32,
            forall|j: int| 0 <= j < coefficients@.len() ==> #[trigger] coefficients@[j] == (squeeze_word(message@, j as nat) % (Q as nat)) as u64,
        decreases rows - row,
    {
        let sq = row % 32 == 24;
        let j = row / 32;
        let v = if sq { trace.get(HALF_OFF, row).to_u64() } else { 0 };
        proof {
            if sq {
                vstd::arithmetic::div_mod::lemma_fundamental_div_mod(row as int, 32);
                assert(j < perms);
                let fr = filled.spec_row(j * 32 + 24);
                assert(sponge::sponge_row_filled(fr, sponge::squeeze_state(start, j as nat), 24, (j * 32 + 24) as nat));
                assert(cell_val(fr, 0 + HALF_OFF + 2 * 0) == crate::qudros::half_of(sponge::segment_state(sponge::squeeze_state(start, j as nat), 24)[0], false));
                assert(trace.cell(HALF_OFF as int, row as int) == filled.cell(HALF_OFF as int, row as int));
                assert(v as nat == squeeze_word(message@, j as nat));
            }
        }
        let h = if sq { (if j < hints.len() { hints[j] } else { 0 }) & 1 } else { 0 };
        let z = if sq { (if j < responses.len() { responses[j] } else { 0 }) % Q } else { 0 };
        let ghost before = trace;
        fill_cert_row(&mut trace, row, v, sq, h, z);
        if sq {
            coefficients.push(v % Q);
        }
        proof {
            assert forall|c: int, r: int| 0 <= c < SQ_COL && 0 <= r < rows implies #[trigger] trace.cell(c, r) == filled.cell(c, r) by {
                assert(trace.cell(c, r) == before.cell(c, r));
            }
            assert forall|g: int| 0 <= g < row + 1 implies cert_row_expected(#[trigger] trace.spec_row(g), message@, hints@, responses@, g) by {
                if g < row {
                    assert(trace.spec_row(g) =~= before.spec_row(g));
                } else {
                    assert(0u64 & 1 == 0) by (bit_vector);
                    if sq {
                        assert(h == word_or_zero(hints@, j as int) & 1);
                        assert(z == word_or_zero(responses@, j as int) % Q);
                    }
                }
            }
        }
        row = row + 1;
    }
    proof {
        assert forall|jj: int, r: int| 0 <= jj < perms && 0 <= r < 32
            implies sponge::sponge_row_filled(#[trigger] trace.spec_row(jj * 32 + r), sponge::squeeze_state(start, jj as nat), r as nat, (jj * 32 + r) as nat) by {
            assert(jj * 32 + r < rows) by (nonlinear_arith)
                requires jj < perms, r < 32, rows == perms * 32;
            let a = trace.spec_row(jj * 32 + r);
            let b = filled.spec_row(jj * 32 + r);
            assert(sponge::rows_agree_below(a, b, SPONGE_WIDTH as nat)) by {
                assert forall|c: int| 0 <= c < SPONGE_WIDTH implies #[trigger] cell_val(a, c) == cell_val(b, c) by {
                    assert(trace.cell(c, jj * 32 + r) == filled.cell(c, jj * 32 + r));
                }
            }
            sponge::lemma_sponge_row_agree(a, b, sponge::squeeze_state(start, jj as nat), r as nat, (jj * 32 + r) as nat);
        }
        assert(coefficients@ =~= Seq::new(perms as nat, |j: int| (squeeze_word(message@, j as nat) % (Q as nat)) as u64));
    }
    let output = sponge::shake_output(SHAKE256_RATE, perms, message);
    proof {
        sponge::lemma_squeeze_len(start, 17, perms as nat);
        assert(perms * (8 * 17) == perms * SHAKE256_RATE);
    }
    let air = certificate_air(perms, message, output.as_slice());
    Certificate { air, trace, length: rows, output, coefficients }
}

/// Every rule of a certificate description has degree at most eleven.
pub proof fn lemma_certificate_degrees(air: &Air, perms: nat, message: Seq<u8>, output: Seq<u8>)
    requires
        describes_certificate(*air, perms, message, output),
    ensures
        forall|i: int| 0 <= i < air.spec_transitions().len() ==> #[trigger] air.spec_transitions()[i].degree <= 11,
        air.spec_transitions().len() == BLOCK_RULES + 1600 + REDUCE_RULES + decompose::RULES + hint::RULES
            + lattice::RULES + norm::RULES + 4,
{
    let t = air.spec_transitions();
    let b = BLOCK_RULES as int;
    let s = b + 1600;
    let r = s + REDUCE_RULES as int;
    let d = r + decompose::RULES as int;
    let h = d + hint::RULES as int;
    let m = h + lattice::RULES as int;
    assert forall|i: int| 0 <= i < t.len() implies #[trigger] t[i].degree <= 11 by {
        if i < b {
            assert(t.take(b)[i] == t[i]);
            assert(t.take(b)[i].degree == block_degree(i as nat));
        } else if i < s {
            assert(t.take(s)[i] == t[i]);
        } else if i < r {
            assert(t.take(r)[i] == t[i]);
            assert(t.take(r)[i].degree == reduce_degree((i - s) as nat));
        } else if i < d {
            assert(t.take(d)[i] == t[i]);
            assert(t.take(d)[i].degree == decompose::decompose_degree((i - r) as nat));
        } else if i < h {
            assert(t.take(h)[i] == t[i]);
            assert(t.take(h)[i].degree == hint::hint_degree((i - d) as nat));
        } else if i < m {
            assert(t.take(m)[i] == t[i]);
            assert(t.take(m)[i].degree == lattice::modmul_degree((i - h) as nat));
        } else if i < m + norm::RULES as int {
            assert(t.take(m + norm::RULES as int)[i] == t[i]);
            assert(t[i].degree == norm::norm_degree((i - m) as nat));
        } else {
            assert(t[i] == running_product_transition(1));
        }
    }
}

/// The largest number of segments a certificate runs to with the domain
/// inside the two adic subgroup at a blow up of thirty two.
pub const MAX_SEGMENTS: usize = 0x20_0000;

/// A certificate description of up to the largest segment count fits a blow
/// up of thirty two, and its constraints can be counted in a word.
pub proof fn lemma_certificate_params(air: &Air, perms: nat, message: Seq<u8>, output: Seq<u8>, params: &crate::stark::StarkParams)
    requires
        describes_certificate(*air, perms, message, output),
        1 <= perms <= MAX_SEGMENTS,
        is_pow2(perms * 32),
        params.lde_blowup == 32,
    ensures
        crate::stark::params_fit(air, params),
        crate::stark::constraint_count(air) <= usize::MAX,
{
    lemma_certificate_degrees(air, perms, message, output);
    let n = perms * 32;
    assert(two_pow(5) == 32 && two_pow(27) == 0x800_0000) by {
        reveal_with_fuel(two_pow, 28);
    }
    crate::util::lemma_two_pow_is_pow2(5);
    crate::util::lemma_pow2_log2(n);
    assert(n <= 0x800_0000);
    assert(n < two_pow(28)) by {
        reveal_with_fuel(two_pow, 29);
    }
    crate::util::lemma_log2_below(n, 28);
    crate::util::lemma_two_pow_add(log2(n), 5);
    assert(two_pow(log2(n) + 5) == n * 32);
    assert(next_pow2(16) == 16) by {
        crate::util::lemma_next_pow2(16);
        reveal_with_fuel(is_pow2, 6);
    }
    assert(next_pow2(2) == 2) by {
        reveal_with_fuel(next_pow2, 3);
    }
    assert forall|i: int| 0 <= i < air.spec_transitions().len()
        implies 2 * next_pow2(#[trigger] air.spec_transitions()[i].degree as nat) <= 32 by {
        let d = air.spec_transitions()[i].degree as nat;
        crate::util::lemma_next_pow2_bound(d, 4);
        assert(two_pow(4) == 16) by {
            reveal_with_fuel(two_pow, 5);
        }
    }
    assert forall|k: int| 0 <= k < air.spec_permutations().len()
        implies 2 * next_pow2((#[trigger] air.spec_permutations()[k].degree + 1) as nat) <= 32 by {
        assert(air.spec_permutations()[k].degree == 1);
    }
    assert(sponge_bounds(SHAKE256_RATE as nat, perms, message, output).len() <= 3 * n + 50 + 50 * perms) by {
        lemma_output_bounds_len(output, perms);
    }
    assert(air.spec_boundaries().len() <= 3 * n + 50 + 50 * perms + n + 4);
    let lde = params.lde_blowup as nat;
    assert(is_pow2(lde)) by {
        reveal_with_fuel(is_pow2, 7);
    }
    assert(log2(lde) == 5);
    assert(log2(n) < 28);
    assert(log2(n) + log2(lde) <= crate::field::TWO_ADICITY);
    assert(n * 32 <= 0x8000_0000);
    assert(two_pow(log2(n) + log2(lde)) <= usize::MAX);
    assert(air.spec_length() >= 2);
}

proof fn lemma_output_bounds_len(output: Seq<u8>, count: nat)
    ensures
        sponge::output_bounds(output, SHAKE256_RATE as nat, count).len() == 34 * count,
    decreases count,
{
    if count > 0 {
        lemma_output_bounds_len(output, (count - 1) as nat);
    }
}

} // verus!
