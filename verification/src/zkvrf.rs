//! A verifiable random function on the Rescue permutation: the output is
//! the first elements of the permutation of the secret key and the input,
//! the commitment those of the key and a zero input, both computed in one
//! trace of two segments that carries the same key into each.
//!
//! The module describes and fills the draw's trace. Proving a draw in zero
//! knowledge needs a blinded STARK, which this library does not implement, so
//! it offers no entry points that prove or check a draw.
use vstd::prelude::*;
use crate::air::{Air, Boundary, Expr, TraceTable, cell_val};
use crate::field::{Felt, fadd, fmul, fpow, fsub, p};
use crate::rescue::{ALPHA, ROUNDS, WIDTH, matrix_view, rc_row, rescue_state, spec_mds};

verus! {

broadcast use Felt::lemma_val_injective, Felt::lemma_from_val;

/// The number of key elements.
pub const SK_ELEMS: usize = 4;
/// The number of input elements.
pub const X_ELEMS: usize = 4;
/// The number of output elements.
pub const OUT_ELEMS: usize = 4;
/// The rows of one permutation segment.
pub const SEG: usize = 16;
/// The rows of a trace: two segments.
pub const ROWS: usize = 2 * SEG;
/// The round selector column.
pub const SEL_COL: usize = WIDTH;
/// The first round constants, one column per state element.
pub const CA_OFF: usize = WIDTH + 1;
/// The second round constants, one column per state element.
pub const CB_OFF: usize = CA_OFF + WIDTH;
/// The input selector column, on at the first row of each segment.
pub const INSEL_COL: usize = CB_OFF + WIDTH;
/// The key carrier columns.
pub const CARRIER_OFF: usize = INSEL_COL + 1;
/// The trace width.
pub const BASE_WIDTH: usize = CARRIER_OFF + SK_ELEMS;
/// The blow up factor of the blinded proofs of a draw.
pub const VRF_BLOWUP: usize = 2048;
/// The number of queries of the blinded proofs of a draw.
pub const VRF_QUERIES: usize = 64;
/// The number of blinding rows of the blinded proofs of a draw.
pub const VRF_BLIND: usize = 448;

/// The round a row of the trace computes: the first rows of each segment,
/// one per round.
pub open spec fn spec_active_round(global: nat) -> Option<nat> {
    if global < ROUNDS {
        Some(global)
    } else if SEG <= global < SEG + ROUNDS {
        Some((global - SEG) as nat)
    } else {
        None
    }
}

/// The round a row of the trace computes, if any.
pub fn active_round(global: usize) -> (r: Option<usize>)
    ensures
        r matches Some(k) ==> spec_active_round(global as nat) == Some(k as nat),
        r is None ==> spec_active_round(global as nat) is None,
{
    if global < ROUNDS {
        Some(global)
    } else if global >= SEG && global < SEG + ROUNDS {
        Some(global - SEG)
    } else {
        None
    }
}

/// The permutation input of a key and an input: the key, the input, and
/// zeros in the capacity.
pub open spec fn input_state(sk: Seq<Felt>, x: Seq<Felt>) -> Seq<Felt> {
    Seq::new(WIDTH as nat, |i: int| if i < SK_ELEMS { sk[i] } else if i < SK_ELEMS + X_ELEMS { x[i - SK_ELEMS] } else { Felt::from_val(0) })
}

/// The permutation input of a key and an input.
pub fn state_input(sk: &[Felt; SK_ELEMS], x: &[Felt; X_ELEMS]) -> (state: [Felt; WIDTH])
    ensures
        state@ == input_state(sk@, x@),
{
    let mut state = [Felt::zero(); WIDTH];
    let mut i: usize = 0;
    while i < SK_ELEMS
        invariant
            i <= SK_ELEMS,
            forall|j: int| 0 <= j < i ==> #[trigger] state@[j] == sk@[j],
            forall|j: int| SK_ELEMS <= j < WIDTH ==> (#[trigger] state@[j]).val() == 0,
        decreases SK_ELEMS - i,
    {
        state[i] = sk[i];
        i = i + 1;
    }
    while i < SK_ELEMS + X_ELEMS
        invariant
            SK_ELEMS <= i <= SK_ELEMS + X_ELEMS,
            forall|j: int| 0 <= j < SK_ELEMS ==> #[trigger] state@[j] == sk@[j],
            forall|j: int| SK_ELEMS <= j < i ==> #[trigger] state@[j] == x@[j - SK_ELEMS],
            forall|j: int| i <= j < WIDTH ==> (#[trigger] state@[j]).val() == 0,
        decreases SK_ELEMS + X_ELEMS - i,
    {
        state[i] = x[i - SK_ELEMS];
        i = i + 1;
    }
    proof {
        assert forall|j: int| 0 <= j < WIDTH implies #[trigger] state@[j] == input_state(sk@, x@)[j] by {
            if j >= SK_ELEMS + X_ELEMS {
                assert(Felt::from_val(0).val() == 0);
            }
        }
    }
    assert(state@ =~= input_state(sk@, x@));
    state
}

/// The output of a key on an input: the first elements of the permuted
/// state.
pub open spec fn spec_vrf_output(sk: Seq<Felt>, x: Seq<Felt>) -> Seq<Felt> {
    rescue_state(input_state(sk, x), ROUNDS as nat).take(OUT_ELEMS as int)
}

/// The zero input.
pub open spec fn zero_input() -> Seq<Felt> {
    Seq::new(X_ELEMS as nat, |i: int| Felt::from_val(0))
}

/// The output of a key on an input.
pub fn vrf_output(sk: &[Felt; SK_ELEMS], x: &[Felt; X_ELEMS]) -> (out: [Felt; OUT_ELEMS])
    ensures
        out@ == spec_vrf_output(sk@, x@),
{
    let states = crate::rescue::permute_states(&state_input(sk, x));
    let last = states[ROUNDS];
    let mut out = [Felt::zero(); OUT_ELEMS];
    let mut i: usize = 0;
    while i < OUT_ELEMS
        invariant
            i <= OUT_ELEMS,
            last@ == rescue_state(input_state(sk@, x@), ROUNDS as nat),
            forall|j: int| 0 <= j < i ==> #[trigger] out@[j] == last@[j],
        decreases OUT_ELEMS - i,
    {
        out[i] = last[i];
        i = i + 1;
    }
    assert(out@ =~= spec_vrf_output(sk@, x@));
    out
}

/// The commitment of a key: its output on the zero input.
pub fn vrf_commit(sk: &[Felt; SK_ELEMS]) -> (c: [Felt; OUT_ELEMS])
    ensures
        c@ == spec_vrf_output(sk@, zero_input()),
{
    let z = Felt::zero();
    let zero = [z; X_ELEMS];
    proof {
        assert(Felt::from_val(0).val() == 0);
        assert forall|i: int| 0 <= i < X_ELEMS implies #[trigger] zero@[i] == zero_input()[i] by {
            assert(zero_input()[i] == Felt::from_val(0));
        }
    }
    assert(zero@ =~= zero_input());
    vrf_output(sk, &zero)
}


/// The first round constants of state element i plus the first k terms of
/// row i of the matrix times the state raised to the power map, the value
/// the round starts from.
pub open spec fn lhs_val(m: Seq<Seq<Felt>>, i: nat, cur: Seq<Felt>, k: nat) -> nat
    decreases k,
{
    if k == 0 {
        cell_val(cur, (CA_OFF + i) as int)
    } else {
        fadd(lhs_val(m, i, cur, (k - 1) as nat), fmul(m[i as int][k - 1].val(), fpow(cell_val(cur, k - 1), ALPHA as nat)))
    }
}

/// The first k terms of row i of the inverse matrix times the next state
/// less the second round constants, the value the round ends on before
/// the inverse power map.
pub open spec fn inner_val(minv: Seq<Seq<Felt>>, i: nat, cur: Seq<Felt>, next: Seq<Felt>, k: nat) -> nat
    decreases k,
{
    if k == 0 {
        0
    } else {
        fadd(inner_val(minv, i, cur, next, (k - 1) as nat),
            fmul(minv[i as int][k - 1].val(), fsub(cell_val(next, k - 1), cell_val(cur, (CB_OFF + k - 1) as int))))
    }
}

/// The round rule for state element i on a selected row: the first half
/// round from the current state meets the second half round undone from
/// the next state.
pub open spec fn round_rule(m: Seq<Seq<Felt>>, minv: Seq<Seq<Felt>>, i: nat, cur: Seq<Felt>, next: Seq<Felt>) -> nat {
    fmul(cell_val(cur, SEL_COL as int),
        fsub(lhs_val(m, i, cur, WIDTH as nat), fpow(inner_val(minv, i, cur, next, WIDTH as nat), ALPHA as nat)))
}

/// Key carrier k keeps its value from each row to the next.
pub open spec fn carrier_rule(k: nat, cur: Seq<Felt>, next: Seq<Felt>) -> nat {
    fsub(cell_val(next, (CARRIER_OFF + k) as int), cell_val(cur, (CARRIER_OFF + k) as int))
}

/// On a row where the input selector is on, key element k of the state is
/// the carried key element.
pub open spec fn key_rule(k: nat, row: Seq<Felt>) -> nat {
    fmul(cell_val(row, INSEL_COL as int), fsub(cell_val(row, k as int), cell_val(row, (CARRIER_OFF + k) as int)))
}

fn round_rule_expr(m: &[[Felt; WIDTH]; WIDTH], minv: &[[Felt; WIDTH]; WIDTH], i: usize) -> (e: Expr)
    requires
        i < WIDTH,
    ensures
        forall|cur: Seq<Felt>, next: Seq<Felt>| #[trigger] e.value(cur, next)
            == round_rule(matrix_view(*m), matrix_view(*minv), i as nat, cur, next),
        e.reads_below(BASE_WIDTH as nat),
{
    let ghost mv = matrix_view(*m);
    let ghost iv = matrix_view(*minv);
    let mut lhs = Expr::cur(CA_OFF + i);
    let mut j: usize = 0;
    while j < WIDTH
        invariant
            j <= WIDTH,
            i < WIDTH,
            mv == matrix_view(*m),
            forall|cur: Seq<Felt>, next: Seq<Felt>| #[trigger] lhs.value(cur, next) == lhs_val(mv, i as nat, cur, j as nat),
            lhs.reads_below(BASE_WIDTH as nat),
        decreases WIDTH - j,
    {
        let pw = Expr::cur(j).power(ALPHA);
        let c = Expr::constant(m[i][j]);
        let ghost gl = lhs;
        let ghost gp = pw;
        let ghost gc = c;
        lhs = lhs.add(c.mul(pw));
        proof {
            reveal_with_fuel(Expr::value, 3);
            reveal_with_fuel(Expr::reads_below, 3);
            assert(mv[i as int][j as int] == m@[i as int]@[j as int]);
            assert forall|cur: Seq<Felt>, next: Seq<Felt>| #[trigger] lhs.value(cur, next) == lhs_val(mv, i as nat, cur, (j + 1) as nat) by {
                assert(gp.value(cur, next) == fpow(Expr::Cur(j).value(cur, next), ALPHA as nat));
                assert(lhs.value(cur, next) == fadd(gl.value(cur, next), fmul(gc.value(cur, next), gp.value(cur, next))));
            }
            assert(Expr::Cur(j).reads_below(BASE_WIDTH as nat));
            assert(gp.reads_below(BASE_WIDTH as nat));
        }
        j = j + 1;
    }
    let zero = Felt::zero();
    let mut inner = Expr::constant(zero);
    let mut j: usize = 0;
    while j < WIDTH
        invariant
            j <= WIDTH,
            i < WIDTH,
            iv == matrix_view(*minv),
            forall|cur: Seq<Felt>, next: Seq<Felt>| #[trigger] inner.value(cur, next) == inner_val(iv, i as nat, cur, next, j as nat),
            inner.reads_below(BASE_WIDTH as nat),
        decreases WIDTH - j,
    {
        let c = Expr::constant(minv[i][j]);
        let d = Expr::next(j).sub(Expr::cur(CB_OFF + j));
        let ghost gi = inner;
        let ghost gd = d;
        let ghost gc = c;
        inner = inner.add(c.mul(d));
        proof {
            reveal_with_fuel(Expr::value, 3);
            reveal_with_fuel(Expr::reads_below, 4);
            assert(iv[i as int][j as int] == minv@[i as int]@[j as int]);
            assert forall|cur: Seq<Felt>, next: Seq<Felt>| #[trigger] inner.value(cur, next) == inner_val(iv, i as nat, cur, next, (j + 1) as nat) by {
                assert(gd.value(cur, next) == fsub(cell_val(next, j as int), cell_val(cur, (CB_OFF + j) as int)));
                assert(inner.value(cur, next) == fadd(gi.value(cur, next), fmul(gc.value(cur, next), gd.value(cur, next))));
            }
        }
        j = j + 1;
    }
    let ip = inner.power(ALPHA);
    let ghost gl = lhs;
    let ghost gip = ip;
    let e = Expr::cur(SEL_COL).mul(lhs.sub(ip));
    proof {
        reveal_with_fuel(Expr::value, 3);
        reveal_with_fuel(Expr::reads_below, 3);
        assert(gip.reads_below(BASE_WIDTH as nat));
        assert forall|cur: Seq<Felt>, next: Seq<Felt>| #[trigger] e.value(cur, next)
            == round_rule(mv, iv, i as nat, cur, next) by {
            assert(e.value(cur, next) == fmul(cell_val(cur, SEL_COL as int), fsub(gl.value(cur, next), gip.value(cur, next))));
        }
    }
    e
}


/// The boundaries of one row of the trace: its round selector and input
/// selector, and on a round row the two rows of round constants, element by
/// element.
pub open spec fn row_bounds(global: nat) -> Seq<(nat, nat, nat)> {
    let sel: nat = if spec_active_round(global) is Some { 1 } else { 0 };
    let insel: nat = if global == 0 || global == SEG { 1 } else { 0 };
    let head = seq![(SEL_COL as nat, global, sel), (INSEL_COL as nat, global, insel)];
    match spec_active_round(global) {
        Some(r) => head + Seq::new((2 * WIDTH) as nat, |k: int| if k % 2 == 0 {
            ((CA_OFF + k / 2) as nat, global, crate::rescue::rc_val(2 * r, (k / 2) as nat))
        } else {
            ((CB_OFF + k / 2) as nat, global, crate::rescue::rc_val(2 * r + 1, (k / 2) as nat))
        }),
        None => head,
    }
}

/// The boundaries of the first k rows.
pub open spec fn schedule_bounds(k: nat) -> Seq<(nat, nat, nat)>
    decreases k,
{
    if k == 0 {
        Seq::empty()
    } else {
        schedule_bounds((k - 1) as nat) + row_bounds((k - 1) as nat)
    }
}

/// The input in the rate after the key and zeros in the capacity on the
/// first row, the output on the last round row of the first segment, zeros
/// after the key on the first row of the second segment and the commitment
/// on its last round row.
pub open spec fn tail_bounds(x: Seq<Felt>, output: Seq<Felt>, commit: Seq<Felt>) -> Seq<(nat, nat, nat)> {
    Seq::new(X_ELEMS as nat, |j: int| ((SK_ELEMS + j) as nat, 0nat, x[j].val()))
        + Seq::new((WIDTH - SK_ELEMS - X_ELEMS) as nat, |j: int| ((SK_ELEMS + X_ELEMS + j) as nat, 0nat, 0nat))
        + Seq::new(OUT_ELEMS as nat, |j: int| (j as nat, ROUNDS as nat, output[j].val()))
        + Seq::new((WIDTH - SK_ELEMS) as nat, |j: int| ((SK_ELEMS + j) as nat, SEG as nat, 0nat))
        + Seq::new(OUT_ELEMS as nat, |j: int| (j as nat, (SEG + ROUNDS) as nat, commit[j].val()))
}

/// What the description of a draw on an input with an output and a
/// commitment holds, the inverse matrix its round rules use given.
pub open spec fn describes_vrf(air: Air, x: Seq<Felt>, output: Seq<Felt>, commit: Seq<Felt>, minv: Seq<Seq<Felt>>) -> bool {
    let t = air.spec_transitions();
    &&& air.wf()
    &&& air.spec_base_width() == BASE_WIDTH
    &&& air.spec_aux_width() == 0
    &&& air.spec_length() == ROWS
    &&& air.spec_num_challenges() == 0
    &&& air.spec_permutations().len() == 0
    &&& crate::air::transitions_appended(Seq::empty(), t.take(WIDTH as int), WIDTH as nat, true,
        |k: nat| (ALPHA + 1) as nat, |k: nat, cur: Seq<Felt>, next: Seq<Felt>| round_rule(spec_mds(), minv, k, cur, next))
    &&& crate::air::transitions_appended(t.take(WIDTH as int), t.take((WIDTH + SK_ELEMS) as int), SK_ELEMS as nat, true,
        |k: nat| 1nat, |k: nat, cur: Seq<Felt>, next: Seq<Felt>| carrier_rule(k, cur, next))
    &&& crate::air::single_rows_appended(t.take((WIDTH + SK_ELEMS) as int), t, SK_ELEMS as nat,
        |k: nat| 2nat, |k: nat, row: Seq<Felt>| key_rule(k, row))
    &&& crate::sponge::bounds_follow(air.spec_boundaries(), 0, schedule_bounds(ROWS as nat) + tail_bounds(x, output, commit))
}

fn add_row_bounds(air: &mut Air, global: usize, rc: &[[Felt; WIDTH]; 16])
    requires
        old(air).wf(),
        old(air).spec_base_width() == BASE_WIDTH,
        old(air).spec_length() == ROWS,
        global < ROWS,
        forall|q: int| 0 <= q < 16 ==> #[trigger] rc@[q]@ == rc_row(q as nat),
    ensures
        final(air).wf(),
        crate::sponge::bounds_follow(final(air).spec_boundaries(), old(air).spec_boundaries().len(), row_bounds(global as nat)),
        final(air).spec_boundaries().take(old(air).spec_boundaries().len() as int) == old(air).spec_boundaries(),
        final(air).spec_transitions() == old(air).spec_transitions(),
        final(air).spec_permutations() == old(air).spec_permutations(),
        final(air).spec_base_width() == old(air).spec_base_width(),
        final(air).spec_aux_width() == old(air).spec_aux_width(),
        final(air).spec_length() == old(air).spec_length(),
        final(air).spec_num_challenges() == old(air).spec_num_challenges(),
{
    let ghost from = air.spec_boundaries().len();
    let ghost list = row_bounds(global as nat);
    let round = active_round(global);
    let sel = if round.is_some() { Felt::one() } else { Felt::zero() };
    air.add_boundary(SEL_COL, global, sel);
    let insel = if global == 0 || global == SEG { Felt::one() } else { Felt::zero() };
    air.add_boundary(INSEL_COL, global, insel);
    match round {
        Some(r) => {
            let mut i: usize = 0;
            while i < WIDTH
                invariant
                    i <= WIDTH,
                    r < ROUNDS,
                    global < ROWS,
                    spec_active_round(global as nat) == Some(r as nat),
                    list == row_bounds(global as nat),
                    list.len() == 2 + 2 * WIDTH,
                    air.wf(),
                    air.spec_base_width() == BASE_WIDTH,
                    air.spec_length() == ROWS,
                    forall|q: int| 0 <= q < 16 ==> #[trigger] rc@[q]@ == rc_row(q as nat),
                    air.spec_boundaries().len() == from + 2 + 2 * i,
                    forall|j: int| 0 <= j < 2 + 2 * i ==> crate::qudros::boundary_is(#[trigger] air.spec_boundaries()[from + j], list[j]),
                    air.spec_boundaries().take(from as int) == old(air).spec_boundaries(),
                    from == old(air).spec_boundaries().len(),
                    air.spec_transitions() == old(air).spec_transitions(),
                    air.spec_permutations() == old(air).spec_permutations(),
                    air.spec_aux_width() == old(air).spec_aux_width(),
                    air.spec_num_challenges() == old(air).spec_num_challenges(),
                decreases WIDTH - i,
            {
                let ghost before = air.spec_boundaries();
                let a = rc[2 * r][i];
                let b = rc[2 * r + 1][i];
                proof {
                    let ea = rc_row((2 * r) as nat)[i as int];
                    let eb = rc_row((2 * r + 1) as nat)[i as int];
                    assert(ea == Felt::from_val(crate::rescue::rc_val((2 * r) as nat, i as nat)));
                    assert(eb == Felt::from_val(crate::rescue::rc_val((2 * r + 1) as nat, i as nat)));
                    assert(ea.val() == crate::rescue::rc_val((2 * r) as nat, i as nat));
                    assert(eb.val() == crate::rescue::rc_val((2 * r + 1) as nat, i as nat));
                }
                air.add_boundary(CA_OFF + i, global, a);
                air.add_boundary(CB_OFF + i, global, b);
                proof {
                    assert forall|j: int| 0 <= j < 2 + 2 * (i + 1) implies crate::qudros::boundary_is(#[trigger] air.spec_boundaries()[from + j], list[j]) by {
                        if j < 2 + 2 * i {
                            assert(air.spec_boundaries()[from + j] == before[from + j]);
                        } else if j == 2 + 2 * i {
                            assert((2 * i) / 2 == i && (2 * i) % 2 == 0) by (nonlinear_arith);
                        } else {
                            assert((2 * i + 1) / 2 == i && (2 * i + 1) % 2 == 1) by (nonlinear_arith);
                        }
                    }
                    assert(air.spec_boundaries().take(from as int) =~= before.take(from as int));
                }
                i = i + 1;
            }
        },
        None => {},
    }
    proof {
        assert(air.spec_boundaries().take(from as int) =~= old(air).spec_boundaries());
    }
}


fn add_tail_bounds(air: &mut Air, x: &[Felt; X_ELEMS], output: &[Felt; OUT_ELEMS], commit: &[Felt; OUT_ELEMS])
    requires
        old(air).wf(),
        old(air).spec_base_width() == BASE_WIDTH,
        old(air).spec_length() == ROWS,
    ensures
        final(air).wf(),
        crate::sponge::bounds_follow(final(air).spec_boundaries(), old(air).spec_boundaries().len(), tail_bounds(x@, output@, commit@)),
        final(air).spec_boundaries().take(old(air).spec_boundaries().len() as int) == old(air).spec_boundaries(),
        final(air).spec_transitions() == old(air).spec_transitions(),
        final(air).spec_permutations() == old(air).spec_permutations(),
        final(air).spec_base_width() == old(air).spec_base_width(),
        final(air).spec_aux_width() == old(air).spec_aux_width(),
        final(air).spec_length() == old(air).spec_length(),
        final(air).spec_num_challenges() == old(air).spec_num_challenges(),
{
    let ghost from = air.spec_boundaries().len();
    let ghost list = tail_bounds(x@, output@, commit@);
    let zero = Felt::zero();
    let mut k: usize = 0;
    while k < 24
        invariant
            k <= 24,
            list == tail_bounds(x@, output@, commit@),
            list.len() == 24,
            zero.val() == 0,
            air.wf(),
            air.spec_base_width() == BASE_WIDTH,
            air.spec_length() == ROWS,
            air.spec_boundaries().len() == from + k,
            forall|j: int| 0 <= j < k ==> crate::qudros::boundary_is(#[trigger] air.spec_boundaries()[from + j], list[j]),
            air.spec_boundaries().take(from as int) == old(air).spec_boundaries(),
            from == old(air).spec_boundaries().len(),
            air.spec_transitions() == old(air).spec_transitions(),
            air.spec_permutations() == old(air).spec_permutations(),
            air.spec_aux_width() == old(air).spec_aux_width(),
            air.spec_num_challenges() == old(air).spec_num_challenges(),
        decreases 24 - k,
    {
        let ghost before = air.spec_boundaries();
        if k < 4 {
            air.add_boundary(SK_ELEMS + k, 0, x[k]);
        } else if k < 8 {
            air.add_boundary(SK_ELEMS + X_ELEMS + (k - 4), 0, zero);
        } else if k < 12 {
            air.add_boundary(k - 8, ROUNDS, output[k - 8]);
        } else if k < 20 {
            air.add_boundary(SK_ELEMS + (k - 12), SEG, zero);
        } else {
            air.add_boundary(k - 20, SEG + ROUNDS, commit[k - 20]);
        }
        proof {
            assert forall|j: int| 0 <= j < k + 1 implies crate::qudros::boundary_is(#[trigger] air.spec_boundaries()[from + j], list[j]) by {
                if j < k {
                    assert(air.spec_boundaries()[from + j] == before[from + j]);
                }
            }
            assert(air.spec_boundaries().take(from as int) =~= before.take(from as int));
        }
        k = k + 1;
    }
}

/// The description of a draw: the rounds of the permutation between the
/// rows of each segment, the key carried down the trace and into the state
/// of each segment's first row, the round selectors and constants on every
/// row, the input and zeros on the first row, the output on the last round
/// row of the first segment, and zeros after the key and the commitment in
/// the second segment.
#[verifier::rlimit(40)]
pub fn vrf_air(x: &[Felt; X_ELEMS], output: &[Felt; OUT_ELEMS], commit: &[Felt; OUT_ELEMS]) -> (air: Air)
    ensures
        describes_vrf(air, x@, output@, commit@, crate::rescue::spec_mds_inverse()),
{
    let m = crate::rescue::mds();
    let minv = crate::rescue::mds_inverse();
    let rc = crate::rescue::round_constants();
    proof {
        assert(crate::util::is_pow2(ROWS as nat)) by {
            reveal_with_fuel(crate::util::is_pow2, 7);
        }
    }
    let mut air = Air::new(BASE_WIDTH, ROWS);
    proof {
        assert(air.spec_transitions() =~= Seq::<crate::air::Transition>::empty());
        assert(air.spec_boundaries() =~= Seq::<Boundary>::empty());
    }
    let ghost mv = matrix_view(minv);
    let ghost start = air.spec_transitions();
    let ghost rdeg = |k: nat| (ALPHA + 1) as nat;
    let ghost rrule = |k: nat, cur: Seq<Felt>, next: Seq<Felt>| round_rule(spec_mds(), mv, k, cur, next);
    let mut i: usize = 0;
    while i < WIDTH
        invariant
            i <= WIDTH,
            matrix_view(m) == spec_mds(),
            mv == matrix_view(minv),
            air.wf(),
            air.spec_base_width() == BASE_WIDTH,
            air.spec_aux_width() == 0,
            air.spec_length() == ROWS,
            air.spec_num_challenges() == 0,
            air.spec_permutations().len() == 0,
            air.spec_boundaries().len() == 0,
            start.len() == 0,
            rdeg == (|k: nat| (ALPHA + 1) as nat),
            rrule == (|k: nat, cur: Seq<Felt>, next: Seq<Felt>| round_rule(spec_mds(), mv, k, cur, next)),
            crate::air::transitions_appended(start, air.spec_transitions(), i as nat, true, rdeg, rrule),
        decreases WIDTH - i,
    {
        let e = round_rule_expr(&m, &minv, i);
        let ghost mid = air.spec_transitions();
        air.add_transition(ALPHA as usize + 1, e);
        proof {
            crate::air::lemma_append_transition(start, mid, air.spec_transitions(), i as nat, true, rdeg, rrule, air.spec_transitions().last());
        }
        i = i + 1;
    }
    let ghost t1 = air.spec_transitions();
    let ghost cdeg = |k: nat| 1nat;
    let ghost crule = |k: nat, cur: Seq<Felt>, next: Seq<Felt>| carrier_rule(k, cur, next);
    proof {
        assert(crate::air::transitions_appended(t1, t1, 0, true, cdeg, crule));
    }
    let mut k: usize = 0;
    while k < SK_ELEMS
        invariant
            k <= SK_ELEMS,
            air.wf(),
            air.spec_base_width() == BASE_WIDTH,
            air.spec_aux_width() == 0,
            air.spec_length() == ROWS,
            air.spec_num_challenges() == 0,
            air.spec_permutations().len() == 0,
            air.spec_boundaries().len() == 0,
            cdeg == (|k: nat| 1nat),
            crule == (|k: nat, cur: Seq<Felt>, next: Seq<Felt>| carrier_rule(k, cur, next)),
            crate::air::transitions_appended(t1, air.spec_transitions(), k as nat, true, cdeg, crule),
        decreases SK_ELEMS - k,
    {
        let e = Expr::next(CARRIER_OFF + k).sub(Expr::cur(CARRIER_OFF + k));
        proof {
            reveal_with_fuel(Expr::value, 2);
            reveal_with_fuel(Expr::reads_below, 2);
            assert forall|cur: Seq<Felt>, next: Seq<Felt>| #[trigger] e.value(cur, next) == crule(k as nat, cur, next) by {}
        }
        let ghost mid = air.spec_transitions();
        air.add_transition(1, e);
        proof {
            crate::air::lemma_append_transition(t1, mid, air.spec_transitions(), k as nat, true, cdeg, crule, air.spec_transitions().last());
        }
        k = k + 1;
    }
    let ghost t2 = air.spec_transitions();
    let ghost kdeg = |k: nat| 2nat;
    let ghost krule = |k: nat, row: Seq<Felt>| key_rule(k, row);
    proof {
        assert(crate::air::single_rows_appended(t2, t2, 0, kdeg, krule));
    }
    let mut k: usize = 0;
    while k < SK_ELEMS
        invariant
            k <= SK_ELEMS,
            air.wf(),
            air.spec_base_width() == BASE_WIDTH,
            air.spec_aux_width() == 0,
            air.spec_length() == ROWS,
            air.spec_num_challenges() == 0,
            air.spec_permutations().len() == 0,
            air.spec_boundaries().len() == 0,
            kdeg == (|k: nat| 2nat),
            krule == (|k: nat, row: Seq<Felt>| key_rule(k, row)),
            crate::air::single_rows_appended(t2, air.spec_transitions(), k as nat, kdeg, krule),
        decreases SK_ELEMS - k,
    {
        let e = Expr::cur(INSEL_COL).mul(Expr::cur(k).sub(Expr::cur(CARRIER_OFF + k)));
        proof {
            reveal_with_fuel(Expr::value, 3);
            reveal_with_fuel(Expr::reads_below, 3);
            assert forall|cur: Seq<Felt>, next: Seq<Felt>| #[trigger] e.value(cur, next) == krule(k as nat, cur) by {}
        }
        let ghost mid = air.spec_transitions();
        air.add_single_row(2, e);
        proof {
            crate::air::lemma_append_rule(t2, mid, air.spec_transitions(), k as nat, kdeg, krule, air.spec_transitions().last());
        }
        k = k + 1;
    }
    let ghost t3 = air.spec_transitions();
    let mut global: usize = 0;
    while global < ROWS
        invariant
            global <= ROWS,
            air.wf(),
            air.spec_base_width() == BASE_WIDTH,
            air.spec_aux_width() == 0,
            air.spec_length() == ROWS,
            air.spec_num_challenges() == 0,
            air.spec_permutations().len() == 0,
            air.spec_transitions() == t3,
            forall|q: int| 0 <= q < 16 ==> #[trigger] rc@[q]@ == rc_row(q as nat),
            crate::sponge::bounds_follow(air.spec_boundaries(), 0, schedule_bounds(global as nat)),
        decreases ROWS - global,
    {
        let ghost b0 = air.spec_boundaries();
        add_row_bounds(&mut air, global, &rc);
        proof {
            crate::sponge::lemma_bounds_join(b0, air.spec_boundaries(), 0, schedule_bounds(global as nat), row_bounds(global as nat));
        }
        global = global + 1;
    }
    let ghost b1 = air.spec_boundaries();
    add_tail_bounds(&mut air, x, output, commit);
    proof {
        crate::sponge::lemma_bounds_join(b1, air.spec_boundaries(), 0, schedule_bounds(ROWS as nat), tail_bounds(x@, output@, commit@));
        let t = air.spec_transitions();
        assert(t.take(WIDTH as int) =~= t1);
        assert(t.take((WIDTH + SK_ELEMS) as int) =~= t2);
        assert(describes_vrf(air, x@, output@, commit@, mv));
    }
    air
}


/// A row of a segment holds a state, its round selector, and on a round row
/// the round's constants, zeros in the constant columns otherwise.
pub open spec fn seg_row_filled(trace: TraceTable, global: int, st: Seq<Felt>) -> bool {
    &&& forall|c: int| 0 <= c < WIDTH ==> #[trigger] trace.cell(c, global) == st[c]
    &&& trace.cell(SEL_COL as int, global).val() == if spec_active_round(global as nat) is Some { 1nat } else { 0nat }
    &&& match spec_active_round(global as nat) {
        Some(r) => forall|i: int| 0 <= i < WIDTH ==> (#[trigger] trace.cell(CA_OFF + i, global)).val() == crate::rescue::rc_val(2 * r, i as nat)
            && trace.cell(CB_OFF + i, global).val() == crate::rescue::rc_val(2 * r + 1, i as nat),
        None => forall|i: int| 0 <= i < WIDTH ==> (#[trigger] trace.cell(CA_OFF + i, global)).val() == 0
            && trace.cell(CB_OFF + i, global).val() == 0,
    }
}

/// A filled segment row stays filled when its columns before the input
/// selector stay.
proof fn lemma_seg_row_frame(t1: TraceTable, t2: TraceTable, global: int, st: Seq<Felt>)
    requires
        seg_row_filled(t1, global, st),
        forall|c: int| 0 <= c < INSEL_COL ==> #[trigger] t2.cell(c, global) == t1.cell(c, global),
    ensures
        seg_row_filled(t2, global, st),
{
    assert forall|c: int| 0 <= c < WIDTH implies #[trigger] t2.cell(c, global) == st[c] by {
        assert(t2.cell(c, global) == t1.cell(c, global));
    }
    assert(t2.cell(SEL_COL as int, global) == t1.cell(SEL_COL as int, global));
    assert forall|i: int| 0 <= i < WIDTH implies #[trigger] t2.cell(CA_OFF + i, global) == t1.cell(CA_OFF + i, global)
        && t2.cell(CB_OFF + i, global) == t1.cell(CB_OFF + i, global) by {}
}

fn fill_vrf_row(trace: &mut TraceTable, global: usize, state: &[Felt; WIDTH], rc: &[[Felt; WIDTH]; 16])
    requires
        old(trace).spec_width() == BASE_WIDTH,
        old(trace).spec_length() == ROWS,
        global < ROWS,
        forall|q: int| 0 <= q < 16 ==> #[trigger] rc@[q]@ == rc_row(q as nat),
    ensures
        final(trace).spec_width() == old(trace).spec_width(),
        final(trace).spec_length() == old(trace).spec_length(),
        (forall|c: int| CA_OFF <= c < INSEL_COL ==> (#[trigger] old(trace).cell(c, global as int)).val() == 0)
            ==> seg_row_filled(*final(trace), global as int, state@),
        spec_active_round(global as nat) is Some ==> seg_row_filled(*final(trace), global as int, state@),
        spec_active_round(global as nat) is None ==> forall|c: int| CA_OFF <= c < INSEL_COL
            ==> #[trigger] final(trace).cell(c, global as int) == old(trace).cell(c, global as int),
        forall|c: int, r: int| (r != global || c >= INSEL_COL) && 0 <= c < BASE_WIDTH && 0 <= r < ROWS
            ==> #[trigger] final(trace).cell(c, r) == old(trace).cell(c, r),
{
    let mut c: usize = 0;
    while c < WIDTH
        invariant
            c <= WIDTH,
            global < ROWS,
            trace.spec_width() == BASE_WIDTH,
            trace.spec_length() == ROWS,
            forall|j: int| 0 <= j < c ==> #[trigger] trace.cell(j, global as int) == state@[j],
            forall|cc: int, r: int| (r != global || cc >= c) && 0 <= cc < BASE_WIDTH && 0 <= r < ROWS
                ==> #[trigger] trace.cell(cc, r) == old(trace).cell(cc, r),
        decreases WIDTH - c,
    {
        let ghost before = *trace;
        trace.set(c, global, state[c]);
        proof {
            assert forall|j: int| 0 <= j < c + 1 implies #[trigger] trace.cell(j, global as int) == state@[j] by {
                if j < c {
                    assert(trace.cell(j, global as int) == before.cell(j, global as int));
                }
            }
            assert forall|cc: int, r: int| (r != global || cc >= c + 1) && 0 <= cc < BASE_WIDTH && 0 <= r < ROWS
                implies #[trigger] trace.cell(cc, r) == old(trace).cell(cc, r) by {
                assert(trace.cell(cc, r) == before.cell(cc, r));
            }
        }
        c = c + 1;
    }
    let round = active_round(global);
    let sel = if round.is_some() { Felt::one() } else { Felt::zero() };
    let ghost t1 = *trace;
    trace.set(SEL_COL, global, sel);
    proof {
        assert forall|j: int| 0 <= j < WIDTH implies #[trigger] trace.cell(j, global as int) == state@[j] by {
            assert(trace.cell(j, global as int) == t1.cell(j, global as int));
        }
        assert forall|cc: int, r: int| (r != global || cc >= INSEL_COL || (CA_OFF <= cc)) && cc != SEL_COL && 0 <= cc < BASE_WIDTH && 0 <= r < ROWS
            implies #[trigger] trace.cell(cc, r) == old(trace).cell(cc, r) by {
            assert(trace.cell(cc, r) == t1.cell(cc, r));
        }
    }
    match round {
        Some(rd) => {
            let mut i: usize = 0;
            while i < WIDTH
                invariant
                    i <= WIDTH,
                    rd < ROUNDS,
                    global < ROWS,
                    spec_active_round(global as nat) == Some(rd as nat),
                    trace.spec_width() == BASE_WIDTH,
                    trace.spec_length() == ROWS,
                    forall|q: int| 0 <= q < 16 ==> #[trigger] rc@[q]@ == rc_row(q as nat),
                    forall|j: int| 0 <= j < WIDTH ==> #[trigger] trace.cell(j, global as int) == state@[j],
                    trace.cell(SEL_COL as int, global as int).val() == 1,
                    forall|j: int| 0 <= j < i ==> (#[trigger] trace.cell(CA_OFF + j, global as int)).val() == crate::rescue::rc_val((2 * rd) as nat, j as nat)
                        && trace.cell(CB_OFF + j, global as int).val() == crate::rescue::rc_val((2 * rd + 1) as nat, j as nat),
                    forall|cc: int, r: int| (r != global || cc >= INSEL_COL) && 0 <= cc < BASE_WIDTH && 0 <= r < ROWS
                        ==> #[trigger] trace.cell(cc, r) == old(trace).cell(cc, r),
                decreases WIDTH - i,
            {
                let a = rc[2 * rd][i];
                let b = rc[2 * rd + 1][i];
                proof {
                    let ea = rc_row((2 * rd) as nat)[i as int];
                    let eb = rc_row((2 * rd + 1) as nat)[i as int];
                    assert(ea == Felt::from_val(crate::rescue::rc_val((2 * rd) as nat, i as nat)));
                    assert(eb == Felt::from_val(crate::rescue::rc_val((2 * rd + 1) as nat, i as nat)));
                }
                let ghost before = *trace;
                trace.set(CA_OFF + i, global, a);
                trace.set(CB_OFF + i, global, b);
                proof {
                    assert forall|j: int| 0 <= j < WIDTH implies #[trigger] trace.cell(j, global as int) == state@[j] by {
                        assert(trace.cell(j, global as int) == before.cell(j, global as int));
                    }
                    assert(trace.cell(SEL_COL as int, global as int) == before.cell(SEL_COL as int, global as int));
                    assert forall|j: int| 0 <= j < i + 1 implies (#[trigger] trace.cell(CA_OFF + j, global as int)).val() == crate::rescue::rc_val((2 * rd) as nat, j as nat)
                        && trace.cell(CB_OFF + j, global as int).val() == crate::rescue::rc_val((2 * rd + 1) as nat, j as nat) by {
                        if j < i {
                            assert(trace.cell(CA_OFF + j, global as int) == before.cell(CA_OFF + j, global as int));
                            assert(trace.cell(CB_OFF + j, global as int) == before.cell(CB_OFF + j, global as int));
                        }
                    }
                    assert forall|cc: int, r: int| (r != global || cc >= INSEL_COL) && 0 <= cc < BASE_WIDTH && 0 <= r < ROWS
                        implies #[trigger] trace.cell(cc, r) == old(trace).cell(cc, r) by {
                        assert(trace.cell(cc, r) == before.cell(cc, r));
                    }
                }
                i = i + 1;
            }
            proof {
                let g = global as int;
                assert(spec_active_round(g as nat) == Some(rd as nat));
                assert forall|j: int| 0 <= j < WIDTH implies (#[trigger] trace.cell(CA_OFF + j, g)).val() == crate::rescue::rc_val(2 * (rd as nat), j as nat)
                    && trace.cell(CB_OFF + j, g).val() == crate::rescue::rc_val(2 * (rd as nat) + 1, j as nat) by {
                    assert(trace.cell(CA_OFF + j, global as int).val() == crate::rescue::rc_val((2 * rd) as nat, j as nat));
                }
            }
        },
        None => {
            proof {
                assert forall|c: int| CA_OFF <= c < INSEL_COL
                    implies #[trigger] trace.cell(c, global as int) == old(trace).cell(c, global as int) by {
                    assert(trace.cell(c, global as int) == t1.cell(c, global as int));
                }
                if forall|c: int| CA_OFF <= c < INSEL_COL ==> (#[trigger] old(trace).cell(c, global as int)).val() == 0 {
                    assert forall|i: int| 0 <= i < WIDTH implies (#[trigger] trace.cell(CA_OFF + i, global as int)).val() == 0
                        && trace.cell(CB_OFF + i, global as int).val() == 0 by {
                        assert(trace.cell(CA_OFF + i, global as int) == old(trace).cell(CA_OFF + i, global as int));
                        assert(trace.cell(CB_OFF + i, global as int) == old(trace).cell(CB_OFF + i, global as int));
                    }
                }
                assert forall|cc: int, r: int| (r != global || cc >= INSEL_COL) && 0 <= cc < BASE_WIDTH && 0 <= r < ROWS
                    implies #[trigger] trace.cell(cc, r) == old(trace).cell(cc, r) by {
                    assert(trace.cell(cc, r) == t1.cell(cc, r));
                }
            }
        },
    }
}


/// The state a row of a segment holds: the state after as many rounds as
/// its place in the segment, the final state past the last round.
pub open spec fn row_state(input: Seq<Felt>, r: nat) -> Seq<Felt> {
    rescue_state(input, if r <= ROUNDS { r } else { ROUNDS as nat })
}

/// Writes a segment of the trace from a base row: the permutation states of
/// an input, the round selectors and the round constants.
pub fn fill_segment(trace: &mut TraceTable, base_row: usize, input: &[Felt; WIDTH], rc: &[[Felt; WIDTH]; 16])
    requires
        old(trace).spec_width() == BASE_WIDTH,
        old(trace).spec_length() == ROWS,
        base_row == 0 || base_row == SEG,
        forall|q: int| 0 <= q < 16 ==> #[trigger] rc@[q]@ == rc_row(q as nat),
    ensures
        final(trace).spec_width() == old(trace).spec_width(),
        final(trace).spec_length() == old(trace).spec_length(),
        forall|r: int| 0 <= r < SEG && (forall|c: int| CA_OFF <= c < INSEL_COL ==> (#[trigger] old(trace).cell(c, base_row + r)).val() == 0)
            ==> #[trigger] seg_row_filled(*final(trace), base_row + r, row_state(input@, r as nat)),
        forall|r: int| 0 <= r < ROUNDS ==> #[trigger] seg_row_filled(*final(trace), base_row + r, row_state(input@, r as nat)),
        forall|c: int, r: int| (r < base_row || r >= base_row + SEG || c >= INSEL_COL) && 0 <= c < BASE_WIDTH && 0 <= r < ROWS
            ==> #[trigger] final(trace).cell(c, r) == old(trace).cell(c, r),
{
    let states = crate::rescue::permute_states(input);
    let mut r: usize = 0;
    while r < SEG
        invariant
            r <= SEG,
            base_row == 0 || base_row == SEG,
            trace.spec_width() == BASE_WIDTH,
            trace.spec_length() == ROWS,
            states@.len() == ROUNDS + 1,
            forall|k: int| 0 <= k <= ROUNDS ==> #[trigger] states@[k]@ == rescue_state(input@, k as nat),
            forall|q: int| 0 <= q < 16 ==> #[trigger] rc@[q]@ == rc_row(q as nat),
            forall|j: int| 0 <= j < r && (forall|c: int| CA_OFF <= c < INSEL_COL ==> (#[trigger] old(trace).cell(c, base_row + j)).val() == 0)
                ==> #[trigger] seg_row_filled(*trace, base_row + j, row_state(input@, j as nat)),
            forall|j: int| 0 <= j < r && j < ROUNDS ==> #[trigger] seg_row_filled(*trace, base_row + j, row_state(input@, j as nat)),
            forall|c: int, rr: int| (rr < base_row || rr >= base_row + r || c >= INSEL_COL) && 0 <= c < BASE_WIDTH && 0 <= rr < ROWS
                ==> #[trigger] trace.cell(c, rr) == old(trace).cell(c, rr),
        decreases SEG - r,
    {
        let global = base_row + r;
        let k = if r <= ROUNDS { r } else { ROUNDS };
        let ghost before = *trace;
        proof {
            assert(spec_active_round(global as nat) is Some <==> r < ROUNDS);
        }
        fill_vrf_row(trace, global, &states[k], rc);
        proof {
            assert forall|j: int| 0 <= j < r + 1 && (forall|c: int| CA_OFF <= c < INSEL_COL ==> (#[trigger] old(trace).cell(c, base_row + j)).val() == 0)
                implies #[trigger] seg_row_filled(*trace, base_row + j, row_state(input@, j as nat)) by {
                if j < r {
                    assert forall|c: int| 0 <= c < INSEL_COL implies #[trigger] trace.cell(c, base_row + j) == before.cell(c, base_row + j) by {}
                    lemma_seg_row_frame(before, *trace, base_row + j, row_state(input@, j as nat));
                } else {
                    assert forall|c: int| CA_OFF <= c < INSEL_COL implies (#[trigger] before.cell(c, global as int)).val() == 0 by {
                        assert(before.cell(c, global as int) == old(trace).cell(c, global as int));
                        assert(old(trace).cell(c, base_row + j).val() == 0);
                    }
                }
            }
            assert forall|j: int| 0 <= j < r + 1 && j < ROUNDS implies #[trigger] seg_row_filled(*trace, base_row + j, row_state(input@, j as nat)) by {
                if j < r {
                    assert forall|c: int| 0 <= c < INSEL_COL implies #[trigger] trace.cell(c, base_row + j) == before.cell(c, base_row + j) by {}
                    lemma_seg_row_frame(before, *trace, base_row + j, row_state(input@, j as nat));
                }
            }
        }
        r = r + 1;
    }
}


/// The permutation input of the segment of a row: the key and the input in
/// the first segment, the key and the zero input in the second.
pub open spec fn seg_input(global: int, sk: Seq<Felt>, x: Seq<Felt>) -> Seq<Felt> {
    if global < SEG { input_state(sk, x) } else { input_state(sk, zero_input()) }
}

/// The place of a row in its segment.
pub open spec fn seg_place(global: int) -> nat {
    (if global < SEG { global } else { global - SEG }) as nat
}

/// A row of a draw's trace: its segment row, the input selector on at the
/// first row of each segment, and the key in the carrier columns.
pub open spec fn vrf_row_filled(trace: TraceTable, global: int, sk: Seq<Felt>, x: Seq<Felt>) -> bool {
    &&& seg_row_filled(trace, global, row_state(seg_input(global, sk, x), seg_place(global)))
    &&& trace.cell(INSEL_COL as int, global).val() == if global == 0 || global == SEG { 1nat } else { 0nat }
    &&& forall|k: int| 0 <= k < SK_ELEMS ==> #[trigger] trace.cell(CARRIER_OFF + k, global) == sk[k]
}

/// A draw: its description, its trace, its output and its commitment.
pub struct VrfInstance {
    pub air: Air,
    pub trace: TraceTable,
    pub output: [Felt; OUT_ELEMS],
    pub commit: [Felt; OUT_ELEMS],
}

/// The trace of a draw of a key on an input, with its output, its
/// commitment and their description.
#[verifier::rlimit(40)]
pub fn vrf_trace(sk: &[Felt; SK_ELEMS], x: &[Felt; X_ELEMS]) -> (inst: VrfInstance)
    ensures
        inst.output@ == spec_vrf_output(sk@, x@),
        inst.commit@ == spec_vrf_output(sk@, zero_input()),
        describes_vrf(inst.air, x@, inst.output@, inst.commit@, crate::rescue::spec_mds_inverse()),
        inst.trace.spec_width() == BASE_WIDTH,
        inst.trace.spec_length() == ROWS,
        forall|g: int| 0 <= g < ROWS ==> #[trigger] vrf_row_filled(inst.trace, g, sk@, x@),
{
    let output = vrf_output(sk, x);
    let commit = vrf_commit(sk);
    let rc = crate::rescue::round_constants();
    proof {
        assert(crate::util::is_pow2(ROWS as nat)) by {
            reveal_with_fuel(crate::util::is_pow2, 7);
        }
    }
    let mut trace = TraceTable::new(BASE_WIDTH, ROWS);
    let ghost t0 = trace;
    let first = state_input(sk, x);
    fill_segment(&mut trace, 0, &first, &rc);
    let ghost t1 = trace;
    let z = Felt::zero();
    let zero = [z; X_ELEMS];
    proof {
        assert(Felt::from_val(0).val() == 0);
        assert forall|i: int| 0 <= i < X_ELEMS implies #[trigger] zero@[i] == zero_input()[i] by {
            assert(zero_input()[i] == Felt::from_val(0));
        }
        assert(zero@ =~= zero_input());
    }
    let second = state_input(sk, &zero);
    fill_segment(&mut trace, SEG, &second, &rc);
    let ghost t2 = trace;
    proof {
        assert forall|g: int| 0 <= g < ROWS implies #[trigger] seg_row_filled(t2, g, row_state(seg_input(g, sk@, x@), seg_place(g))) by {
            if g < SEG {
                assert forall|c: int| CA_OFF <= c < INSEL_COL implies (#[trigger] t0.cell(c, 0 + g)).val() == 0 by {}
                assert(seg_row_filled(t1, 0 + g, row_state(first@, g as nat)));
                assert forall|c: int| 0 <= c < INSEL_COL implies #[trigger] t2.cell(c, g) == t1.cell(c, g) by {}
                lemma_seg_row_frame(t1, t2, g, row_state(first@, g as nat));
            } else {
                let r = g - SEG;
                assert forall|c: int| CA_OFF <= c < INSEL_COL implies (#[trigger] t1.cell(c, SEG + r)).val() == 0 by {
                    assert(t1.cell(c, SEG + r) == t0.cell(c, SEG + r));
                }
                assert(seg_row_filled(t2, SEG + r, row_state(second@, r as nat)));
            }
        }
    }
    let mut global: usize = 0;
    while global < ROWS
        invariant
            global <= ROWS,
            trace.spec_width() == BASE_WIDTH,
            trace.spec_length() == ROWS,
            forall|c: int, r: int| 0 <= c < INSEL_COL && 0 <= r < ROWS ==> #[trigger] trace.cell(c, r) == t2.cell(c, r),
            forall|g: int| 0 <= g < global ==> (#[trigger] trace.cell(INSEL_COL as int, g)).val()
                == if g == 0 || g == SEG { 1nat } else { 0nat },
            forall|g: int, k: int| 0 <= g < global && 0 <= k < SK_ELEMS ==> #[trigger] trace.cell(CARRIER_OFF + k, g) == sk@[k],
        decreases ROWS - global,
    {
        let insel = if global == 0 || global == SEG { Felt::one() } else { Felt::zero() };
        let ghost before = trace;
        trace.set(INSEL_COL, global, insel);
        let mut k: usize = 0;
        while k < SK_ELEMS
            invariant
                k <= SK_ELEMS,
                global < ROWS,
                trace.spec_width() == BASE_WIDTH,
                trace.spec_length() == ROWS,
                trace.cell(INSEL_COL as int, global as int) == insel,
                forall|kk: int| 0 <= kk < k ==> #[trigger] trace.cell(CARRIER_OFF + kk, global as int) == sk@[kk],
                forall|c: int, r: int| (r != global || c < CARRIER_OFF) && c != INSEL_COL && 0 <= c < BASE_WIDTH && 0 <= r < ROWS
                    ==> #[trigger] trace.cell(c, r) == before.cell(c, r),
                forall|c: int, r: int| r != global && 0 <= c < BASE_WIDTH && 0 <= r < ROWS
                    ==> #[trigger] trace.cell(c, r) == before.cell(c, r),
            decreases SK_ELEMS - k,
        {
            let ghost b2 = trace;
            trace.set(CARRIER_OFF + k, global, sk[k]);
            proof {
                assert forall|kk: int| 0 <= kk < k + 1 implies #[trigger] trace.cell(CARRIER_OFF + kk, global as int) == sk@[kk] by {
                    if kk < k {
                        assert(trace.cell(CARRIER_OFF + kk, global as int) == b2.cell(CARRIER_OFF + kk, global as int));
                    }
                }
                assert forall|c: int, r: int| (r != global || c < CARRIER_OFF) && c != INSEL_COL && 0 <= c < BASE_WIDTH && 0 <= r < ROWS
                    implies #[trigger] trace.cell(c, r) == before.cell(c, r) by {
                    assert(trace.cell(c, r) == b2.cell(c, r));
                }
                assert forall|c: int, r: int| r != global && 0 <= c < BASE_WIDTH && 0 <= r < ROWS
                    implies #[trigger] trace.cell(c, r) == before.cell(c, r) by {
                    assert(trace.cell(c, r) == b2.cell(c, r));
                }
            }
            k = k + 1;
        }
        proof {
            assert forall|c: int, r: int| 0 <= c < INSEL_COL && 0 <= r < ROWS implies #[trigger] trace.cell(c, r) == t2.cell(c, r) by {
                assert(trace.cell(c, r) == before.cell(c, r));
            }
            assert forall|g: int| 0 <= g < global + 1 implies (#[trigger] trace.cell(INSEL_COL as int, g)).val()
                == if g == 0 || g == SEG { 1nat } else { 0nat } by {
                if g < global {
                    assert(trace.cell(INSEL_COL as int, g) == before.cell(INSEL_COL as int, g));
                }
            }
            assert forall|g: int, kk: int| 0 <= g < global + 1 && 0 <= kk < SK_ELEMS implies #[trigger] trace.cell(CARRIER_OFF + kk, g) == sk@[kk] by {
                if g < global {
                    assert(trace.cell(CARRIER_OFF + kk, g) == before.cell(CARRIER_OFF + kk, g));
                }
            }
        }
        global = global + 1;
    }
    proof {
        assert forall|g: int| 0 <= g < ROWS implies #[trigger] vrf_row_filled(trace, g, sk@, x@) by {
            assert(seg_row_filled(t2, g, row_state(seg_input(g, sk@, x@), seg_place(g))));
            assert forall|c: int| 0 <= c < INSEL_COL implies #[trigger] trace.cell(c, g) == t2.cell(c, g) by {}
            lemma_seg_row_frame(t2, trace, g, row_state(seg_input(g, sk@, x@), seg_place(g)));
            assert forall|k: int| 0 <= k < SK_ELEMS implies #[trigger] trace.cell(CARRIER_OFF + k, g) == sk@[k] by {}
        }
    }
    let air = vrf_air(x, &output, &commit);
    VrfInstance { air, trace, output, commit }
}

} // verus!
