//! The SHAKE sponge over the permutation and its arithmetization: one
//! permutation segment of rows per block, a selector column that switches the
//! round relation off on the padding rows of each segment, and the absorbed
//! and squeezed lanes bound through the half lane columns.
use vstd::prelude::*;
use crate::air::{
    Air, Boundary, Expr, TraceTable, cell_val, lemma_append_rule, lemma_append_transition, single_rows_appended,
    transitions_appended,
};
use crate::crypto::{le_bytes, le_word, push_u64_le};
use crate::field::{Felt, fadd, fmul, fsub, p};
use crate::util::{is_pow2, next_pow2, next_power_of_two};
use crate::qudros::{
    add_block_constraints, block_degree, block_row_filled, block_rule, boundary_is, fill_block_row, half_of,
    qudros_f1600, qudros_states, round_bit_expr, round_bit_val, round_constants, s_idx, spec_rc, spec_s_idx,
    spec_states, BLOCK_RULES, HALF_OFF, LANES, QUDROS_ROUNDS, QUDROS_TRACE_ROWS, QUDROS_WIDTH, RCHALF_OFF,
};

verus! {

broadcast use Felt::lemma_val_injective, TraceTable::lemma_width_fits, TraceTable::lemma_length_fits;

/// The rate in bytes of SHAKE128.
pub const SHAKE128_RATE: usize = 168;

/// The rate in bytes of SHAKE256.
pub const SHAKE256_RATE: usize = 136;

/// The domain byte of SHAKE.
pub const SHAKE_DOMAIN: u8 = 31;

/// The rows of one permutation segment.
pub const SEGMENT_ROWS: usize = QUDROS_TRACE_ROWS;

/// The selector column: one on the rows of a segment that run a round.
pub const SEL_COL: usize = QUDROS_WIDTH;

/// The column width of a sponge trace.
pub const SPONGE_WIDTH: usize = QUDROS_WIDTH + 1;

/// The eight bytes from a position on, zero past the end.
pub open spec fn chunk_at(bytes: Seq<u8>, start: int) -> Seq<u8> {
    Seq::new(8, |k: int| if 0 <= start + k < bytes.len() { bytes[start + k] } else { 0u8 })
}

/// Lane l of a block: its eight bytes from eight l on, little endian, zero
/// past the end of the block.
pub open spec fn spec_block_lanes(block: Seq<u8>) -> Seq<u64> {
    Seq::new(25, |l: int| le_word(chunk_at(block, 8 * l)))
}

fn word_of(b: [u8; 8]) -> (w: u64)
    ensures
        w == le_word(b@),
{
    (b[0] as u64) | ((b[1] as u64) << 8u64) | ((b[2] as u64) << 16u64) | ((b[3] as u64) << 24u64)
        | ((b[4] as u64) << 32u64) | ((b[5] as u64) << 40u64) | ((b[6] as u64) << 48u64)
        | ((b[7] as u64) << 56u64)
}

/// The little endian word of the eight bytes from a position on, zero
/// past the end.
pub(crate) fn chunk_lane(bytes: &[u8], start: usize) -> (lane: u64)
    ensures
        lane == le_word(chunk_at(bytes@, start as int)),
{
    let mut b = [0u8; 8];
    let mut k: usize = 0;
    while k < 8
        invariant
            k <= 8,
            forall|i: int| 0 <= i < k ==> #[trigger] b@[i] == chunk_at(bytes@, start as int)[i],
            forall|i: int| k <= i < 8 ==> #[trigger] b@[i] == 0u8,
        decreases 8 - k,
    {
        if start < bytes.len() && k < bytes.len() - start {
            b[k] = bytes[start + k];
        }
        k = k + 1;
    }
    assert(b@ =~= chunk_at(bytes@, start as int));
    word_of(b)
}

/// The little endian lane of up to eight bytes.
pub fn bytes_to_lane(bytes: &[u8]) -> (lane: u64)
    requires
        bytes@.len() <= 8,
    ensures
        lane == le_word(chunk_at(bytes@, 0)),
{
    chunk_lane(bytes, 0)
}

/// The lanes of a block of up to two hundred bytes, eight bytes to a lane.
pub fn block_to_lanes(block: &[u8]) -> (lanes: [u64; LANES])
    requires
        block@.len() <= 200,
    ensures
        lanes@ == spec_block_lanes(block@),
{
    let mut lanes = [0u64; LANES];
    let mut l: usize = 0;
    while l < LANES
        invariant
            l <= LANES,
            forall|i: int| 0 <= i < l ==> #[trigger] lanes@[i] == spec_block_lanes(block@)[i],
        decreases LANES - l,
    {
        lanes[l] = chunk_lane(block, 8 * l);
        l = l + 1;
    }
    assert(lanes@ =~= spec_block_lanes(block@));
    lanes
}

/// A message shorter than the rate, padded to one block: the domain byte
/// after it and the top bit of the last byte set.
pub open spec fn spec_padded(rate: nat, message: Seq<u8>) -> Seq<u8> {
    Seq::new(rate, |i: int|
        (if i < message.len() { message[i] } else { 0u8 })
        ^ (if i == message.len() { SHAKE_DOMAIN } else { 0u8 })
        ^ (if i == rate - 1 { 128u8 } else { 0u8 }))
}

/// Pads a message shorter than the rate to one block.
pub fn padded_block(rate: usize, message: &[u8]) -> (block: Vec<u8>)
    requires
        message@.len() < rate,
    ensures
        block@ == spec_padded(rate as nat, message@),
{
    let mut block: Vec<u8> = Vec::new();
    let mut i: usize = 0;
    while i < rate
        invariant
            i <= rate,
            message@.len() < rate,
            block@.len() == i,
            forall|k: int| 0 <= k < i ==> #[trigger] block@[k] == spec_padded(rate as nat, message@)[k],
        decreases rate - i,
    {
        let m = if i < message.len() { message[i] } else { 0u8 };
        let d = if i == message.len() { SHAKE_DOMAIN } else { 0u8 };
        let t = if i == rate - 1 { 128u8 } else { 0u8 };
        block.push(m ^ d ^ t);
        i = i + 1;
    }
    assert(block@ =~= spec_padded(rate as nat, message@));
    block
}

/// The full permutation as a function of the state.
pub open spec fn perm(s: Seq<u64>) -> Seq<u64> {
    spec_states(s, QUDROS_ROUNDS as nat)
}

/// The state entering permutation j of a squeeze from a start state.
pub open spec fn squeeze_state(start: Seq<u64>, j: nat) -> Seq<u64>
    decreases j,
{
    if j == 0 { start } else { perm(squeeze_state(start, (j - 1) as nat)) }
}

/// The start state of a one block sponge.
pub open spec fn sponge_start(rate: nat, message: Seq<u8>) -> Seq<u64> {
    spec_block_lanes(spec_padded(rate, message))
}

/// The states before and after each permutation of a one block sponge that
/// squeezes for the given number of permutations.
pub fn sponge_states(rate: usize, perms: usize, message: &[u8]) -> (r: (Vec<[u64; LANES]>, Vec<[u64; LANES]>))
    requires
        message@.len() < rate <= 200,
    ensures
        r.0@.len() == perms,
        r.1@.len() == perms,
        forall|j: int| 0 <= j < perms ==> (#[trigger] r.0@[j])@ == squeeze_state(sponge_start(rate as nat, message@), j as nat),
        forall|j: int| 0 <= j < perms ==> (#[trigger] r.1@[j])@ == squeeze_state(sponge_start(rate as nat, message@), (j + 1) as nat),
{
    let block = padded_block(rate, message);
    let input = block_to_lanes(block.as_slice());
    let ghost start = sponge_start(rate as nat, message@);
    let mut ins: Vec<[u64; LANES]> = Vec::new();
    let mut outs: Vec<[u64; LANES]> = Vec::new();
    let mut state = input;
    let mut j: usize = 0;
    while j < perms
        invariant
            j <= perms,
            start == sponge_start(rate as nat, message@),
            ins@.len() == j,
            outs@.len() == j,
            state@ == squeeze_state(start, j as nat),
            forall|i: int| 0 <= i < j ==> (#[trigger] ins@[i])@ == squeeze_state(start, i as nat),
            forall|i: int| 0 <= i < j ==> (#[trigger] outs@[i])@ == squeeze_state(start, (i + 1) as nat),
        decreases perms - j,
    {
        ins.push(state);
        let out = qudros_f1600(&state);
        outs.push(out);
        state = out;
        j = j + 1;
    }
    (ins, outs)
}

/// The first lanes of a state as little endian bytes.
pub open spec fn lane_bytes(state: Seq<u64>, lanes: nat) -> Seq<u8>
    decreases lanes,
{
    if lanes == 0 { Seq::empty() } else { lane_bytes(state, (lanes - 1) as nat) + le_bytes(state[lanes - 1]) }
}

/// The bytes a squeeze gives over the first count permutation outputs, the
/// rate lanes of each.
pub open spec fn squeeze_bytes(start: Seq<u64>, lanes: nat, count: nat) -> Seq<u8>
    decreases count,
{
    if count == 0 {
        Seq::empty()
    } else {
        squeeze_bytes(start, lanes, (count - 1) as nat) + lane_bytes(squeeze_state(start, count), lanes)
    }
}

fn push_lanes(out: &mut Vec<u8>, state: &[u64; LANES], lanes: usize)
    requires
        lanes <= LANES,
    ensures
        final(out)@ == old(out)@ + lane_bytes(state@, lanes as nat),
{
    let mut l: usize = 0;
    while l < lanes
        invariant
            l <= lanes,
            lanes <= LANES,
            out@ == old(out)@ + lane_bytes(state@, l as nat),
        decreases lanes - l,
    {
        push_u64_le(out, state[l]);
        proof {
            assert(lane_bytes(state@, (l + 1) as nat) == lane_bytes(state@, l as nat) + le_bytes(state@[l as int]));
            assert(old(out)@ + lane_bytes(state@, (l + 1) as nat) =~= old(out)@ + lane_bytes(state@, l as nat) + le_bytes(state@[l as int]));
        }
        l = l + 1;
    }
}

/// The squeezed bytes of a one block SHAKE sponge: the rate lanes of each of
/// the given number of permutation outputs.
pub fn shake_output(rate: usize, perms: usize, message: &[u8]) -> (out: Vec<u8>)
    requires
        message@.len() < rate <= 200,
    ensures
        out@ == squeeze_bytes(sponge_start(rate as nat, message@), (rate / 8) as nat, perms as nat),
{
    let (_, outs) = sponge_states(rate, perms, message);
    let ghost start = sponge_start(rate as nat, message@);
    let mut out: Vec<u8> = Vec::new();
    let mut j: usize = 0;
    while j < perms
        invariant
            j <= perms,
            rate <= 200,
            start == sponge_start(rate as nat, message@),
            outs@.len() == perms,
            forall|i: int| 0 <= i < perms ==> (#[trigger] outs@[i])@ == squeeze_state(start, (i + 1) as nat),
            out@ == squeeze_bytes(start, (rate / 8) as nat, j as nat),
        decreases perms - j,
    {
        push_lanes(&mut out, &outs[j], rate / 8);
        proof {
            assert(outs@[j as int]@ == squeeze_state(start, (j + 1) as nat));
        }
        j = j + 1;
    }
    out
}

/// The row of a sponge trace at which segment j holds its permutation output.
pub fn squeeze_row(segment: usize) -> (row: usize)
    requires
        segment * SEGMENT_ROWS + QUDROS_ROUNDS <= usize::MAX,
    ensures
        row == segment * SEGMENT_ROWS + QUDROS_ROUNDS,
{
    segment * SEGMENT_ROWS + QUDROS_ROUNDS
}

/// The low half column of a lane.
pub fn lane_low_col(lane: usize) -> (col: usize)
    requires
        lane < LANES,
    ensures
        col == HALF_OFF + 2 * lane,
{
    HALF_OFF + 2 * lane
}

/// The lane coordinates of rule k of the round relation, x first, then y,
/// then the bit.
pub open spec fn rule_coords(k: nat) -> (int, int, int) {
    ((k / 320) as int, ((k / 64) % 5) as int, (k % 64) as int)
}

/// What the next state bit should be on a sponge row: a round where the
/// selector is one, the bit carried over where it is zero.
pub open spec fn selected_bit_val(cur: Seq<Felt>, x: int, y: int, z: int) -> nat {
    let sel = cell_val(cur, SEL_COL as int);
    fadd(fmul(sel, round_bit_val(cur, x, y, z)), fmul(fsub(1, sel), cell_val(cur, spec_s_idx(x, y, z))))
}

/// Sponge transition k: the next row holds the selected bit.
pub open spec fn sponge_rule(k: nat, cur: Seq<Felt>, next: Seq<Felt>) -> nat {
    let (x, y, z) = rule_coords(k);
    fsub(cell_val(next, spec_s_idx(x, y, z)), selected_bit_val(cur, x, y, z))
}

fn selected_bit_expr(x: usize, y: usize, z: usize) -> (e: Expr)
    requires
        x < 5,
        y < 5,
        z < 64,
    ensures
        forall|cur: Seq<Felt>, next: Seq<Felt>| #[trigger] e.value(cur, next) == selected_bit_val(cur, x as int, y as int, z as int),
        e.reads_below(SPONGE_WIDTH as nat),
{
    let round = round_bit_expr(x, y, z);
    let ghost g = round;
    proof {
        assert(round.reads_below(SPONGE_WIDTH as nat)) by {
            crate::qudros::lemma_reads_widen(round, QUDROS_WIDTH as nat, SPONGE_WIDTH as nat);
        }
    }
    let target = s_idx(x, y, z);
    let one = Felt::one();
    let e = Expr::cur(SEL_COL).mul(round).add(Expr::constant(one).sub(Expr::cur(SEL_COL)).mul(Expr::cur(target)));
    proof {
        assert forall|cur: Seq<Felt>, next: Seq<Felt>| #[trigger] e.value(cur, next) == selected_bit_val(cur, x as int, y as int, z as int) by {
            reveal_with_fuel(Expr::value, 4);
            assert(g.value(cur, next) == round_bit_val(cur, x as int, y as int, z as int));
        }
        reveal_with_fuel(Expr::reads_below, 4);
    }
    e
}

fn sponge_rule_expr(k: usize) -> (e: Expr)
    requires
        k < 1600,
    ensures
        forall|cur: Seq<Felt>, next: Seq<Felt>| #[trigger] e.value(cur, next) == sponge_rule(k as nat, cur, next),
        e.reads_below(SPONGE_WIDTH as nat),
{
    let x = k / 320;
    let y = (k / 64) % 5;
    let z = k % 64;
    let sel = selected_bit_expr(x, y, z);
    let ghost g = sel;
    let e = Expr::next(s_idx(x, y, z)).sub(sel);
    proof {
        assert forall|cur: Seq<Felt>, next: Seq<Felt>| #[trigger] e.value(cur, next) == sponge_rule(k as nat, cur, next) by {
            reveal_with_fuel(Expr::value, 2);
            assert(g.value(cur, next) == selected_bit_val(cur, x as int, y as int, z as int));
        }
        reveal_with_fuel(Expr::reads_below, 2);
    }
    e
}

fn add_sponge_transitions(air: &mut Air)
    requires
        old(air).wf(),
        old(air).spec_base_width() >= SPONGE_WIDTH,
    ensures
        final(air).wf(),
        transitions_appended(
            old(air).spec_transitions(),
            final(air).spec_transitions(),
            1600,
            true,
            |k: nat| 11,
            |k: nat, cur: Seq<Felt>, next: Seq<Felt>| sponge_rule(k, cur, next),
        ),
        final(air).spec_boundaries() == old(air).spec_boundaries(),
        final(air).spec_permutations() == old(air).spec_permutations(),
        final(air).spec_base_width() == old(air).spec_base_width(),
        final(air).spec_aux_width() == old(air).spec_aux_width(),
        final(air).spec_length() == old(air).spec_length(),
        final(air).spec_num_challenges() == old(air).spec_num_challenges(),
{
    let ghost start = air.spec_transitions();
    let ghost degree = |k: nat| 11nat;
    let ghost rule = |k: nat, cur: Seq<Felt>, next: Seq<Felt>| sponge_rule(k, cur, next);
    let mut k: usize = 0;
    while k < 1600
        invariant
            k <= 1600,
            air.wf(),
            air.spec_base_width() >= SPONGE_WIDTH,
            transitions_appended(start, air.spec_transitions(), k as nat, true, degree, rule),
            degree == (|k: nat| 11nat),
            rule == (|k: nat, cur: Seq<Felt>, next: Seq<Felt>| sponge_rule(k, cur, next)),
            air.spec_boundaries() == old(air).spec_boundaries(),
            air.spec_permutations() == old(air).spec_permutations(),
            air.spec_base_width() == old(air).spec_base_width(),
            air.spec_aux_width() == old(air).spec_aux_width(),
            air.spec_length() == old(air).spec_length(),
            air.spec_num_challenges() == old(air).spec_num_challenges(),
        decreases 1600 - k,
    {
        let e = sponge_rule_expr(k);
        proof {
            crate::qudros::lemma_reads_widen(e, SPONGE_WIDTH as nat, air.spec_base_width());
            assert forall|cur: Seq<Felt>, next: Seq<Felt>| #[trigger] e.value(cur, next) == rule(k as nat, cur, next) by {
                assert(e.value(cur, next) == sponge_rule(k as nat, cur, next));
            }
        }
        let ghost mid = air.spec_transitions();
        air.add_transition(11, e);
        proof {
            lemma_append_transition(start, mid, air.spec_transitions(), k as nat, true, degree, rule, air.spec_transitions().last());
        }
        k = k + 1;
    }
}

/// The selector on a global row: one on the rows of a segment that run a
/// round.
pub open spec fn sel_val(row: nat) -> nat {
    if row % 32 < 24 { 1 } else { 0 }
}

/// The per row boundaries of a sponge description: the selector and the two
/// round constant halves of each row, in that order.
pub open spec fn row_bounds(rows: nat) -> Seq<(nat, nat, nat)> {
    Seq::new(3 * rows, |j: int| {
        let g = (j / 3) as nat;
        let m = j % 3;
        let r = g % 32;
        if m == 0 {
            (SEL_COL as nat, g, sel_val(g))
        } else if m == 1 {
            (RCHALF_OFF as nat, g, half_of(spec_rc(r), false))
        } else {
            ((RCHALF_OFF + 1) as nat, g, half_of(spec_rc(r), true))
        }
    })
}

/// The halves of the lanes of a state on a row, lane by lane, low first.
pub open spec fn lane_bounds(lanes: Seq<u64>, count: nat, row: nat) -> Seq<(nat, nat, nat)> {
    Seq::new(2 * count, |i: int| ((HALF_OFF + i) as nat, row, half_of(lanes[i / 2], i % 2 == 1)))
}

/// The lanes a squeeze output gives for segment j: its rate bytes read back
/// eight at a time.
pub open spec fn output_lanes(output: Seq<u8>, rate: nat, j: nat) -> Seq<u64> {
    Seq::new(25, |l: int| le_word(chunk_at(output, j * rate + 8 * l)))
}

/// The output halves of the first count segments.
pub open spec fn output_bounds(output: Seq<u8>, rate: nat, count: nat) -> Seq<(nat, nat, nat)>
    decreases count,
{
    if count == 0 {
        Seq::empty()
    } else {
        let j = (count - 1) as nat;
        output_bounds(output, rate, j) + lane_bounds(output_lanes(output, rate, j), rate / 8, j * 32 + 24)
    }
}

/// The boundaries of a one block sponge description, in order.
pub open spec fn sponge_bounds(rate: nat, perms: nat, message: Seq<u8>, output: Seq<u8>) -> Seq<(nat, nat, nat)> {
    row_bounds(perms * 32) + lane_bounds(sponge_start(rate, message), 25, 0) + output_bounds(output, rate, perms)
}

fn lane_halves(v: u64) -> (r: (Felt, Felt))
    ensures
        r.0.val() == half_of(v, false),
        r.1.val() == half_of(v, true),
{
    let lo = v & 0xffff_ffff;
    let hi = v >> 32;
    proof {
        assert(lo == v % 0x1_0000_0000 && hi == v / 0x1_0000_0000 && lo < 0x1_0000_0000 && hi < 0x1_0000_0000)
            by (bit_vector)
            requires
                lo == v & 0xffff_ffff,
                hi == v >> 32,
        ;
        vstd::arithmetic::div_mod::lemma_small_mod(lo as nat, p());
        vstd::arithmetic::div_mod::lemma_small_mod(hi as nat, p());
    }
    (Felt::new(lo), Felt::new(hi))
}

/// The boundaries from index from on follow the given list and end with it.
pub open spec fn bounds_follow(bounds: Seq<Boundary>, from: nat, list: Seq<(nat, nat, nat)>) -> bool {
    &&& bounds.len() == from + list.len()
    &&& forall|j: int| 0 <= j < list.len() ==> boundary_is(#[trigger] bounds[from + j], list[j])
}

/// Two runs of boundaries laid one after the other follow the joined list.
pub proof fn lemma_bounds_join(
    first: Seq<Boundary>,
    second: Seq<Boundary>,
    from: nat,
    a: Seq<(nat, nat, nat)>,
    b: Seq<(nat, nat, nat)>,
)
    requires
        bounds_follow(first, from, a),
        second.take(first.len() as int) == first,
        bounds_follow(second, first.len(), b),
    ensures
        bounds_follow(second, from, a + b),
        second.take(from as int) == first.take(from as int),
{
    assert forall|j: int| 0 <= j < (a + b).len() implies boundary_is(#[trigger] second[from + j], (a + b)[j]) by {
        if j < a.len() {
            assert(second[from + j] == second.take(first.len() as int)[from + j]);
            assert(boundary_is(first[from + j], a[j]));
        } else {
            assert(boundary_is(second[first.len() + (j - a.len())], b[j - a.len()]));
        }
    }
    assert(second.take(from as int) =~= first.take(from as int)) by {
        assert forall|j: int| 0 <= j < from implies second.take(from as int)[j] == first.take(from as int)[j] by {
            assert(second[j] == second.take(first.len() as int)[j]);
        }
    }
}

fn add_row_bounds(air: &mut Air, rows: usize)
    requires
        old(air).wf(),
        old(air).spec_base_width() >= SPONGE_WIDTH,
        rows <= old(air).spec_length(),
    ensures
        final(air).wf(),
        bounds_follow(final(air).spec_boundaries(), old(air).spec_boundaries().len(), row_bounds(rows as nat)),
        final(air).spec_boundaries().take(old(air).spec_boundaries().len() as int) == old(air).spec_boundaries(),
        final(air).spec_transitions() == old(air).spec_transitions(),
        final(air).spec_permutations() == old(air).spec_permutations(),
        final(air).spec_base_width() == old(air).spec_base_width(),
        final(air).spec_aux_width() == old(air).spec_aux_width(),
        final(air).spec_length() == old(air).spec_length(),
        final(air).spec_num_challenges() == old(air).spec_num_challenges(),
{
    let rc = round_constants(SEGMENT_ROWS);
    let ghost from = air.spec_boundaries().len();
    let ghost list = row_bounds(rows as nat);
    let mut g: usize = 0;
    while g < rows
        invariant
            g <= rows,
            rows <= air.spec_length(),
            rc@.len() == 32,
            forall|i: int| 0 <= i < 32 ==> #[trigger] rc@[i] == spec_rc(i as nat),
            list == row_bounds(rows as nat),
            air.wf(),
            air.spec_base_width() >= SPONGE_WIDTH,
            air.spec_boundaries().len() == from + 3 * g,
            forall|j: int| 0 <= j < 3 * g ==> boundary_is(#[trigger] air.spec_boundaries()[from + j], list[j]),
            air.spec_boundaries().take(from as int) == old(air).spec_boundaries(),
            from == old(air).spec_boundaries().len(),
            air.spec_transitions() == old(air).spec_transitions(),
            air.spec_permutations() == old(air).spec_permutations(),
            air.spec_base_width() == old(air).spec_base_width(),
            air.spec_aux_width() == old(air).spec_aux_width(),
            air.spec_length() == old(air).spec_length(),
            air.spec_num_challenges() == old(air).spec_num_challenges(),
        decreases rows - g,
    {
        let r = g % SEGMENT_ROWS;
        let sel = if r < QUDROS_ROUNDS { Felt::one() } else { Felt::zero() };
        let (lo, hi) = lane_halves(rc[r]);
        let ghost before = air.spec_boundaries();
        air.add_boundary(SEL_COL, g, sel);
        air.add_boundary(RCHALF_OFF, g, lo);
        air.add_boundary(RCHALF_OFF + 1, g, hi);
        proof {
            assert forall|j: int| 0 <= j < 3 * (g + 1) implies boundary_is(#[trigger] air.spec_boundaries()[from + j], list[j]) by {
                if j < 3 * g {
                    assert(air.spec_boundaries()[from + j] == before[from + j]);
                } else {
                    assert(j / 3 == g as int);
                }
            }
            assert(air.spec_boundaries().take(from as int) =~= before.take(from as int));
        }
        g = g + 1;
    }
}

fn add_lane_bounds(air: &mut Air, lanes: &[u64; LANES], count: usize, row: usize)
    requires
        old(air).wf(),
        old(air).spec_base_width() >= SPONGE_WIDTH,
        row < old(air).spec_length(),
        count <= LANES,
    ensures
        final(air).wf(),
        bounds_follow(final(air).spec_boundaries(), old(air).spec_boundaries().len(), lane_bounds(lanes@, count as nat, row as nat)),
        final(air).spec_boundaries().take(old(air).spec_boundaries().len() as int) == old(air).spec_boundaries(),
        final(air).spec_transitions() == old(air).spec_transitions(),
        final(air).spec_permutations() == old(air).spec_permutations(),
        final(air).spec_base_width() == old(air).spec_base_width(),
        final(air).spec_aux_width() == old(air).spec_aux_width(),
        final(air).spec_length() == old(air).spec_length(),
        final(air).spec_num_challenges() == old(air).spec_num_challenges(),
{
    let ghost from = air.spec_boundaries().len();
    let ghost list = lane_bounds(lanes@, count as nat, row as nat);
    let mut l: usize = 0;
    while l < count
        invariant
            l <= count,
            count <= LANES,
            row < air.spec_length(),
            list == lane_bounds(lanes@, count as nat, row as nat),
            air.wf(),
            air.spec_base_width() >= SPONGE_WIDTH,
            air.spec_boundaries().len() == from + 2 * l,
            forall|j: int| 0 <= j < 2 * l ==> boundary_is(#[trigger] air.spec_boundaries()[from + j], list[j]),
            air.spec_boundaries().take(from as int) == old(air).spec_boundaries(),
            from == old(air).spec_boundaries().len(),
            air.spec_transitions() == old(air).spec_transitions(),
            air.spec_permutations() == old(air).spec_permutations(),
            air.spec_base_width() == old(air).spec_base_width(),
            air.spec_aux_width() == old(air).spec_aux_width(),
            air.spec_length() == old(air).spec_length(),
            air.spec_num_challenges() == old(air).spec_num_challenges(),
        decreases count - l,
    {
        let (lo, hi) = lane_halves(lanes[l]);
        let ghost before = air.spec_boundaries();
        air.add_boundary(HALF_OFF + 2 * l, row, lo);
        air.add_boundary(HALF_OFF + 2 * l + 1, row, hi);
        proof {
            assert forall|j: int| 0 <= j < 2 * (l + 1) implies boundary_is(#[trigger] air.spec_boundaries()[from + j], list[j]) by {
                if j < 2 * l {
                    assert(air.spec_boundaries()[from + j] == before[from + j]);
                } else {
                    assert(j / 2 == l as int);
                }
            }
            assert(air.spec_boundaries().take(from as int) =~= before.take(from as int));
        }
        l = l + 1;
    }
}

fn output_lanes_of(output: &[u8], rate: usize, j: usize, count: usize) -> (lanes: [u64; LANES])
    requires
        count <= LANES,
        j * rate + 8 * count <= usize::MAX,
    ensures
        forall|i: int| 0 <= i < count ==> #[trigger] lanes@[i] == output_lanes(output@, rate as nat, j as nat)[i],
{
    let mut lanes = [0u64; LANES];
    let mut l: usize = 0;
    while l < count
        invariant
            l <= count,
            count <= LANES,
            j * rate + 8 * count <= usize::MAX,
            forall|i: int| 0 <= i < l ==> #[trigger] lanes@[i] == output_lanes(output@, rate as nat, j as nat)[i],
        decreases count - l,
    {
        lanes[l] = chunk_lane(output, j * rate + 8 * l);
        l = l + 1;
    }
    lanes
}

/// The rules of a one block sponge appended after those an air had: the
/// state block rules at column zero, one selected round per row transition,
/// and the sponge boundaries after the boundaries it had.
pub open spec fn sponge_appended(
    before: Air,
    after: Air,
    rate: nat,
    perms: nat,
    message: Seq<u8>,
    output: Seq<u8>,
) -> bool {
    let mid = after.spec_transitions().take(before.spec_transitions().len() + BLOCK_RULES);
    &&& after.wf()
    &&& after.spec_base_width() == before.spec_base_width()
    &&& after.spec_aux_width() == before.spec_aux_width()
    &&& after.spec_length() == before.spec_length()
    &&& after.spec_num_challenges() == before.spec_num_challenges()
    &&& after.spec_permutations() == before.spec_permutations()
    &&& single_rows_appended(
        before.spec_transitions(),
        mid,
        BLOCK_RULES as nat,
        |k: nat| block_degree(k),
        |k: nat, row: Seq<Felt>| block_rule(0, k, row),
    )
    &&& transitions_appended(mid, after.spec_transitions(), 1600, true, |k: nat| 11, |k: nat, cur: Seq<Felt>, next: Seq<Felt>| sponge_rule(k, cur, next))
    &&& after.spec_boundaries().take(before.spec_boundaries().len() as int) == before.spec_boundaries()
    &&& bounds_follow(after.spec_boundaries(), before.spec_boundaries().len(), sponge_bounds(rate, perms, message, output))
}

/// Appends the rules of a one block sponge that absorbs a message and
/// squeezes the given output over the given number of permutations.
pub fn add_sponge_constraints(air: &mut Air, rate: usize, perms: usize, message: &[u8], output: &[u8])
    requires
        old(air).wf(),
        old(air).spec_base_width() >= SPONGE_WIDTH,
        perms * SEGMENT_ROWS <= old(air).spec_length(),
        perms * SEGMENT_ROWS <= usize::MAX,
        message@.len() < rate <= 200,
        perms > 0 ==> (perms - 1) * rate + 8 * (rate / 8) <= output@.len(),
    ensures
        sponge_appended(*old(air), *final(air), rate as nat, perms as nat, message@, output@),
{
    let ghost before = *air;
    let rows = perms * SEGMENT_ROWS;
    add_block_constraints(air, 0);
    let ghost mid = air.spec_transitions();
    add_sponge_transitions(air);
    proof {
        assert(air.spec_transitions().take(before.spec_transitions().len() + BLOCK_RULES) =~= mid);
    }
    let ghost transitions = air.spec_transitions();
    let ghost b0 = air.spec_boundaries();
    add_row_bounds(air, rows);
    let block = padded_block(rate, message);
    let input = block_to_lanes(block.as_slice());
    let ghost b1 = air.spec_boundaries();
    add_lane_bounds(air, &input, LANES, 0);
    proof {
        lemma_bounds_join(b1, air.spec_boundaries(), b0.len(), row_bounds(rows as nat), lane_bounds(input@, 25, 0));
    }
    let rl = rate / 8;
    let out_len = output.len();
    let mut j: usize = 0;
    while j < perms
        invariant
            j <= perms,
            out_len == output@.len(),
            rows == perms * SEGMENT_ROWS,
            rows <= air.spec_length(),
            rl == rate / 8,
            message@.len() < rate <= 200,
            perms > 0 ==> (perms - 1) * rate + 8 * (rate / 8) <= output@.len(),
            perms * SEGMENT_ROWS <= usize::MAX,
            input@ == sponge_start(rate as nat, message@),
            air.wf(),
            air.spec_base_width() == before.spec_base_width(),
            air.spec_base_width() >= SPONGE_WIDTH,
            air.spec_aux_width() == before.spec_aux_width(),
            air.spec_length() == before.spec_length(),
            air.spec_num_challenges() == before.spec_num_challenges(),
            air.spec_permutations() == before.spec_permutations(),
            air.spec_transitions() == transitions,
            b0 == before.spec_boundaries(),
            air.spec_boundaries().take(b0.len() as int) == b0,
            bounds_follow(air.spec_boundaries(), b0.len(),
                row_bounds(rows as nat) + lane_bounds(input@, 25, 0) + output_bounds(output@, rate as nat, j as nat)),
        decreases perms - j,
    {
        proof {
            assert(j * 32 + 24 <= perms * 32) by (nonlinear_arith)
                requires j < perms;
            assert(j * rate <= (perms - 1) * rate) by (nonlinear_arith)
                requires j <= perms - 1;
            assert(8 * (rate / 8) <= rate);
        }
        let out_row = j * SEGMENT_ROWS + QUDROS_ROUNDS;
        let lanes = output_lanes_of(output, rate, j, rl);
        let ghost b2 = air.spec_boundaries();
        add_lane_bounds(air, &lanes, rl, out_row);
        proof {
            assert(lane_bounds(lanes@, rl as nat, out_row as nat) =~= lane_bounds(output_lanes(output@, rate as nat, j as nat), rl as nat, out_row as nat));
            lemma_bounds_join(b2, air.spec_boundaries(), b0.len(),
                row_bounds(rows as nat) + lane_bounds(input@, 25, 0) + output_bounds(output@, rate as nat, j as nat),
                lane_bounds(lanes@, rl as nat, out_row as nat));
            assert(row_bounds(rows as nat) + lane_bounds(input@, 25, 0) + output_bounds(output@, rate as nat, (j + 1) as nat)
                =~= row_bounds(rows as nat) + lane_bounds(input@, 25, 0) + output_bounds(output@, rate as nat, j as nat)
                    + lane_bounds(lanes@, rl as nat, out_row as nat));
            assert(air.spec_boundaries().take(b0.len() as int) =~= b2.take(b0.len() as int));
        }
        j = j + 1;
    }
    proof {
        assert(row_bounds(rows as nat) + lane_bounds(input@, 25, 0) + output_bounds(output@, rate as nat, perms as nat)
            =~= sponge_bounds(rate as nat, perms as nat, message@, output@));
    }
}

/// What the description of a one block sponge holds on its own.
pub open spec fn describes_sponge(air: Air, rate: nat, perms: nat, message: Seq<u8>, output: Seq<u8>) -> bool {
    &&& air.wf()
    &&& air.spec_base_width() == SPONGE_WIDTH
    &&& air.spec_aux_width() == 0
    &&& air.spec_length() == perms * 32
    &&& air.spec_num_challenges() == 0
    &&& air.spec_permutations().len() == 0
    &&& single_rows_appended(
        Seq::empty(),
        air.spec_transitions().take(BLOCK_RULES as int),
        BLOCK_RULES as nat,
        |k: nat| block_degree(k),
        |k: nat, row: Seq<Felt>| block_rule(0, k, row),
    )
    &&& transitions_appended(
        air.spec_transitions().take(BLOCK_RULES as int),
        air.spec_transitions(),
        1600,
        true,
        |k: nat| 11,
        |k: nat, cur: Seq<Felt>, next: Seq<Felt>| sponge_rule(k, cur, next),
    )
    &&& bounds_follow(air.spec_boundaries(), 0, sponge_bounds(rate, perms, message, output))
}

/// The description of a one block SHAKE sponge over a message and its
/// squeezed output.
pub fn shake_air(rate: usize, perms: usize, message: &[u8], output: &[u8]) -> (air: Air)
    requires
        is_pow2((perms * 32) as nat),
        perms * 32 <= usize::MAX,
        message@.len() < rate <= 200,
        perms > 0 ==> (perms - 1) * rate + 8 * (rate / 8) <= output@.len(),
    ensures
        describes_sponge(air, rate as nat, perms as nat, message@, output@),
{
    let rows = perms * SEGMENT_ROWS;
    let mut air = Air::new(SPONGE_WIDTH, rows);
    proof {
        assert(air.spec_transitions() =~= Seq::<crate::air::Transition>::empty());
        assert(air.spec_boundaries() =~= Seq::<Boundary>::empty());
    }
    let ghost before = air;
    add_sponge_constraints(&mut air, rate, perms, message, output);
    proof {
        assert(air.spec_boundaries().len() == sponge_bounds(rate as nat, perms as nat, message@, output@).len());
        assert forall|j: int| 0 <= j < sponge_bounds(rate as nat, perms as nat, message@, output@).len()
            implies boundary_is(#[trigger] air.spec_boundaries()[0 + j], sponge_bounds(rate as nat, perms as nat, message@, output@)[j]) by {
            assert(boundary_is(air.spec_boundaries()[before.spec_boundaries().len() + j], sponge_bounds(rate as nat, perms as nat, message@, output@)[j]));
        }
    }
    air
}

/// The state on row r of a segment that starts from a state: the state
/// after r rounds, held at the output once the rounds are done.
pub open spec fn segment_state(start: Seq<u64>, r: nat) -> Seq<u64> {
    spec_states(start, if r < 24 { r } else { 24 })
}

/// A sponge row holds the state block of its segment row and its selector.
pub open spec fn sponge_row_filled(row: Seq<Felt>, state_in: Seq<u64>, r: nat, global: nat) -> bool {
    &&& block_row_filled(row, 0, segment_state(state_in, r), spec_rc(r))
    &&& cell_val(row, SEL_COL as int) == sel_val(global)
}

fn fill_segment(trace: &mut TraceTable, first: usize, state_in: &[u64; LANES], rc: &Vec<u64>)
    requires
        SPONGE_WIDTH <= old(trace).spec_width(),
        first + SEGMENT_ROWS <= old(trace).spec_length(),
        first % 32 == 0,
        rc@.len() == 32,
        forall|i: int| 0 <= i < 32 ==> #[trigger] rc@[i] == spec_rc(i as nat),
    ensures
        final(trace).spec_width() == old(trace).spec_width(),
        final(trace).spec_length() == old(trace).spec_length(),
        forall|r: int| 0 <= r < 32
            ==> sponge_row_filled(#[trigger] final(trace).spec_row(first + r), state_in@, r as nat, (first + r) as nat),
        forall|c: int, r: int| (r < first || r >= first + 32 || c >= SPONGE_WIDTH) && 0 <= c < old(trace).spec_width()
            && 0 <= r < old(trace).spec_length() ==> #[trigger] final(trace).cell(c, r) == old(trace).cell(c, r),
{
    let states = qudros_states(state_in, QUDROS_ROUNDS);
    let mut r: usize = 0;
    while r < SEGMENT_ROWS
        invariant
            r <= 32,
            SPONGE_WIDTH <= trace.spec_width(),
            first + 32 <= trace.spec_length(),
            first % 32 == 0,
            trace.spec_width() == old(trace).spec_width(),
            trace.spec_length() == old(trace).spec_length(),
            rc@.len() == 32,
            forall|i: int| 0 <= i < 32 ==> #[trigger] rc@[i] == spec_rc(i as nat),
            states@.len() == 25,
            forall|k: int| 0 <= k <= 24 ==> (#[trigger] states@[k])@ == spec_states(state_in@, k as nat),
            forall|i: int| 0 <= i < r
                ==> sponge_row_filled(#[trigger] trace.spec_row(first + i), state_in@, i as nat, (first + i) as nat),
            forall|c: int, rr: int| (rr < first || rr >= first + r || c >= SPONGE_WIDTH) && 0 <= c < old(trace).spec_width()
                && 0 <= rr < old(trace).spec_length() ==> #[trigger] trace.cell(c, rr) == old(trace).cell(c, rr),
        decreases 32 - r,
    {
        let g = first + r;
        let k = if r < QUDROS_ROUNDS { r } else { QUDROS_ROUNDS };
        let sel = if r < QUDROS_ROUNDS { Felt::one() } else { Felt::zero() };
        let ghost before = *trace;
        fill_block_row(trace, 0, g, &states[k], rc[r]);
        let ghost mid = *trace;
        trace.set(SEL_COL, g, sel);
        proof {
            vstd::arithmetic::div_mod::lemma_fundamental_div_mod_converse(g as int, 32, (first / 32) as int, r as int);
            let row = trace.spec_row(g as int);
            assert(sponge_row_filled(row, state_in@, r as nat, g as nat)) by {
                assert(rows_agree_below(row, mid.spec_row(g as int), QUDROS_WIDTH as nat)) by {
                    assert forall|c: int| 0 <= c < QUDROS_WIDTH implies #[trigger] cell_val(row, c) == cell_val(mid.spec_row(g as int), c) by {
                        assert(trace.cell(c, g as int) == mid.cell(c, g as int));
                    }
                }
                lemma_block_row_agree(row, mid.spec_row(g as int), states@[k as int]@, rc@[r as int]);
            }
            assert forall|i: int| 0 <= i < r + 1
                implies sponge_row_filled(#[trigger] trace.spec_row(first + i), state_in@, i as nat, (first + i) as nat) by {
                if i < r {
                    assert(trace.spec_row(first + i) =~= before.spec_row(first + i));
                }
            }
        }
        r = r + 1;
    }
}

/// A row that agrees with a filled sponge row on the sponge columns is a
/// filled sponge row too.
pub proof fn lemma_sponge_row_agree(a: Seq<Felt>, b: Seq<Felt>, state_in: Seq<u64>, r: nat, global: nat)
    requires
        rows_agree_below(a, b, SPONGE_WIDTH as nat),
        sponge_row_filled(b, state_in, r, global),
    ensures
        sponge_row_filled(a, state_in, r, global),
{
    assert(rows_agree_below(a, b, QUDROS_WIDTH as nat));
    lemma_block_row_agree(a, b, segment_state(state_in, r), spec_rc(r));
    assert(cell_val(a, SEL_COL as int) == cell_val(b, SEL_COL as int));
}

/// Two rows that agree below a column.
pub open spec fn rows_agree_below(a: Seq<Felt>, b: Seq<Felt>, width: nat) -> bool {
    forall|c: int| 0 <= c < width ==> #[trigger] cell_val(a, c) == cell_val(b, c)
}

proof fn lemma_block_row_agree(a: Seq<Felt>, b: Seq<Felt>, state: Seq<u64>, rc: u64)
    requires
        rows_agree_below(a, b, QUDROS_WIDTH as nat),
        block_row_filled(b, 0, state, rc),
    ensures
        block_row_filled(a, 0, state, rc),
{
    assert forall|l: int, z: int| 0 <= l < 25 && 0 <= z < 64
        implies #[trigger] cell_val(a, 0 + l * 64 + z) == crate::air::bit_of(state[l] as nat, z as nat) by {
        assert(cell_val(a, l * 64 + z) == cell_val(b, l * 64 + z));
    }
    assert forall|x: int, z: int| 0 <= x < 5 && 0 <= z < 64
        implies #[trigger] cell_val(a, 0 + crate::qudros::C_OFF + x * 64 + z)
            == crate::air::bit_of(crate::qudros::col_parity(state, x) as nat, z as nat) by {
        assert(cell_val(a, crate::qudros::C_OFF + x * 64 + z) == cell_val(b, crate::qudros::C_OFF + x * 64 + z));
    }
    assert forall|z: int| 0 <= z < 64 implies #[trigger] cell_val(a, 0 + crate::qudros::RC_OFF + z) == crate::air::bit_of(rc as nat, z as nat) by {
        assert(cell_val(a, crate::qudros::RC_OFF + z) == cell_val(b, crate::qudros::RC_OFF + z));
    }
    assert forall|l: int| 0 <= l < 25 implies #[trigger] cell_val(a, 0 + HALF_OFF + 2 * l) == half_of(state[l], false) by {
        assert(cell_val(a, HALF_OFF + 2 * l) == cell_val(b, HALF_OFF + 2 * l));
    }
    assert forall|l: int| 0 <= l < 25 implies #[trigger] cell_val(a, 0 + HALF_OFF + 2 * l + 1) == half_of(state[l], true) by {
        assert(cell_val(a, HALF_OFF + 2 * l + 1) == cell_val(b, HALF_OFF + 2 * l + 1));
    }
    assert(cell_val(a, RCHALF_OFF as int) == cell_val(b, RCHALF_OFF as int));
    assert(cell_val(a, RCHALF_OFF + 1) == cell_val(b, RCHALF_OFF + 1));
}

/// Fills the state, selector and half columns of a one block sponge trace:
/// segment j runs the permutation from the state entering permutation j.
pub fn fill_sponge_columns(trace: &mut TraceTable, rate: usize, perms: usize, message: &[u8])
    requires
        SPONGE_WIDTH <= old(trace).spec_width(),
        perms * SEGMENT_ROWS <= old(trace).spec_length(),
        message@.len() < rate <= 200,
    ensures
        final(trace).spec_width() == old(trace).spec_width(),
        final(trace).spec_length() == old(trace).spec_length(),
        forall|j: int, r: int| 0 <= j < perms && 0 <= r < 32
            ==> sponge_row_filled(#[trigger] final(trace).spec_row(j * 32 + r),
                squeeze_state(sponge_start(rate as nat, message@), j as nat), r as nat, (j * 32 + r) as nat),
        forall|c: int, r: int| (r >= perms * 32 || c >= SPONGE_WIDTH) && 0 <= c < old(trace).spec_width()
            && 0 <= r < old(trace).spec_length() ==> #[trigger] final(trace).cell(c, r) == old(trace).cell(c, r),
{
    let (ins, _) = sponge_states(rate, perms, message);
    let ghost start = sponge_start(rate as nat, message@);
    let rc = round_constants(SEGMENT_ROWS);
    let mut j: usize = 0;
    while j < perms
        invariant
            j <= perms,
            SPONGE_WIDTH <= trace.spec_width(),
            perms * 32 <= trace.spec_length(),
            trace.spec_width() == old(trace).spec_width(),
            trace.spec_length() == old(trace).spec_length(),
            start == sponge_start(rate as nat, message@),
            ins@.len() == perms,
            forall|i: int| 0 <= i < perms ==> (#[trigger] ins@[i])@ == squeeze_state(start, i as nat),
            rc@.len() == 32,
            forall|i: int| 0 <= i < 32 ==> #[trigger] rc@[i] == spec_rc(i as nat),
            forall|i: int, r: int| 0 <= i < j && 0 <= r < 32
                ==> sponge_row_filled(#[trigger] trace.spec_row(i * 32 + r), squeeze_state(start, i as nat), r as nat, (i * 32 + r) as nat),
            forall|c: int, r: int| (r >= j * 32 || c >= SPONGE_WIDTH) && 0 <= c < old(trace).spec_width()
                && 0 <= r < old(trace).spec_length() ==> #[trigger] trace.cell(c, r) == old(trace).cell(c, r),
        decreases perms - j,
    {
        proof {
            assert(j * 32 + 32 <= perms * 32) by (nonlinear_arith)
                requires j < perms;
        }
        let ghost before = *trace;
        fill_segment(trace, j * SEGMENT_ROWS, &ins[j], &rc);
        proof {
            assert forall|i: int, r: int| 0 <= i < j + 1 && 0 <= r < 32
                implies sponge_row_filled(#[trigger] trace.spec_row(i * 32 + r), squeeze_state(start, i as nat), r as nat, (i * 32 + r) as nat) by {
                if i < j {
                    assert(i * 32 + r < j * 32) by (nonlinear_arith)
                        requires i < j, r < 32;
                    assert(trace.spec_row(i * 32 + r) =~= before.spec_row(i * 32 + r));
                } else {
                    assert(ins@[i]@ == squeeze_state(start, i as nat));
                }
            }
        }
        j = j + 1;
    }
}

/// A one block SHAKE sponge laid out for proving.
pub struct SpongeInstance {
    pub air: Air,
    pub trace: TraceTable,
    pub output: Vec<u8>,
}

/// Runs a one block SHAKE sponge for the given number of permutations and
/// lays out its trace and its description.
pub fn shake_trace(rate: usize, perms: usize, message: &[u8]) -> (instance: SpongeInstance)
    requires
        is_pow2((perms * 32) as nat),
        SPONGE_WIDTH * (perms * 32) <= usize::MAX,
        message@.len() < rate <= 200,
        perms > 0 ==> (perms - 1) * rate + 8 * (rate / 8) <= perms * (8 * (rate / 8)),
    ensures
        instance.output@ == squeeze_bytes(sponge_start(rate as nat, message@), (rate / 8) as nat, perms as nat),
        describes_sponge(instance.air, rate as nat, perms as nat, message@, instance.output@),
        instance.trace.spec_width() == SPONGE_WIDTH,
        instance.trace.spec_length() == perms * 32,
        forall|j: int, r: int| 0 <= j < perms && 0 <= r < 32
            ==> sponge_row_filled(#[trigger] instance.trace.spec_row(j * 32 + r),
                squeeze_state(sponge_start(rate as nat, message@), j as nat), r as nat, (j * 32 + r) as nat),
{
    proof {
        assert(perms * 32 <= SPONGE_WIDTH * (perms * 32)) by (nonlinear_arith);
    }
    let rows = perms * SEGMENT_ROWS;
    let mut trace = TraceTable::new(SPONGE_WIDTH, rows);
    fill_sponge_columns(&mut trace, rate, perms, message);
    let output = shake_output(rate, perms, message);
    proof {
        lemma_squeeze_len(sponge_start(rate as nat, message@), (rate / 8) as nat, perms as nat);
    }
    let air = shake_air(rate, perms, message, output.as_slice());
    SpongeInstance { air, trace, output }
}

/// The bytes of some lanes of a state number eight per lane.
pub proof fn lemma_lane_bytes_len(state: Seq<u64>, lanes: nat)
    ensures
        lane_bytes(state, lanes).len() == 8 * lanes,
    decreases lanes,
{
    if lanes > 0 {
        lemma_lane_bytes_len(state, (lanes - 1) as nat);
    }
}

/// The squeezed bytes number eight per lane per permutation.
pub proof fn lemma_squeeze_len(start: Seq<u64>, lanes: nat, count: nat)
    ensures
        squeeze_bytes(start, lanes, count).len() == count * (8 * lanes),
    decreases count,
{
    if count == 0 {
        assert(0 * (8 * lanes) == 0);
    } else {
        lemma_squeeze_len(start, lanes, (count - 1) as nat);
        lemma_lane_bytes_len(squeeze_state(start, count), lanes);
        assert(count * (8 * lanes) == (count - 1) * (8 * lanes) + 8 * lanes) by (nonlinear_arith);
    }
}

fn copy_range(bytes: &[u8], start: usize, end: usize) -> (r: Vec<u8>)
    requires
        start <= end <= bytes@.len(),
    ensures
        r@ == bytes@.subrange(start as int, end as int),
{
    let mut r: Vec<u8> = Vec::new();
    let mut i: usize = start;
    while i < end
        invariant
            start <= i <= end,
            end <= bytes@.len(),
            r@ == bytes@.subrange(start as int, i as int),
        decreases end - i,
    {
        r.push(bytes[i]);
        i = i + 1;
        assert(r@ =~= bytes@.subrange(start as int, i as int));
    }
    r
}

/// The number of rate lanes.
fn rate_lanes(rate: usize) -> (r: usize)
    ensures
        r == rate / 8,
{
    rate / 8
}

/// The bytes of absorbed block b: a full rate of the message, or for the
/// last block the rest of the message padded.
pub open spec fn absorb_block_bytes(rate: nat, message: Seq<u8>, b: nat) -> Seq<u8> {
    if (b + 1) * rate <= message.len() {
        message.subrange((b * rate) as int, ((b + 1) * rate) as int)
    } else {
        spec_padded(rate, message.subrange((b * rate) as int, message.len() as int))
    }
}

/// The lanes of absorbed block b.
pub open spec fn absorb_block(rate: nat, message: Seq<u8>, b: nat) -> Seq<u64> {
    spec_block_lanes(absorb_block_bytes(rate, message, b))
}

/// The number of blocks a message absorbs as: its full blocks and one
/// padded block.
pub open spec fn block_count(rate: nat, message: Seq<u8>) -> nat {
    message.len() / rate + 1
}

/// A state with the first lanes xored with a block.
pub open spec fn xor_rate(state: Seq<u64>, block: Seq<u64>, lanes: nat) -> Seq<u64> {
    Seq::new(25, |l: int| if l < lanes { state[l] ^ block[l] } else { state[l] })
}

/// The state entering permutation j of a multi block absorb: the first
/// block, then after each permutation the next block xored in while blocks
/// remain.
pub open spec fn absorb_state(rate: nat, message: Seq<u8>, j: nat) -> Seq<u64>
    decreases j,
{
    if j == 0 {
        absorb_block(rate, message, 0)
    } else {
        let out = perm(absorb_state(rate, message, (j - 1) as nat));
        if j < block_count(rate, message) {
            xor_rate(out, absorb_block(rate, message, j), rate / 8)
        } else {
            out
        }
    }
}

/// The lanes of the absorbed blocks of a message.
pub fn absorb_blocks(rate: usize, message: &[u8]) -> (blocks: Vec<[u64; LANES]>)
    requires
        0 < rate <= 200,
    ensures
        blocks@.len() == block_count(rate as nat, message@),
        forall|b: int| 0 <= b < blocks@.len() ==> (#[trigger] blocks@[b])@ == absorb_block(rate as nat, message@, b as nat),
{
    let mut blocks: Vec<[u64; LANES]> = Vec::new();
    let mut i: usize = 0;
    proof {
        assert(0 * rate == 0) by (nonlinear_arith);
    }
    while message.len() - i >= rate
        invariant
            0 < rate <= 200,
            i <= message@.len(),
            i == blocks@.len() * rate,
            forall|b: int| 0 <= b < blocks@.len() ==> (#[trigger] blocks@[b])@ == absorb_block(rate as nat, message@, b as nat),
        decreases message@.len() - i,
    {
        let block = copy_range(message, i, i + rate);
        let lanes = block_to_lanes(block.as_slice());
        proof {
            let b = blocks@.len();
            assert((b + 1) * rate == i + rate) by (nonlinear_arith)
                requires i == b * rate;
        }
        blocks.push(lanes);
        i = i + rate;
        proof {
            assert(i == blocks@.len() * rate) by (nonlinear_arith)
                requires i == (blocks@.len() - 1) * rate + rate;
        }
    }
    let rest = copy_range(message, i, message.len());
    let last = padded_block(rate, rest.as_slice());
    let lanes = block_to_lanes(last.as_slice());
    proof {
        let b = blocks@.len();
        vstd::arithmetic::div_mod::lemma_fundamental_div_mod_converse(message@.len() as int, rate as int, b as int, (message@.len() - i) as int);
        assert(!((b + 1) * rate <= message@.len())) by (nonlinear_arith)
            requires i == b * rate, message@.len() - i < rate;
    }
    blocks.push(lanes);
    blocks
}

/// The number of blocks a message absorbs as.
pub fn absorb_block_count(rate: usize, message: &[u8]) -> (count: usize)
    requires
        rate > 0,
        message@.len() < usize::MAX,
    ensures
        count == block_count(rate as nat, message@),
{
    message.len() / rate + 1
}

/// The number of permutation segments of an absorb trace, the block count
/// rounded up to a power of two.
pub fn absorb_segments(rate: usize, message: &[u8]) -> (segments: usize)
    requires
        rate > 0,
        message@.len() < usize::MAX,
        next_pow2(block_count(rate as nat, message@)) <= usize::MAX,
    ensures
        segments == next_pow2(block_count(rate as nat, message@)),
{
    next_power_of_two(absorb_block_count(rate, message))
}

/// The states entering the first segments permutations of a multi block
/// absorb.
pub fn absorb_states(rate: usize, message: &[u8], segments: usize) -> (states: Vec<[u64; LANES]>)
    requires
        0 < rate <= 200,
    ensures
        states@.len() == segments,
        forall|j: int| 0 <= j < segments ==> (#[trigger] states@[j])@ == absorb_state(rate as nat, message@, j as nat),
{
    let blocks = absorb_blocks(rate, message);
    let nblocks = blocks.len();
    let rl = rate_lanes(rate);
    let mut states: Vec<[u64; LANES]> = Vec::new();
    let mut state = blocks[0];
    let mut j: usize = 0;
    while j < segments
        invariant
            0 < rate <= 200,
            rl == rate / 8,
            nblocks == blocks@.len(),
            nblocks == block_count(rate as nat, message@),
            forall|b: int| 0 <= b < nblocks ==> (#[trigger] blocks@[b])@ == absorb_block(rate as nat, message@, b as nat),
            j <= segments,
            states@.len() == j,
            state@ == absorb_state(rate as nat, message@, j as nat),
            forall|k: int| 0 <= k < j ==> (#[trigger] states@[k])@ == absorb_state(rate as nat, message@, k as nat),
        decreases segments - j,
    {
        states.push(state);
        let out = qudros_f1600(&state);
        if j + 1 < nblocks {
            let mut next = out;
            let mut l: usize = 0;
            while l < rl
                invariant
                    l <= rl,
                    rl == rate / 8,
                    rate <= 200,
                    j + 1 < nblocks,
                    nblocks == blocks@.len(),
                    forall|i: int| 0 <= i < l ==> #[trigger] next@[i] == out@[i] ^ blocks@[j + 1]@[i],
                    forall|i: int| l <= i < 25 ==> #[trigger] next@[i] == out@[i],
                decreases rl - l,
            {
                next[l] = next[l] ^ blocks[j + 1][l];
                l = l + 1;
            }
            proof {
                assert(next@ =~= xor_rate(out@, blocks@[j + 1]@, rl as nat));
            }
            state = next;
        } else {
            state = out;
        }
        j = j + 1;
    }
    states
}

/// The squeezed rate bytes after a multi block absorb.
pub open spec fn absorb_output_spec(rate: nat, message: Seq<u8>) -> Seq<u8> {
    lane_bytes(perm(absorb_state(rate, message, (block_count(rate, message) - 1) as nat)), rate / 8)
}

/// Absorbs a message of any length and squeezes one rate of output.
pub fn absorb_output(rate: usize, message: &[u8]) -> (bytes: Vec<u8>)
    requires
        0 < rate <= 200,
        message@.len() < usize::MAX,
    ensures
        bytes@ == absorb_output_spec(rate as nat, message@),
{
    let nblocks = absorb_block_count(rate, message);
    let states = absorb_states(rate, message, nblocks);
    let out = qudros_f1600(&states[nblocks - 1]);
    let mut bytes: Vec<u8> = Vec::new();
    push_lanes(&mut bytes, &out, rate_lanes(rate));
    proof {
        assert(bytes@ =~= absorb_output_spec(rate as nat, message@));
    }
    bytes
}

/// Whether bit z of a lane is set.
pub open spec fn lane_bit(v: u64, z: u64) -> bool {
    (v >> z) & 1u64 == 1u64
}

/// The correction the block selectors add to a rate bit: for each block
/// after the first whose bit at the lane and position is set, the selector
/// of that block times one less twice the carried bit, which flips the bit
/// on the one row where the selector is one.
pub open spec fn absorb_adjust(blocks: Seq<Seq<u64>>, l: int, z: int, count: nat, cur: Seq<Felt>, carried: nat) -> nat
    decreases count,
{
    if count == 0 {
        0
    } else {
        let b = count - 1;
        let prev = absorb_adjust(blocks, l, z, (count - 1) as nat, cur, carried);
        if lane_bit(blocks[b + 1][l], z as u64) {
            fadd(prev, fmul(cell_val(cur, SPONGE_WIDTH + b), fsub(fsub(1, carried), carried)))
        } else {
            prev
        }
    }
}

/// Absorb transition k: on the rate lanes the selected bit with the block
/// corrections, elsewhere the selected bit.
pub open spec fn absorb_rule(blocks: Seq<Seq<u64>>, rate_lanes: nat, k: nat, cur: Seq<Felt>, next: Seq<Felt>) -> nat {
    let (x, y, z) = rule_coords(k);
    let target = spec_s_idx(x, y, z);
    if x + 5 * y < rate_lanes {
        let adj = absorb_adjust(blocks, x + 5 * y, z, (blocks.len() - 1) as nat, cur, cell_val(cur, target));
        fsub(cell_val(next, target), fadd(selected_bit_val(cur, x, y, z), adj))
    } else {
        fsub(cell_val(next, target), selected_bit_val(cur, x, y, z))
    }
}

/// The views of a list of blocks.
pub open spec fn block_views(blocks: Seq<[u64; LANES]>) -> Seq<Seq<u64>> {
    Seq::new(blocks.len(), |b: int| blocks[b]@)
}

fn absorb_rule_expr(blocks: &Vec<[u64; LANES]>, rl: usize, k: usize) -> (e: Expr)
    requires
        k < 1600,
        blocks@.len() >= 1,
        SPONGE_WIDTH + blocks@.len() <= usize::MAX,
    ensures
        forall|cur: Seq<Felt>, next: Seq<Felt>| #[trigger] e.value(cur, next) == absorb_rule(block_views(blocks@), rl as nat, k as nat, cur, next),
        e.reads_below((SPONGE_WIDTH + blocks@.len() - 1) as nat),
{
    let x = k / 320;
    let y = (k / 64) % 5;
    let z = k % 64;
    let l = x + 5 * y;
    let target = s_idx(x, y, z);
    let width = SPONGE_WIDTH + blocks.len() - 1;
    let base = selected_bit_expr(x, y, z);
    let ghost g = base;
    proof {
        crate::qudros::lemma_reads_widen(base, SPONGE_WIDTH as nat, width as nat);
    }
    if l < rl {
        let ghost views = block_views(blocks@);
        let mut adj = Expr::constant(Felt::zero());
        let mut b: usize = 0;
        while b + 1 < blocks.len()
            invariant
                b + 1 <= blocks@.len(),
                views == block_views(blocks@),
                width == SPONGE_WIDTH + blocks@.len() - 1,
                SPONGE_WIDTH + blocks@.len() <= usize::MAX,
                l < 25,
                z < 64,
                target < SPONGE_WIDTH,
                forall|cur: Seq<Felt>, next: Seq<Felt>| #[trigger] adj.value(cur, next)
                    == absorb_adjust(views, l as int, z as int, b as nat, cur, cell_val(cur, target as int)),
                adj.reads_below(width as nat),
            decreases blocks@.len() - b,
        {
            let ghost prev = adj;
            let bit = (blocks[b + 1][l] >> (z as u64)) & 1;
            if bit == 1 {
                let one = Felt::one();
                let flip = Expr::constant(one).sub(Expr::cur(target)).sub(Expr::cur(target));
                adj = adj.add(Expr::cur(SPONGE_WIDTH + b).mul(flip));
                proof {
                    assert forall|cur: Seq<Felt>, next: Seq<Felt>| #[trigger] adj.value(cur, next)
                        == absorb_adjust(views, l as int, z as int, (b + 1) as nat, cur, cell_val(cur, target as int)) by {
                        reveal_with_fuel(Expr::value, 5);
                        assert(prev.value(cur, next) == absorb_adjust(views, l as int, z as int, b as nat, cur, cell_val(cur, target as int)));
                        assert(lane_bit(views[b + 1][l as int], z as u64));
                    }
                    reveal_with_fuel(Expr::reads_below, 5);
                }
            } else {
                proof {
                    assert forall|cur: Seq<Felt>, next: Seq<Felt>| #[trigger] adj.value(cur, next)
                        == absorb_adjust(views, l as int, z as int, (b + 1) as nat, cur, cell_val(cur, target as int)) by {
                        assert(!lane_bit(views[b + 1][l as int], z as u64));
                    }
                }
            }
            b = b + 1;
        }
        let ghost ga = adj;
        let e = Expr::next(target).sub(base.add(adj));
        proof {
            assert forall|cur: Seq<Felt>, next: Seq<Felt>| #[trigger] e.value(cur, next)
                == absorb_rule(block_views(blocks@), rl as nat, k as nat, cur, next) by {
                reveal_with_fuel(Expr::value, 3);
                assert(g.value(cur, next) == selected_bit_val(cur, x as int, y as int, z as int));
                assert(ga.value(cur, next) == absorb_adjust(views, l as int, z as int, (blocks@.len() - 1) as nat, cur, cell_val(cur, target as int)));
            }
            reveal_with_fuel(Expr::reads_below, 3);
        }
        e
    } else {
        let e = Expr::next(target).sub(base);
        proof {
            assert forall|cur: Seq<Felt>, next: Seq<Felt>| #[trigger] e.value(cur, next)
                == absorb_rule(block_views(blocks@), rl as nat, k as nat, cur, next) by {
                reveal_with_fuel(Expr::value, 2);
                assert(g.value(cur, next) == selected_bit_val(cur, x as int, y as int, z as int));
            }
            reveal_with_fuel(Expr::reads_below, 2);
        }
        e
    }
}

fn add_absorb_transitions(air: &mut Air, blocks: &Vec<[u64; LANES]>, rl: usize)
    requires
        old(air).wf(),
        blocks@.len() >= 1,
        SPONGE_WIDTH + blocks@.len() <= usize::MAX,
        old(air).spec_base_width() == SPONGE_WIDTH + blocks@.len() - 1,
    ensures
        final(air).wf(),
        transitions_appended(
            old(air).spec_transitions(),
            final(air).spec_transitions(),
            1600,
            true,
            |k: nat| 11,
            |k: nat, cur: Seq<Felt>, next: Seq<Felt>| absorb_rule(block_views(blocks@), rl as nat, k, cur, next),
        ),
        final(air).spec_boundaries() == old(air).spec_boundaries(),
        final(air).spec_permutations() == old(air).spec_permutations(),
        final(air).spec_base_width() == old(air).spec_base_width(),
        final(air).spec_aux_width() == old(air).spec_aux_width(),
        final(air).spec_length() == old(air).spec_length(),
        final(air).spec_num_challenges() == old(air).spec_num_challenges(),
{
    let ghost start = air.spec_transitions();
    let ghost degree = |k: nat| 11nat;
    let ghost rule = |k: nat, cur: Seq<Felt>, next: Seq<Felt>| absorb_rule(block_views(blocks@), rl as nat, k, cur, next);
    let mut k: usize = 0;
    while k < 1600
        invariant
            k <= 1600,
            air.wf(),
            blocks@.len() >= 1,
            SPONGE_WIDTH + blocks@.len() <= usize::MAX,
            air.spec_base_width() == SPONGE_WIDTH + blocks@.len() - 1,
            transitions_appended(start, air.spec_transitions(), k as nat, true, degree, rule),
            degree == (|k: nat| 11nat),
            rule == (|k: nat, cur: Seq<Felt>, next: Seq<Felt>| absorb_rule(block_views(blocks@), rl as nat, k, cur, next)),
            air.spec_boundaries() == old(air).spec_boundaries(),
            air.spec_permutations() == old(air).spec_permutations(),
            air.spec_base_width() == old(air).spec_base_width(),
            air.spec_aux_width() == old(air).spec_aux_width(),
            air.spec_length() == old(air).spec_length(),
            air.spec_num_challenges() == old(air).spec_num_challenges(),
        decreases 1600 - k,
    {
        let e = absorb_rule_expr(blocks, rl, k);
        proof {
            assert forall|cur: Seq<Felt>, next: Seq<Felt>| #[trigger] e.value(cur, next) == rule(k as nat, cur, next) by {
                assert(e.value(cur, next) == absorb_rule(block_views(blocks@), rl as nat, k as nat, cur, next));
            }
        }
        let ghost mid = air.spec_transitions();
        air.add_transition(11, e);
        proof {
            lemma_append_transition(start, mid, air.spec_transitions(), k as nat, true, degree, rule, air.spec_transitions().last());
        }
        k = k + 1;
    }
}

/// The boundaries of one block selector column: one on its hot row, zero
/// on every other row.
pub open spec fn selector_bounds(col: nat, rows: nat, hot: nat) -> Seq<(nat, nat, nat)> {
    Seq::new(rows, |g: int| (col, g as nat, if g == hot { 1nat } else { 0nat }))
}

/// The boundaries of the first count block selector columns: the selector
/// of block b plus one is hot on the last row of segment b.
pub open spec fn sel_bounds(count: nat, rows: nat) -> Seq<(nat, nat, nat)>
    decreases count,
{
    if count == 0 {
        Seq::empty()
    } else {
        let b = (count - 1) as nat;
        sel_bounds(b, rows) + selector_bounds((SPONGE_WIDTH + b) as nat, rows, b * 32 + 31)
    }
}

fn add_selector_bounds(air: &mut Air, col: usize, rows: usize, hot: usize)
    requires
        old(air).wf(),
        col < old(air).spec_base_width(),
        rows <= old(air).spec_length(),
    ensures
        final(air).wf(),
        bounds_follow(final(air).spec_boundaries(), old(air).spec_boundaries().len(), selector_bounds(col as nat, rows as nat, hot as nat)),
        final(air).spec_boundaries().take(old(air).spec_boundaries().len() as int) == old(air).spec_boundaries(),
        final(air).spec_transitions() == old(air).spec_transitions(),
        final(air).spec_permutations() == old(air).spec_permutations(),
        final(air).spec_base_width() == old(air).spec_base_width(),
        final(air).spec_aux_width() == old(air).spec_aux_width(),
        final(air).spec_length() == old(air).spec_length(),
        final(air).spec_num_challenges() == old(air).spec_num_challenges(),
{
    let ghost from = air.spec_boundaries().len();
    let ghost list = selector_bounds(col as nat, rows as nat, hot as nat);
    let mut g: usize = 0;
    while g < rows
        invariant
            g <= rows,
            rows <= air.spec_length(),
            col < air.spec_base_width(),
            list == selector_bounds(col as nat, rows as nat, hot as nat),
            air.wf(),
            air.spec_boundaries().len() == from + g,
            forall|j: int| 0 <= j < g ==> boundary_is(#[trigger] air.spec_boundaries()[from + j], list[j]),
            air.spec_boundaries().take(from as int) == old(air).spec_boundaries(),
            from == old(air).spec_boundaries().len(),
            air.spec_transitions() == old(air).spec_transitions(),
            air.spec_permutations() == old(air).spec_permutations(),
            air.spec_base_width() == old(air).spec_base_width(),
            air.spec_aux_width() == old(air).spec_aux_width(),
            air.spec_length() == old(air).spec_length(),
            air.spec_num_challenges() == old(air).spec_num_challenges(),
        decreases rows - g,
    {
        let value = if g == hot { Felt::one() } else { Felt::zero() };
        let ghost before = air.spec_boundaries();
        air.add_boundary(col, g, value);
        proof {
            assert forall|j: int| 0 <= j < g + 1 implies boundary_is(#[trigger] air.spec_boundaries()[from + j], list[j]) by {
                if j < g {
                    assert(air.spec_boundaries()[from + j] == before[from + j]);
                }
            }
            assert(air.spec_boundaries().take(from as int) =~= before.take(from as int));
        }
        g = g + 1;
    }
}

/// The blocks of a message as a list of lanes.
pub open spec fn absorb_block_list(rate: nat, message: Seq<u8>) -> Seq<Seq<u64>> {
    Seq::new(block_count(rate, message), |b: int| absorb_block(rate, message, b as nat))
}

/// The rows of a multi block absorb trace.
pub open spec fn absorb_rows(rate: nat, message: Seq<u8>) -> nat {
    next_pow2(block_count(rate, message)) * 32
}

/// The boundaries of a multi block absorb description, in order: the
/// selector and round constant halves of every row, the block selector
/// columns, the first block's halves on the first row, and the squeezed
/// rate halves on the output row of the last block.
pub open spec fn absorb_bounds(rate: nat, message: Seq<u8>, output: Seq<u8>) -> Seq<(nat, nat, nat)> {
    let nblocks = block_count(rate, message);
    let rows = absorb_rows(rate, message);
    row_bounds(rows) + sel_bounds((nblocks - 1) as nat, rows) + lane_bounds(absorb_block(rate, message, 0), 25, 0)
        + lane_bounds(output_lanes(output, rate, 0), rate / 8, ((nblocks - 1) * 32 + 24) as nat)
}

/// What the description of a multi block absorb holds.
pub open spec fn describes_absorb(air: Air, rate: nat, message: Seq<u8>, output: Seq<u8>) -> bool {
    &&& air.wf()
    &&& air.spec_base_width() == SPONGE_WIDTH + block_count(rate, message) - 1
    &&& air.spec_aux_width() == 0
    &&& air.spec_length() == absorb_rows(rate, message)
    &&& air.spec_num_challenges() == 0
    &&& air.spec_permutations().len() == 0
    &&& single_rows_appended(
        Seq::empty(),
        air.spec_transitions().take(BLOCK_RULES as int),
        BLOCK_RULES as nat,
        |k: nat| block_degree(k),
        |k: nat, row: Seq<Felt>| block_rule(0, k, row),
    )
    &&& transitions_appended(
        air.spec_transitions().take(BLOCK_RULES as int),
        air.spec_transitions(),
        1600,
        true,
        |k: nat| 11,
        |k: nat, cur: Seq<Felt>, next: Seq<Felt>| absorb_rule(absorb_block_list(rate, message), rate / 8, k, cur, next),
    )
    &&& bounds_follow(air.spec_boundaries(), 0, absorb_bounds(rate, message, output))
}

/// The description of a multi block absorb of a message and the rate bytes
/// squeezed after it.
#[verifier::rlimit(40)]
pub fn absorb_air(rate: usize, message: &[u8], output: &[u8]) -> (air: Air)
    requires
        0 < rate <= 200,
        message@.len() < usize::MAX,
        next_pow2(block_count(rate as nat, message@)) * 32 <= usize::MAX,
        8 * (rate / 8) <= output@.len(),
    ensures
        describes_absorb(air, rate as nat, message@, output@),
{
    let blocks = absorb_blocks(rate, message);
    let nblocks = blocks.len();
    proof {
        crate::util::lemma_next_pow2(nblocks as nat);
        assert(nblocks <= next_pow2(nblocks as nat) * 32) by (nonlinear_arith)
            requires nblocks <= next_pow2(nblocks as nat);
        assert(block_views(blocks@) =~= absorb_block_list(rate as nat, message@));
    }
    let segments = next_power_of_two(nblocks);
    let rl = rate_lanes(rate);
    let rows = segments * SEGMENT_ROWS;
    let width = SPONGE_WIDTH + nblocks - 1;
    proof {
        assert(is_pow2(rows as nat)) by {
            crate::util::lemma_pow2_times_32(segments as nat);
        }
    }
    let mut air = Air::new(width, rows);
    proof {
        assert(air.spec_transitions() =~= Seq::<crate::air::Transition>::empty());
        assert(air.spec_boundaries() =~= Seq::<Boundary>::empty());
    }
    add_block_constraints(&mut air, 0);
    let ghost mid = air.spec_transitions();
    add_absorb_transitions(&mut air, &blocks, rl);
    proof {
        assert(air.spec_transitions().take(BLOCK_RULES as int) =~= mid);
    }
    let ghost transitions = air.spec_transitions();
    add_row_bounds(&mut air, rows);
    let ghost list0 = row_bounds(rows as nat);
    let mut b: usize = 0;
    while b + 1 < nblocks
        invariant
            b + 1 <= nblocks,
            nblocks == blocks@.len(),
            nblocks == block_count(rate as nat, message@),
            rows == segments * 32,
            segments == next_pow2(nblocks as nat),
            nblocks <= segments,
            width == SPONGE_WIDTH + nblocks - 1,
            list0 == row_bounds(rows as nat),
            air.wf(),
            air.spec_base_width() == width,
            air.spec_aux_width() == 0,
            air.spec_length() == rows,
            air.spec_num_challenges() == 0,
            air.spec_permutations().len() == 0,
            air.spec_transitions() == transitions,
            bounds_follow(air.spec_boundaries(), 0, list0 + sel_bounds(b as nat, rows as nat)),
        decreases nblocks - b,
    {
        let ghost before = air.spec_boundaries();
        proof {
            assert(b * 32 + 31 < rows) by (nonlinear_arith)
                requires b + 1 < nblocks, nblocks <= segments, rows == segments * 32;
        }
        add_selector_bounds(&mut air, SPONGE_WIDTH + b, rows, b * SEGMENT_ROWS + SEGMENT_ROWS - 1);
        proof {
            assert(before.take(before.len() as int) =~= before);
            lemma_bounds_join(before, air.spec_boundaries(), 0, list0 + sel_bounds(b as nat, rows as nat),
                selector_bounds((SPONGE_WIDTH + b) as nat, rows as nat, (b * 32 + 31) as nat));
            assert(list0 + sel_bounds((b + 1) as nat, rows as nat) =~= list0 + sel_bounds(b as nat, rows as nat)
                + selector_bounds((SPONGE_WIDTH + b) as nat, rows as nat, (b * 32 + 31) as nat));
        }
        b = b + 1;
    }
    let ghost list1 = list0 + sel_bounds((nblocks - 1) as nat, rows as nat);
    let first = blocks[0];
    let ghost b1 = air.spec_boundaries();
    add_lane_bounds(&mut air, &first, LANES, 0);
    proof {
        assert(b1.take(b1.len() as int) =~= b1);
        lemma_bounds_join(b1, air.spec_boundaries(), 0, list1, lane_bounds(first@, 25, 0));
    }
    proof {
        assert((nblocks - 1) * 32 + 24 < rows) by (nonlinear_arith)
            requires nblocks >= 1, nblocks <= segments, rows == segments * 32;
    }
    let out_row = (nblocks - 1) * SEGMENT_ROWS + QUDROS_ROUNDS;
    let lanes = output_lanes_of(output, rate, 0, rl);
    let ghost b2 = air.spec_boundaries();
    add_lane_bounds(&mut air, &lanes, rl, out_row);
    proof {
        assert(b2.take(b2.len() as int) =~= b2);
        lemma_bounds_join(b2, air.spec_boundaries(), 0, list1 + lane_bounds(first@, 25, 0), lane_bounds(lanes@, rl as nat, out_row as nat));
        assert(lane_bounds(lanes@, rl as nat, out_row as nat) =~= lane_bounds(output_lanes(output@, rate as nat, 0), rl as nat, out_row as nat));
        assert(list1 + lane_bounds(first@, 25, 0) + lane_bounds(lanes@, rl as nat, out_row as nat)
            =~= absorb_bounds(rate as nat, message@, output@));
    }
    air
}

/// A multi block absorb laid out for proving.
pub struct AbsorbInstance {
    pub air: Air,
    pub trace: TraceTable,
    pub output: Vec<u8>,
}

/// Absorbs a message of any length, squeezes one rate of output, and lays
/// out the trace: segment j runs the permutation from the state entering
/// permutation j, and the selector of block b plus one is hot on the last
/// row of segment b.
pub fn absorb_trace(rate: usize, message: &[u8]) -> (instance: AbsorbInstance)
    requires
        0 < rate <= 200,
        message@.len() < usize::MAX,
        (SPONGE_WIDTH + block_count(rate as nat, message@)) * absorb_rows(rate as nat, message@) <= usize::MAX,
    ensures
        instance.output@ == absorb_output_spec(rate as nat, message@),
        describes_absorb(instance.air, rate as nat, message@, instance.output@),
        instance.trace.spec_width() == SPONGE_WIDTH + block_count(rate as nat, message@) - 1,
        instance.trace.spec_length() == absorb_rows(rate as nat, message@),
        forall|j: int, r: int| 0 <= j < next_pow2(block_count(rate as nat, message@)) && 0 <= r < 32
            ==> sponge_row_filled(#[trigger] instance.trace.spec_row(j * 32 + r), absorb_state(rate as nat, message@, j as nat),
                r as nat, (j * 32 + r) as nat),
        forall|b: int, g: int| 0 <= b < block_count(rate as nat, message@) - 1 && 0 <= g < absorb_rows(rate as nat, message@)
            ==> (#[trigger] instance.trace.cell(SPONGE_WIDTH + b, g)).val() == if g == b * 32 + 31 { 1nat } else { 0nat },
{
    let nblocks = absorb_block_count(rate, message);
    proof {
        crate::util::lemma_next_pow2(nblocks as nat);
        let r = absorb_rows(rate as nat, message@);
        assert(r <= (SPONGE_WIDTH + nblocks) * r) by (nonlinear_arith)
            requires r >= 0;
        assert(nblocks <= next_pow2(nblocks as nat) * 32) by (nonlinear_arith)
            requires nblocks <= next_pow2(nblocks as nat);
    }
    let segments = next_power_of_two(nblocks);
    let states = absorb_states(rate, message, segments);
    let rc = round_constants(SEGMENT_ROWS);
    let rows = segments * SEGMENT_ROWS;
    let width = SPONGE_WIDTH + nblocks - 1;
    proof {
        crate::util::lemma_pow2_times_32(segments as nat);
        assert(width * rows <= (SPONGE_WIDTH + nblocks) * rows) by (nonlinear_arith)
            requires width <= SPONGE_WIDTH + nblocks;
    }
    let mut trace = TraceTable::new(width, rows);
    let mut j: usize = 0;
    while j < segments
        invariant
            j <= segments,
            rows == segments * 32,
            width == SPONGE_WIDTH + nblocks - 1,
            nblocks >= 1,
            trace.spec_width() == width,
            trace.spec_length() == rows,
            states@.len() == segments,
            forall|i: int| 0 <= i < segments ==> (#[trigger] states@[i])@ == absorb_state(rate as nat, message@, i as nat),
            rc@.len() == 32,
            forall|i: int| 0 <= i < 32 ==> #[trigger] rc@[i] == spec_rc(i as nat),
            forall|i: int, r: int| 0 <= i < j && 0 <= r < 32
                ==> sponge_row_filled(#[trigger] trace.spec_row(i * 32 + r), absorb_state(rate as nat, message@, i as nat), r as nat, (i * 32 + r) as nat),
            forall|c: int, r: int| SPONGE_WIDTH <= c < width && 0 <= r < rows ==> (#[trigger] trace.cell(c, r)).val() == 0,
        decreases segments - j,
    {
        proof {
            assert(j * 32 + 32 <= segments * 32) by (nonlinear_arith)
                requires j < segments;
            vstd::arithmetic::div_mod::lemma_mod_multiples_basic(j as int, 32);
        }
        let ghost before = trace;
        fill_segment(&mut trace, j * SEGMENT_ROWS, &states[j], &rc);
        proof {
            assert forall|i: int, r: int| 0 <= i < j + 1 && 0 <= r < 32
                implies sponge_row_filled(#[trigger] trace.spec_row(i * 32 + r), absorb_state(rate as nat, message@, i as nat), r as nat, (i * 32 + r) as nat) by {
                if i < j {
                    assert(i * 32 + r < j * 32) by (nonlinear_arith)
                        requires i < j, r < 32;
                    assert(trace.spec_row(i * 32 + r) =~= before.spec_row(i * 32 + r));
                } else {
                    assert(states@[i]@ == absorb_state(rate as nat, message@, i as nat));
                }
            }
            assert forall|c: int, r: int| SPONGE_WIDTH <= c < width && 0 <= r < rows implies (#[trigger] trace.cell(c, r)).val() == 0 by {
                assert(trace.cell(c, r) == before.cell(c, r));
            }
        }
        j = j + 1;
    }
    let ghost filled = trace;
    let mut b: usize = 0;
    while b + 1 < nblocks
        invariant
            b + 1 <= nblocks,
            nblocks <= segments,
            rows == segments * 32,
            width == SPONGE_WIDTH + nblocks - 1,
            trace.spec_width() == width,
            trace.spec_length() == rows,
            forall|c: int, r: int| 0 <= c < SPONGE_WIDTH && 0 <= r < rows ==> #[trigger] trace.cell(c, r) == filled.cell(c, r),
            forall|c: int, r: int| SPONGE_WIDTH <= c < width && 0 <= r < rows ==> (#[trigger] trace.cell(c, r)).val()
                == if c < SPONGE_WIDTH + b && r == (c - SPONGE_WIDTH) * 32 + 31 { 1nat } else { 0nat },
        decreases nblocks - b,
    {
        proof {
            assert(b * 32 + 31 < rows) by (nonlinear_arith)
                requires b + 1 < nblocks, nblocks <= segments, rows == segments * 32;
        }
        let ghost before = trace;
        trace.set(SPONGE_WIDTH + b, b * SEGMENT_ROWS + SEGMENT_ROWS - 1, Felt::one());
        proof {
            assert forall|c: int, r: int| SPONGE_WIDTH <= c < width && 0 <= r < rows implies (#[trigger] trace.cell(c, r)).val()
                == if c < SPONGE_WIDTH + b + 1 && r == (c - SPONGE_WIDTH) * 32 + 31 { 1nat } else { 0nat } by {
                if c != SPONGE_WIDTH + b || r != b * 32 + 31 {
                    assert(trace.cell(c, r) == before.cell(c, r));
                }
            }
            assert forall|c: int, r: int| 0 <= c < SPONGE_WIDTH && 0 <= r < rows implies #[trigger] trace.cell(c, r) == filled.cell(c, r) by {
                assert(trace.cell(c, r) == before.cell(c, r));
            }
        }
        b = b + 1;
    }
    proof {
        assert forall|i: int, r: int| 0 <= i < segments && 0 <= r < 32
            implies sponge_row_filled(#[trigger] trace.spec_row(i * 32 + r), absorb_state(rate as nat, message@, i as nat), r as nat, (i * 32 + r) as nat) by {
            assert(i * 32 + r < rows) by (nonlinear_arith)
                requires i < segments, r < 32, rows == segments * 32;
            let row = trace.spec_row(i * 32 + r);
            assert(rows_agree_below(row, filled.spec_row(i * 32 + r), QUDROS_WIDTH as nat)) by {
                assert forall|c: int| 0 <= c < QUDROS_WIDTH implies #[trigger] cell_val(row, c) == cell_val(filled.spec_row(i * 32 + r), c) by {
                    assert(trace.cell(c, i * 32 + r) == filled.cell(c, i * 32 + r));
                }
            }
            lemma_block_row_agree(row, filled.spec_row(i * 32 + r), segment_state(absorb_state(rate as nat, message@, i as nat), r as nat), spec_rc(r as nat));
            assert(trace.cell(SEL_COL as int, i * 32 + r) == filled.cell(SEL_COL as int, i * 32 + r));
        }
    }
    let output = absorb_output(rate, message);
    proof {
        lemma_lane_bytes_len(perm(absorb_state(rate as nat, message@, (nblocks - 1) as nat)), (rate / 8) as nat);
    }
    let air = absorb_air(rate, message, output.as_slice());
    AbsorbInstance { air, trace, output }
}

/// A padded block keeps the message bytes, puts the domain byte 0x1f right
/// after them, sets the top bit of the last byte of the rate, and is zero
/// everywhere else.
pub proof fn law_padded_block(rate: nat, message: Seq<u8>)
    requires
        message.len() < rate,
    ensures
        spec_padded(rate, message).len() == rate,
        forall|k: int| 0 <= k < message.len() && k != rate - 1 ==> #[trigger] spec_padded(rate, message)[k] == message[k],
        message.len() < rate - 1 ==> spec_padded(rate, message)[message.len() as int] == 0x1f,
        message.len() < rate - 1 ==> spec_padded(rate, message)[rate - 1] == 0x80,
        message.len() == rate - 1 ==> spec_padded(rate, message)[rate - 1] == 0x9f,
        forall|k: int| message.len() < k < rate - 1 ==> #[trigger] spec_padded(rate, message)[k] == 0,
{
    let b = spec_padded(rate, message);
    assert forall|k: int| 0 <= k < message.len() && k != rate - 1 implies #[trigger] b[k] == message[k] by {
        let m = message[k];
        assert(m ^ 0u8 ^ 0u8 == m) by (bit_vector);
    }
    assert(0u8 ^ 31u8 ^ 0u8 == 0x1fu8) by (bit_vector);
    assert(0u8 ^ 0u8 ^ 128u8 == 0x80u8) by (bit_vector);
    assert(0u8 ^ 31u8 ^ 128u8 == 0x9fu8) by (bit_vector);
    assert(0u8 ^ 0u8 ^ 0u8 == 0u8) by (bit_vector);
}

proof fn lemma_lane_bytes_layout(state: Seq<u64>, lanes: nat)
    ensures
        lane_bytes(state, lanes).len() == 8 * lanes,
        forall|l: int, t: int| 0 <= l < lanes && 0 <= t < 8
            ==> #[trigger] lane_bytes(state, lanes)[8 * l + t] == le_bytes(state[l])[t],
    decreases lanes,
{
    if lanes > 0 {
        let k = (lanes - 1) as nat;
        lemma_lane_bytes_layout(state, k);
        assert forall|l: int, t: int| 0 <= l < lanes && 0 <= t < 8
            implies #[trigger] lane_bytes(state, lanes)[8 * l + t] == le_bytes(state[l])[t] by {
            if l < k {
                assert(lane_bytes(state, k)[8 * l + t] == le_bytes(state[l])[t]);
            } else {
                assert(8 * l + t == 8 * k + t);
            }
        }
    }
}

/// The squeeze over count permutations gives eight bytes per rate lane per
/// permutation: byte t of lane l of the state after permutation s + 1, read
/// little endian, stands at 8 (s lanes + l) + t.
pub proof fn law_squeeze_layout(start: Seq<u64>, lanes: nat, count: nat)
    ensures
        squeeze_bytes(start, lanes, count).len() == 8 * lanes * count,
        forall|s: int, l: int, t: int| 0 <= s < count && 0 <= l < lanes && 0 <= t < 8
            ==> #[trigger] squeeze_bytes(start, lanes, count)[8 * (s * lanes + l) + t]
                == le_bytes(squeeze_state(start, (s + 1) as nat)[l])[t],
    decreases count,
{
    if count > 0 {
        let c = (count - 1) as nat;
        law_squeeze_layout(start, lanes, c);
        lemma_lane_bytes_layout(squeeze_state(start, count), lanes);
        assert(8 * lanes * count == 8 * lanes * c + 8 * lanes) by (nonlinear_arith)
            requires c == count - 1;
        assert forall|s: int, l: int, t: int| 0 <= s < count && 0 <= l < lanes && 0 <= t < 8
            implies #[trigger] squeeze_bytes(start, lanes, count)[8 * (s * lanes + l) + t]
                == le_bytes(squeeze_state(start, (s + 1) as nat)[l])[t] by {
            let i = 8 * (s * lanes + l) + t;
            if s < c {
                assert(i < 8 * lanes * c) by (nonlinear_arith)
                    requires s < c, l < lanes, t < 8, i == 8 * (s * lanes + l) + t, s >= 0, l >= 0, t >= 0;
                assert(squeeze_bytes(start, lanes, c)[i] == le_bytes(squeeze_state(start, (s + 1) as nat)[l])[t]);
            } else {
                assert(i == 8 * lanes * c + (8 * l + t)) by (nonlinear_arith)
                    requires s == c, i == 8 * (s * lanes + l) + t;
                assert((s + 1) as nat == count);
            }
        }
    }
}

} // verus!
