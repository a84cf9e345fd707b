//! Sampling of the challenge polynomial with a fixed number of signed unit
//! coefficients from a byte stream, and the constraint piece that proves
//! which stream bytes the sampling accepted.
use vstd::prelude::*;
use crate::air::{
    Air, Expr, TraceTable, bit_of, bool_val, cell_val, fill_bits, lemma_append_rule, lemma_append_transition,
    recompose_val, single_rows_appended, transitions_appended,
};
use crate::crypto::le_word;
use crate::field::{Felt, fadd, finv, fmul, fsub, p};
use crate::lattice::RING_DEGREE;
use crate::sponge::chunk_at;
use crate::util::{is_pow2, next_pow2};

verus! {

broadcast use TraceTable::lemma_width_fits, TraceTable::lemma_length_fits;

/// The number of nonzero coefficients of a challenge.
pub const TAU: usize = 49;
/// The first index the sampling places.
pub const START: usize = RING_DEGREE - TAU;
/// The stream bytes that hold the signs.
pub const SIGN_BYTES: usize = 8;
/// The stream bytes the signer squeezes for a challenge.
pub const BALL_BUFFER_BYTES: usize = crate::sponge::SHAKE256_RATE * 2;

pub const COL_J: usize = 0;
pub const COL_I: usize = 1;
pub const COL_ACC: usize = 2;
pub const COL_DONE: usize = 3;
pub const COL_DINV: usize = 4;
pub const COL_LE: usize = 5;
pub const COL_GT: usize = 6;
pub const COL_LE_BITS: usize = 7;
pub const COL_GT_BITS: usize = COL_LE_BITS + 8;

/// The column width of the piece.
pub const WIDTH: usize = COL_GT_BITS + 8;
/// The accept column.
pub const ACCEPT_COL: usize = COL_ACC;
/// The stream byte column.
pub const BYTE_COL: usize = COL_J;

/// The sign word: the first eight stream bytes, little endian.
pub fn sign_word(stream: &[u8]) -> (signs: u64)
    requires
        stream@.len() >= SIGN_BYTES,
    ensures
        signs == le_word(chunk_at(stream@, 0)),
{
    crate::sponge::chunk_lane(stream, 0)
}

/// The sign of the coefficient placed at a step: minus one where the sign
/// word has a one bit there.
pub open spec fn ball_sign(signs: u64, bit: nat) -> i64 {
    if (signs >> bit) & 1 == 1 { -1i64 } else { 1i64 }
}

/// The sampling from a stream position on: each byte at most the next
/// index places it, the coefficient at the byte moving to the index and a
/// signed unit taking its place; a larger byte is skipped.
pub open spec fn ball_from(stream: Seq<u8>, signs: u64, pos: nat, i: nat, bit: nat, c: Seq<i64>) -> Seq<i64>
    decreases stream.len() - pos,
{
    if i >= RING_DEGREE || pos >= stream.len() {
        c
    } else {
        let b = stream[pos as int] as nat;
        if b <= i {
            ball_from(stream, signs, pos + 1, i + 1, bit + 1,
                c.update(i as int, c[b as int]).update(b as int, ball_sign(signs, bit)))
        } else {
            ball_from(stream, signs, pos + 1, i, bit, c)
        }
    }
}

/// The stream position where the sampling from a position and an index
/// ends, if the stream lasts that long.
pub open spec fn ball_scan(stream: Seq<u8>, pos: nat, i: nat) -> Option<nat>
    decreases stream.len() - pos,
{
    if i >= RING_DEGREE {
        Some(pos)
    } else if pos >= stream.len() {
        None
    } else if stream[pos as int] as nat <= i {
        ball_scan(stream, pos + 1, i + 1)
    } else {
        ball_scan(stream, pos + 1, i)
    }
}

/// The stream holds the sign bytes and enough bytes for every index.
pub open spec fn ball_completes(stream: Seq<u8>) -> bool {
    stream.len() >= SIGN_BYTES && ball_scan(stream, SIGN_BYTES as nat, START as nat) is Some
}

/// The challenge a stream gives.
pub open spec fn spec_ball(stream: Seq<u8>) -> Seq<i64> {
    ball_from(stream, le_word(chunk_at(stream, 0)), SIGN_BYTES as nat, START as nat, 0,
        Seq::new(RING_DEGREE as nat, |k: int| 0i64))
}

/// The challenge polynomial of a stream: the signs from its first bytes,
/// then the coefficients placed from index START to the end, each at a
/// position drawn from the stream by rejection.
pub fn sample_in_ball(stream: &[u8]) -> (c: Vec<i64>)
    requires
        ball_completes(stream@),
    ensures
        c@ == spec_ball(stream@),
{
    let signs = sign_word(stream);
    let mut c: Vec<i64> = Vec::new();
    let mut k: usize = 0;
    while k < RING_DEGREE
        invariant
            k <= RING_DEGREE,
            c@ == Seq::new(k as nat, |t: int| 0i64),
        decreases RING_DEGREE - k,
    {
        c.push(0);
        k = k + 1;
        assert(c@ =~= Seq::new(k as nat, |t: int| 0i64));
    }
    let mut pos: usize = SIGN_BYTES;
    let mut bit: usize = 0;
    let mut i: usize = START;
    while i < RING_DEGREE
        invariant
            SIGN_BYTES <= pos,
            START <= i <= RING_DEGREE,
            bit == i - START,
            c@.len() == RING_DEGREE,
            ball_scan(stream@, pos as nat, i as nat) is Some,
            ball_from(stream@, signs, pos as nat, i as nat, bit as nat, c@) == spec_ball(stream@),
        ensures
            i >= RING_DEGREE,
            ball_from(stream@, signs, pos as nat, i as nat, bit as nat, c@) == spec_ball(stream@),
        decreases stream@.len() - pos,
    {
        if pos >= stream.len() {
            proof {
                assert(ball_scan(stream@, pos as nat, i as nat) is None);
            }
            break;
        }
        let b = stream[pos] as usize;
        pos = pos + 1;
        if b <= i {
            let moved = c[b];
            c.set(i, moved);
            let s: i64 = if (signs >> bit as u64) & 1 == 1 { -1 } else { 1 };
            c.set(b, s);
            bit = bit + 1;
            i = i + 1;
        }
    }
    c
}

/// The number of stream bytes after the signs the sampling reads.
pub fn consumed_bytes(stream: &[u8]) -> (r: usize)
    requires
        ball_completes(stream@),
    ensures
        ball_scan(stream@, SIGN_BYTES as nat, START as nat) == Some((r + SIGN_BYTES) as nat),
{
    let mut pos: usize = SIGN_BYTES;
    let mut i: usize = START;
    while i < RING_DEGREE
        invariant
            SIGN_BYTES <= pos,
            START <= i <= RING_DEGREE,
            ball_scan(stream@, pos as nat, i as nat) == ball_scan(stream@, SIGN_BYTES as nat, START as nat),
            ball_scan(stream@, pos as nat, i as nat) is Some,
        ensures
            i >= RING_DEGREE,
            SIGN_BYTES <= pos,
            ball_scan(stream@, pos as nat, i as nat) == ball_scan(stream@, SIGN_BYTES as nat, START as nat),
        decreases stream@.len() - pos,
    {
        if pos >= stream.len() {
            proof {
                assert(ball_scan(stream@, pos as nat, i as nat) is None);
            }
            break;
        }
        let b = stream[pos] as usize;
        pos = pos + 1;
        if b <= i {
            i = i + 1;
        }
    }
    pos - SIGN_BYTES
}


/// The number of single row rules before the transition.
pub const ROW_RULES: usize = 9;
/// The number of bit rules after the transition.
pub const BIT_RULES: usize = 16;

/// The degree of single row rule k.
pub open spec fn ball_degree(k: nat) -> nat {
    if k == 5 || k == 7 { 1 } else if k == 4 || k == 8 { 3 } else { 2 }
}

/// Single row rule k of the piece at a column base: the accept and done
/// flags are bits and never both set; a done row sits at the ring degree
/// and any other row has its distance to it inverted; an accepted byte is
/// at most the index by a byte sized margin and a rejected byte of a live
/// row is above it by a byte sized margin.
pub open spec fn ball_rule(base: nat, k: nat, row: Seq<Felt>) -> nat {
    let j = cell_val(row, (base + COL_J) as int);
    let i = cell_val(row, (base + COL_I) as int);
    let acc = cell_val(row, (base + COL_ACC) as int);
    let done = cell_val(row, (base + COL_DONE) as int);
    let dinv = cell_val(row, (base + COL_DINV) as int);
    let le = cell_val(row, (base + COL_LE) as int);
    let gt = cell_val(row, (base + COL_GT) as int);
    let d = RING_DEGREE as nat;
    if k == 0 {
        bool_val(row, (base + COL_ACC) as nat)
    } else if k == 1 {
        bool_val(row, (base + COL_DONE) as nat)
    } else if k == 2 {
        fmul(done, acc)
    } else if k == 3 {
        fmul(done, fsub(i, d))
    } else if k == 4 {
        fmul(fsub(1, done), fsub(fmul(fsub(i, d), dinv), 1))
    } else if k == 5 {
        fsub(recompose_val(row, (base + COL_LE_BITS) as nat, 8), le)
    } else if k == 6 {
        fmul(acc, fsub(le, fsub(i, j)))
    } else if k == 7 {
        fsub(recompose_val(row, (base + COL_GT_BITS) as nat, 8), gt)
    } else {
        fmul(fmul(fsub(1, acc), fsub(1, done)), fsub(gt, fsub(fsub(j, i), 1)))
    }
}

/// The index advances by the accept flag from each row to the next.
pub open spec fn ball_step(base: nat, cur: Seq<Felt>, next: Seq<Felt>) -> nat {
    fsub(fsub(cell_val(next, (base + COL_I) as int), cell_val(cur, (base + COL_I) as int)), cell_val(cur, (base + COL_ACC) as int))
}

fn ball_rule_expr(k: usize, base: usize, width: usize) -> (r: (usize, Expr))
    requires
        k < ROW_RULES,
        base + WIDTH <= width,
    ensures
        r.0 == ball_degree(k as nat),
        forall|cur: Seq<Felt>, next: Seq<Felt>| #[trigger] r.1.value(cur, next) == ball_rule(base as nat, k as nat, cur),
        r.1.reads_below(width as nat),
{
    let one = Felt::one();
    let degree = Felt::new(RING_DEGREE as u64);
    proof {
        vstd::arithmetic::div_mod::lemma_small_mod(RING_DEGREE as nat, p());
        reveal_with_fuel(Expr::value, 5);
        reveal_with_fuel(Expr::reads_below, 5);
    }
    let j = base + COL_J;
    let i = base + COL_I;
    let acc = base + COL_ACC;
    let done = base + COL_DONE;
    let dinv = base + COL_DINV;
    let le = base + COL_LE;
    let gt = base + COL_GT;
    if k == 0 {
        let e = Expr::boolean(acc);
        assert(e.reads_below(width as nat));
        (2, e)
    } else if k == 1 {
        let e = Expr::boolean(done);
        assert(e.reads_below(width as nat));
        (2, e)
    } else if k == 2 {
        (2, Expr::cur(done).mul(Expr::cur(acc)))
    } else if k == 3 {
        (2, Expr::cur(done).mul(Expr::cur(i).sub(Expr::constant(degree))))
    } else if k == 4 {
        (3, Expr::constant(one).sub(Expr::cur(done)).mul(
            Expr::cur(i).sub(Expr::constant(degree)).mul(Expr::cur(dinv)).sub(Expr::constant(one))))
    } else if k == 5 {
        let rc = Expr::recompose(base + COL_LE_BITS, 8);
        let ghost g = rc;
        let e = rc.sub(Expr::cur(le));
        proof {
            assert(g.reads_below(width as nat));
            assert forall|cur: Seq<Felt>, next: Seq<Felt>| #[trigger] e.value(cur, next) == ball_rule(base as nat, k as nat, cur) by {
                assert(g.value(cur, next) == recompose_val(cur, (base + COL_LE_BITS) as nat, 8));
            }
        }
        (1, e)
    } else if k == 6 {
        (2, Expr::cur(acc).mul(Expr::cur(le).sub(Expr::cur(i).sub(Expr::cur(j)))))
    } else if k == 7 {
        let rc = Expr::recompose(base + COL_GT_BITS, 8);
        let ghost g = rc;
        let e = rc.sub(Expr::cur(gt));
        proof {
            assert(g.reads_below(width as nat));
            assert forall|cur: Seq<Felt>, next: Seq<Felt>| #[trigger] e.value(cur, next) == ball_rule(base as nat, k as nat, cur) by {
                assert(g.value(cur, next) == recompose_val(cur, (base + COL_GT_BITS) as nat, 8));
            }
        }
        (1, e)
    } else {
        (3, Expr::constant(one).sub(Expr::cur(acc)).mul(Expr::constant(one).sub(Expr::cur(done))).mul(
            Expr::cur(gt).sub(Expr::cur(j).sub(Expr::cur(i)).sub(Expr::constant(one)))))
    }
}

/// Adds the sampling rules for a piece at the given column base: the row
/// rules, the index step, then a bit rule for every margin bit.
pub fn add_constraints(air: &mut Air, base: usize)
    requires
        old(air).wf(),
        base + WIDTH <= old(air).spec_base_width(),
    ensures
        final(air).wf(),
        single_rows_appended(old(air).spec_transitions(),
            final(air).spec_transitions().take(old(air).spec_transitions().len() + ROW_RULES),
            ROW_RULES as nat, |k: nat| ball_degree(k), |k: nat, row: Seq<Felt>| ball_rule(base as nat, k, row)),
        transitions_appended(final(air).spec_transitions().take(old(air).spec_transitions().len() + ROW_RULES),
            final(air).spec_transitions().take(old(air).spec_transitions().len() + ROW_RULES + 1), 1, true,
            |k: nat| 1nat, |k: nat, cur: Seq<Felt>, next: Seq<Felt>| ball_step(base as nat, cur, next)),
        single_rows_appended(final(air).spec_transitions().take(old(air).spec_transitions().len() + ROW_RULES + 1),
            final(air).spec_transitions(), BIT_RULES as nat,
            |k: nat| 2nat, |k: nat, row: Seq<Felt>| bool_val(row, (base + COL_LE_BITS + k) as nat)),
        final(air).spec_boundaries() == old(air).spec_boundaries(),
        final(air).spec_permutations() == old(air).spec_permutations(),
        final(air).spec_base_width() == old(air).spec_base_width(),
        final(air).spec_aux_width() == old(air).spec_aux_width(),
        final(air).spec_length() == old(air).spec_length(),
        final(air).spec_num_challenges() == old(air).spec_num_challenges(),
{
    let ghost start = air.spec_transitions();
    let ghost degree = |k: nat| ball_degree(k);
    let ghost rule = |k: nat, row: Seq<Felt>| ball_rule(base as nat, k, row);
    let width = air.base_width();
    proof {
        assert(single_rows_appended(start, air.spec_transitions(), 0, degree, rule));
    }
    let mut k: usize = 0;
    while k < ROW_RULES
        invariant
            k <= ROW_RULES,
            air.wf(),
            width == air.spec_base_width(),
            base + WIDTH <= width,
            single_rows_appended(start, air.spec_transitions(), k as nat, degree, rule),
            degree == (|k: nat| ball_degree(k)),
            rule == (|k: nat, row: Seq<Felt>| ball_rule(base as nat, k, row)),
            air.spec_boundaries() == old(air).spec_boundaries(),
            air.spec_permutations() == old(air).spec_permutations(),
            air.spec_base_width() == old(air).spec_base_width(),
            air.spec_aux_width() == old(air).spec_aux_width(),
            air.spec_length() == old(air).spec_length(),
            air.spec_num_challenges() == old(air).spec_num_challenges(),
        decreases ROW_RULES - k,
    {
        let (d, e) = ball_rule_expr(k, base, width);
        proof {
            assert forall|cur: Seq<Felt>, next: Seq<Felt>| #[trigger] e.value(cur, next) == rule(k as nat, cur) by {
                assert(e.value(cur, next) == ball_rule(base as nat, k as nat, cur));
            }
        }
        let ghost mid = air.spec_transitions();
        air.add_single_row(d, e);
        proof {
            lemma_append_rule(start, mid, air.spec_transitions(), k as nat, degree, rule, air.spec_transitions().last());
        }
        k = k + 1;
    }
    let ghost t1 = air.spec_transitions();
    let e = Expr::next(base + COL_I).sub(Expr::cur(base + COL_I)).sub(Expr::cur(base + COL_ACC));
    let ghost sdeg = |k: nat| 1nat;
    let ghost srule = |k: nat, cur: Seq<Felt>, next: Seq<Felt>| ball_step(base as nat, cur, next);
    proof {
        reveal_with_fuel(Expr::value, 3);
        reveal_with_fuel(Expr::reads_below, 3);
        assert(transitions_appended(t1, t1, 0, true, sdeg, srule));
        assert forall|cur: Seq<Felt>, next: Seq<Felt>| #[trigger] e.value(cur, next) == srule(0, cur, next) by {}
    }
    air.add_transition(1, e);
    proof {
        lemma_append_transition(t1, t1, air.spec_transitions(), 0, true, sdeg, srule, air.spec_transitions().last());
    }
    let ghost t2 = air.spec_transitions();
    let ghost bdeg = |k: nat| 2nat;
    let ghost brule = |k: nat, row: Seq<Felt>| bool_val(row, (base + COL_LE_BITS + k) as nat);
    proof {
        assert(single_rows_appended(t2, t2, 0, bdeg, brule));
    }
    let mut k: usize = 0;
    while k < BIT_RULES
        invariant
            k <= BIT_RULES,
            air.wf(),
            base + WIDTH <= air.spec_base_width(),
            single_rows_appended(t2, air.spec_transitions(), k as nat, bdeg, brule),
            bdeg == (|k: nat| 2nat),
            brule == (|k: nat, row: Seq<Felt>| bool_val(row, (base + COL_LE_BITS + k) as nat)),
            air.spec_boundaries() == old(air).spec_boundaries(),
            air.spec_permutations() == old(air).spec_permutations(),
            air.spec_base_width() == old(air).spec_base_width(),
            air.spec_aux_width() == old(air).spec_aux_width(),
            air.spec_length() == old(air).spec_length(),
            air.spec_num_challenges() == old(air).spec_num_challenges(),
        decreases BIT_RULES - k,
    {
        let e = Expr::boolean(base + COL_LE_BITS + k);
        proof {
            assert(e.reads_below(air.spec_base_width()));
            assert forall|cur: Seq<Felt>, next: Seq<Felt>| #[trigger] e.value(cur, next) == brule(k as nat, cur) by {}
        }
        let ghost mid = air.spec_transitions();
        air.add_single_row(2, e);
        proof {
            lemma_append_rule(t2, mid, air.spec_transitions(), k as nat, bdeg, brule, air.spec_transitions().last());
        }
        k = k + 1;
    }
    proof {
        let t = air.spec_transitions();
        assert(t.take(start.len() + ROW_RULES) =~= t1);
        assert(t.take(start.len() + ROW_RULES + 1) =~= t2);
    }
}

/// What the description of a sampling of the given length holds: the
/// rules, the index at the first index placed on the first row and at the
/// ring degree on the last.
pub open spec fn describes_ball(air: Air, length: nat) -> bool {
    let t = air.spec_transitions();
    &&& air.wf()
    &&& air.spec_base_width() == WIDTH
    &&& air.spec_aux_width() == 0
    &&& air.spec_length() == length
    &&& air.spec_num_challenges() == 0
    &&& air.spec_permutations().len() == 0
    &&& single_rows_appended(Seq::empty(), t.take(ROW_RULES as int), ROW_RULES as nat,
        |k: nat| ball_degree(k), |k: nat, row: Seq<Felt>| ball_rule(0, k, row))
    &&& transitions_appended(t.take(ROW_RULES as int), t.take(ROW_RULES + 1), 1, true,
        |k: nat| 1nat, |k: nat, cur: Seq<Felt>, next: Seq<Felt>| ball_step(0, cur, next))
    &&& single_rows_appended(t.take(ROW_RULES + 1), t, BIT_RULES as nat,
        |k: nat| 2nat, |k: nat, row: Seq<Felt>| bool_val(row, (COL_LE_BITS + k) as nat))
    &&& crate::sponge::bounds_follow(air.spec_boundaries(), 0,
        seq![(COL_I as nat, 0nat, START as nat), (COL_I as nat, (length - 1) as nat, RING_DEGREE as nat)])
}

/// The description of a sampling of the given length, a power of two.
pub fn ball_air(length: usize) -> (air: Air)
    requires
        is_pow2(length as nat),
    ensures
        describes_ball(air, length as nat),
{
    let mut air = Air::new(WIDTH, length);
    proof {
        assert(air.spec_transitions() =~= Seq::<crate::air::Transition>::empty());
        crate::util::lemma_pow2_double(length as nat);
    }
    add_constraints(&mut air, 0);
    proof {
        assert(length >= 1) by {
            reveal(is_pow2);
        }
    }
    let start = Felt::new(START as u64);
    let end = Felt::new(RING_DEGREE as u64);
    proof {
        vstd::arithmetic::div_mod::lemma_small_mod(START as nat, p());
        vstd::arithmetic::div_mod::lemma_small_mod(RING_DEGREE as nat, p());
    }
    air.add_boundary(COL_I, 0, start);
    air.add_boundary(COL_I, length - 1, end);
    proof {
        assert(air.spec_transitions().take(ROW_RULES as int) =~= air.spec_transitions().take(0 + ROW_RULES));
    }
    air
}


/// A stream byte, zero past the end.
pub open spec fn stream_byte(stream: Seq<u8>, k: int) -> nat {
    if 0 <= k < stream.len() { stream[k] as nat } else { 0 }
}

/// The index the sampling has reached at a trace row: the first index
/// placed, advanced by every accepted byte of the rows before.
pub open spec fn row_index(stream: Seq<u8>, r: nat) -> nat
    decreases r,
{
    if r == 0 {
        START as nat
    } else {
        let i = row_index(stream, (r - 1) as nat);
        let b = stream_byte(stream, SIGN_BYTES + r - 1);
        if i != RING_DEGREE && b <= i { i + 1 } else { i }
    }
}

proof fn lemma_row_index_bound(stream: Seq<u8>, r: nat)
    ensures
        START <= row_index(stream, r) <= RING_DEGREE,
    decreases r,
{
    if r > 0 {
        lemma_row_index_bound(stream, (r - 1) as nat);
    }
}

/// A sampling row over a byte at an index: the byte, the index, the accept
/// flag for a byte at most a live index, the done flag at the ring degree,
/// the inverse distance to the ring degree on a live row, the margin below
/// or above the index and the bits of both margins.
pub open spec fn ball_row_filled(row: Seq<Felt>, byte: nat, i: nat) -> bool {
    let done = i == RING_DEGREE;
    let acc = !done && byte <= i;
    let le: nat = if acc { (i - byte) as nat } else { 0 };
    let gt: nat = if !acc && !done { (byte - i - 1) as nat } else { 0 };
    &&& cell_val(row, COL_J as int) == byte
    &&& cell_val(row, COL_I as int) == i
    &&& cell_val(row, COL_ACC as int) == if acc { 1nat } else { 0nat }
    &&& cell_val(row, COL_DONE as int) == if done { 1nat } else { 0nat }
    &&& cell_val(row, COL_DINV as int) == if done { 0nat } else { finv(fsub(i, RING_DEGREE as nat)) }
    &&& cell_val(row, COL_LE as int) == le
    &&& cell_val(row, COL_GT as int) == gt
    &&& forall|k: nat| k < 8 ==> #[trigger] cell_val(row, (COL_LE_BITS + k) as int) == bit_of(le, k)
    &&& forall|k: nat| k < 8 ==> #[trigger] cell_val(row, (COL_GT_BITS + k) as int) == bit_of(gt, k)
}

fn fill_ball_row(trace: &mut TraceTable, row: usize, byte: usize, i: usize)
    requires
        old(trace).spec_width() == WIDTH,
        row < old(trace).spec_length(),
        byte < 256,
        START <= i <= RING_DEGREE,
    ensures
        final(trace).spec_width() == old(trace).spec_width(),
        final(trace).spec_length() == old(trace).spec_length(),
        ball_row_filled(final(trace).spec_row(row as int), byte as nat, i as nat),
        forall|c: int, r: int| r != row && 0 <= c < WIDTH && 0 <= r < old(trace).spec_length()
            ==> #[trigger] final(trace).cell(c, r) == old(trace).cell(c, r),
{
    let done = i == RING_DEGREE;
    let acc: usize = if !done && byte <= i { 1 } else { 0 };
    let le: usize = if acc == 1 { i - byte } else { 0 };
    let gt: usize = if acc == 0 && !done { byte - i - 1 } else { 0 };
    let dinv = if done {
        Felt::zero()
    } else {
        Felt::new(i as u64).sub(Felt::new(RING_DEGREE as u64)).inv()
    };
    proof {
        vstd::arithmetic::div_mod::lemma_small_mod(byte as nat, p());
        vstd::arithmetic::div_mod::lemma_small_mod(i as nat, p());
        vstd::arithmetic::div_mod::lemma_small_mod(acc as nat, p());
        vstd::arithmetic::div_mod::lemma_small_mod(le as nat, p());
        vstd::arithmetic::div_mod::lemma_small_mod(gt as nat, p());
        vstd::arithmetic::div_mod::lemma_small_mod(RING_DEGREE as nat, p());
        vstd::arithmetic::div_mod::lemma_small_mod(0, p());
        vstd::arithmetic::div_mod::lemma_small_mod(1, p());
    }
    let d: usize = if done { 1 } else { 0 };
    let ghost t0 = *trace;
    trace.set(COL_J, row, Felt::new(byte as u64));
    trace.set(COL_I, row, Felt::new(i as u64));
    trace.set(COL_ACC, row, Felt::new(acc as u64));
    trace.set(COL_DONE, row, Felt::new(d as u64));
    trace.set(COL_DINV, row, dinv);
    trace.set(COL_LE, row, Felt::new(le as u64));
    trace.set(COL_GT, row, Felt::new(gt as u64));
    let ghost t1 = *trace;
    fill_bits(trace, COL_LE_BITS, row, le as u64, 8);
    let ghost t2 = *trace;
    fill_bits(trace, COL_GT_BITS, row, gt as u64, 8);
    proof {
        let t3 = *trace;
        let rr = row as int;
        assert forall|c: int| 0 <= c < COL_LE_BITS implies #[trigger] t3.cell(c, rr) == t1.cell(c, rr) by {
            assert(t3.cell(c, rr) == t2.cell(c, rr));
        }
        let rv = t3.spec_row(rr);
        assert(cell_val(rv, COL_J as int) == t1.cell(COL_J as int, rr).val());
        assert forall|k: nat| k < 8 implies #[trigger] cell_val(rv, (COL_LE_BITS + k) as int) == bit_of(le as nat, k) by {
            assert(t2.cell(COL_LE_BITS as int + k as int, rr).val() == bit_of(le as nat, k));
            assert(t3.cell(COL_LE_BITS as int + k as int, rr) == t2.cell(COL_LE_BITS as int + k as int, rr));
        }
        assert forall|k: nat| k < 8 implies #[trigger] cell_val(rv, (COL_GT_BITS + k) as int) == bit_of(gt as nat, k) by {
            assert(t3.cell(COL_GT_BITS as int + k as int, rr).val() == bit_of(gt as nat, k));
        }
    }
}

/// A filled sampling batch with its description and the challenge.
pub struct BallBatch {
    pub air: Air,
    pub trace: TraceTable,
    pub challenge: Vec<i64>,
}

/// Lays out a trace over the stream bytes after the signs, one byte per row,
/// through the last byte the sampling reads and padded with zero bytes to a
/// power of two of at least two rows, with its description and the
/// challenge the stream gives.
#[verifier::rlimit(30)]
pub fn ball_batch(stream: &[u8]) -> (batch: BallBatch)
    requires
        ball_completes(stream@),
        WIDTH * next_pow2((ball_scan(stream@, SIGN_BYTES as nat, START as nat)->0 - SIGN_BYTES + 1) as nat) <= usize::MAX,
    ensures
        batch.challenge@ == spec_ball(stream@),
        batch.trace.spec_width() == WIDTH,
        batch.trace.spec_length() == crate::util::padded_len((ball_scan(stream@, SIGN_BYTES as nat, START as nat)->0 - SIGN_BYTES + 1) as nat),
        describes_ball(batch.air, batch.trace.spec_length()),
        forall|r: int| 0 <= r < batch.trace.spec_length() ==> ball_row_filled(#[trigger] batch.trace.spec_row(r),
            stream_byte(stream@, SIGN_BYTES + r), row_index(stream@, r as nat)),
{
    let consumed = consumed_bytes(stream);
    proof {
        crate::util::lemma_next_pow2((consumed + 1) as nat);
        assert(next_pow2((consumed + 1) as nat) <= WIDTH * next_pow2((consumed + 1) as nat)) by (nonlinear_arith)
            requires next_pow2((consumed + 1) as nat) >= 1;
    }
    let length = crate::util::padded_length(consumed + 1);
    proof {
        assert(WIDTH * length <= usize::MAX) by (nonlinear_arith)
            requires WIDTH * next_pow2((consumed + 1) as nat) <= usize::MAX, next_pow2((consumed + 1) as nat) >= 1,
                length == next_pow2((consumed + 1) as nat) || length == 2;
    }
    let mut trace = TraceTable::new(WIDTH, length);
    let mut i: usize = START;
    let mut row: usize = 0;
    while row < length
        invariant
            row <= length,
            trace.spec_width() == WIDTH,
            trace.spec_length() == length,
            i == row_index(stream@, row as nat),
            START <= i <= RING_DEGREE,
            stream@.len() >= SIGN_BYTES,
            forall|r: int| 0 <= r < row ==> ball_row_filled(#[trigger] trace.spec_row(r),
                stream_byte(stream@, SIGN_BYTES + r), row_index(stream@, r as nat)),
        decreases length - row,
    {
        let byte: usize = if row < stream.len() - SIGN_BYTES { stream[SIGN_BYTES + row] as usize } else { 0 };
        let ghost before = trace;
        fill_ball_row(&mut trace, row, byte, i);
        proof {
            assert forall|r: int| 0 <= r < row implies #[trigger] trace.spec_row(r) == before.spec_row(r) by {
                assert(trace.spec_row(r) =~= before.spec_row(r));
            }
            lemma_row_index_bound(stream@, (row + 1) as nat);
        }
        if i != RING_DEGREE && byte <= i {
            i = i + 1;
        }
        row = row + 1;
    }
    let air = ball_air(length);
    let challenge = sample_in_ball(stream);
    BallBatch { air, trace, challenge }
}


/// The sampling ends no later than the end of the stream.
pub proof fn lemma_ball_scan_bound(stream: Seq<u8>, pos: nat, i: nat)
    requires
        pos <= stream.len(),
    ensures
        ball_scan(stream, pos, i) matches Some(e) ==> pos <= e <= stream.len(),
    decreases stream.len() - pos,
{
    if i < RING_DEGREE && pos < stream.len() {
        if stream[pos as int] as nat <= i {
            lemma_ball_scan_bound(stream, pos + 1, i + 1);
        } else {
            lemma_ball_scan_bound(stream, pos + 1, i);
        }
    }
}

/// Whether the stream holds the sign bytes and enough bytes for every
/// index.
pub fn ball_check(stream: &[u8]) -> (r: bool)
    ensures
        r == ball_completes(stream@),
{
    if stream.len() < SIGN_BYTES {
        return false;
    }
    let mut pos: usize = SIGN_BYTES;
    let mut i: usize = START;
    while i < RING_DEGREE
        invariant
            SIGN_BYTES <= pos <= stream@.len(),
            START <= i <= RING_DEGREE,
            stream@.len() >= SIGN_BYTES,
            ball_scan(stream@, pos as nat, i as nat) == ball_scan(stream@, SIGN_BYTES as nat, START as nat),
        decreases stream@.len() - pos,
    {
        if pos >= stream.len() {
            return false;
        }
        let b = stream[pos] as usize;
        pos = pos + 1;
        if b <= i {
            i = i + 1;
        }
    }
    true
}


/// The number of nonzero coefficients.
pub open spec fn nonzero_count(c: Seq<i64>) -> nat
    decreases c.len(),
{
    if c.len() == 0 {
        0
    } else {
        nonzero_count(c.drop_last()) + if c.last() != 0 { 1nat } else { 0nat }
    }
}

proof fn lemma_count_update(c: Seq<i64>, k: int, v: i64)
    requires
        0 <= k < c.len(),
    ensures
        nonzero_count(c.update(k, v)) + (if c[k] != 0 { 1nat } else { 0nat })
            == nonzero_count(c) + (if v != 0 { 1nat } else { 0nat }),
    decreases c.len(),
{
    let u = c.update(k, v);
    if k == c.len() - 1 {
        assert(u.drop_last() =~= c.drop_last());
    } else {
        assert(u.drop_last() =~= c.drop_last().update(k, v));
        lemma_count_update(c.drop_last(), k, v);
    }
}

proof fn lemma_count_zeros(n: nat)
    ensures
        nonzero_count(Seq::new(n, |k: int| 0i64)) == 0,
    decreases n,
{
    if n > 0 {
        assert(Seq::new(n, |k: int| 0i64).drop_last() =~= Seq::new((n - 1) as nat, |k: int| 0i64));
        lemma_count_zeros((n - 1) as nat);
    }
}

proof fn lemma_ball_from(stream: Seq<u8>, signs: u64, pos: nat, i: nat, bit: nat, c: Seq<i64>)
    requires
        START <= i <= RING_DEGREE,
        c.len() == RING_DEGREE,
        forall|k: int| i <= k < RING_DEGREE ==> #[trigger] c[k] == 0,
        forall|k: int| 0 <= k < RING_DEGREE ==> -1 <= #[trigger] c[k] <= 1,
        nonzero_count(c) == i - START,
        ball_scan(stream, pos, i) is Some,
    ensures
        ball_from(stream, signs, pos, i, bit, c).len() == RING_DEGREE,
        forall|k: int| 0 <= k < RING_DEGREE ==> -1 <= #[trigger] ball_from(stream, signs, pos, i, bit, c)[k] <= 1,
        nonzero_count(ball_from(stream, signs, pos, i, bit, c)) == TAU,
    decreases stream.len() - pos,
{
    if i >= RING_DEGREE || pos >= stream.len() {
    } else {
        let b = stream[pos as int] as nat;
        if b <= i {
            let s = ball_sign(signs, bit);
            let c1 = c.update(i as int, c[b as int]);
            let c2 = c1.update(b as int, s);
            lemma_count_update(c, i as int, c[b as int]);
            lemma_count_update(c1, b as int, s);
            assert(c1[b as int] == c[b as int]);
            assert forall|k: int| i + 1 <= k < RING_DEGREE implies #[trigger] c2[k] == 0 by {}
            assert forall|k: int| 0 <= k < RING_DEGREE implies -1 <= #[trigger] c2[k] <= 1 by {}
            lemma_ball_from(stream, signs, pos + 1, i + 1, bit + 1, c2);
        } else {
            lemma_ball_from(stream, signs, pos + 1, i, bit, c);
        }
    }
}

/// The challenge of a stream long enough for the sampling has exactly the
/// fixed number of nonzero coefficients, every coefficient minus one, zero
/// or one.
pub proof fn law_challenge_has_tau_signs(stream: Seq<u8>)
    requires
        ball_completes(stream),
    ensures
        spec_ball(stream).len() == RING_DEGREE,
        forall|k: int| 0 <= k < RING_DEGREE ==> -1 <= #[trigger] spec_ball(stream)[k] <= 1,
        nonzero_count(spec_ball(stream)) == TAU,
{
    let zeros = Seq::new(RING_DEGREE as nat, |k: int| 0i64);
    lemma_count_zeros(RING_DEGREE as nat);
    lemma_ball_from(stream, le_word(chunk_at(stream, 0)), SIGN_BYTES as nat, START as nat, 0, zeros);
}

/// The sampling stops once every index is placed or the stream runs out:
/// the coefficients are left as they stand.
pub proof fn law_ball_stops(stream: Seq<u8>, signs: u64, pos: nat, i: nat, bit: nat, c: Seq<i64>)
    requires
        i >= 256 || pos >= stream.len(),
    ensures
        ball_from(stream, signs, pos, i, bit, c) == c,
{
}

/// A stream byte above the next index is skipped: the sampling goes on
/// from the next byte with the same index, sign bit and coefficients.
pub proof fn law_ball_skips(stream: Seq<u8>, signs: u64, pos: nat, i: nat, bit: nat, c: Seq<i64>)
    requires
        i < 256,
        pos < stream.len(),
        stream[pos as int] as nat > i,
    ensures
        ball_from(stream, signs, pos, i, bit, c) == ball_from(stream, signs, pos + 1, i, bit, c),
{
}

/// A stream byte b at most the next index i is a swap step: after it the
/// coefficient at b is the signed unit of the current sign bit, minus one
/// where that bit is set, the coefficient at i is the one that stood at b
/// before, every other coefficient is unchanged, and the sampling goes on
/// from the next byte, the next index and the next sign bit.
pub proof fn law_ball_swaps(stream: Seq<u8>, signs: u64, pos: nat, i: nat, bit: nat, c: Seq<i64>, d: Seq<i64>)
    requires
        i < 256,
        pos < stream.len(),
        stream[pos as int] as nat <= i,
        c.len() == 256,
        d.len() == 256,
        d[stream[pos as int] as int] == (if (signs >> bit) & 1 == 1 { -1i64 } else { 1i64 }),
        stream[pos as int] as nat != i ==> d[i as int] == c[stream[pos as int] as int],
        forall|k: int| 0 <= k < 256 && k != stream[pos as int] as int && k != i ==> #[trigger] d[k] == c[k],
    ensures
        ball_from(stream, signs, pos, i, bit, c) == ball_from(stream, signs, pos + 1, i + 1, bit + 1, d),
{
    let b = stream[pos as int] as int;
    let e = c.update(i as int, c[b]).update(b, ball_sign(signs, bit));
    assert(e =~= d);
}

/// The challenge of a stream starts from all zero coefficients at index
/// 207 and stream byte 8, with the sign word the first eight stream bytes
/// read little endian and the first sign bit.
pub proof fn law_ball_start(stream: Seq<u8>)
    requires
        stream.len() >= 8,
    ensures
        spec_ball(stream) == ball_from(stream, le_word(stream.subrange(0, 8)), 8, 207, 0, Seq::new(256, |k: int| 0i64)),
{
    assert(chunk_at(stream, 0) =~= stream.subrange(0, 8));
}

} // verus!
