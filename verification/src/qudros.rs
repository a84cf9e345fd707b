//! The Keccak f permutation over twenty five sixty four bit lanes and its
//! arithmetization: the state held as bit columns, every Boolean step written
//! as field arithmetic, an exclusive or of two bits as a plus b less two a b,
//! an and as a b, a not as one less a.
use vstd::prelude::*;
use crate::field::{Felt, fadd, fmul, fsub, p};
use crate::air::{
    Air, Boundary, Expr, TraceTable, bit_of, bool_val, cell_val, fill_bits, lemma_append_rule, lemma_append_transition,
    recompose_val, single_rows_appended, transitions_appended, xor_val,
};

verus! {

broadcast use Felt::lemma_val_injective, TraceTable::lemma_width_fits, TraceTable::lemma_length_fits;

/// The number of lanes in the state.
pub const LANES: usize = 25;

/// The bit width of a lane.
pub const LANE_BITS: usize = 64;

/// The number of rounds of the permutation.
pub const QUDROS_ROUNDS: usize = 24;

/// The rotation offset of the lane at x plus five y.
pub open spec fn spec_rho(x: int, y: int) -> u32 {
    let t = seq![
        seq![0u32, 36, 3, 41, 18],
        seq![1u32, 44, 10, 45, 2],
        seq![62u32, 6, 43, 15, 61],
        seq![28u32, 55, 25, 21, 56],
        seq![27u32, 20, 39, 8, 14],
    ];
    t[x][y]
}

fn rho(x: usize, y: usize) -> (r: u32)
    requires
        x < 5,
        y < 5,
    ensures
        r == spec_rho(x as int, y as int),
        r < 64,
{
    let row: [u32; 5] = if x == 0 {
        [0, 36, 3, 41, 18]
    } else if x == 1 {
        [1, 44, 10, 45, 2]
    } else if x == 2 {
        [62, 6, 43, 15, 61]
    } else if x == 3 {
        [28, 55, 25, 21, 56]
    } else {
        [27, 20, 39, 8, 14]
    };
    row[y]
}

/// A lane rotated left.
pub open spec fn rotl(v: u64, r: u32) -> u64 {
    if r == 0 { v } else { (v << r) | (v >> ((64 - r) as u32)) }
}

fn rotate_left(v: u64, r: u32) -> (out: u64)
    requires
        r < 64,
    ensures
        out == rotl(v, r),
{
    if r == 0 { v } else { (v << r) | (v >> (64 - r)) }
}

/// One step of the round constant register.
pub open spec fn lfsr_step(s: u8) -> u8 {
    if s & 128 != 0 { ((s << 1u8) ^ 113) as u8 } else { (s << 1u8) as u8 }
}

/// The register after k steps from one.
pub open spec fn lfsr_at(k: nat) -> u8
    decreases k,
{
    if k == 0 { 1 } else { lfsr_step(lfsr_at((k - 1) as nat)) }
}

/// The output bit of step k.
pub open spec fn lfsr_bit(k: nat) -> bool {
    lfsr_at(k) & 1 != 0
}

/// Round constant i with the first j of its seven register bits placed.
pub open spec fn rc_partial(i: nat, j: nat) -> u64
    decreases j,
{
    if j == 0 {
        0
    } else {
        let prev = rc_partial(i, (j - 1) as nat);
        if lfsr_bit((7 * i + j - 1) as nat) {
            prev | (1u64 << (((1u64 << ((j - 1) as u64)) - 1) as u64))
        } else {
            prev
        }
    }
}

/// Round constant i: seven register bits placed at two to the j less one.
pub open spec fn spec_rc(i: nat) -> u64 {
    rc_partial(i, 7)
}

/// The round constants of the iota step. The register runs on across the
/// rounds, so any count can be asked.
pub fn round_constants(count: usize) -> (out: Vec<u64>)
    requires
        7 * count < usize::MAX,
    ensures
        out@.len() == count,
        forall|i: int| 0 <= i < count ==> #[trigger] out@[i] == spec_rc(i as nat),
{
    let mut lfsr: u8 = 1;
    let mut out: Vec<u64> = Vec::new();
    let mut i: usize = 0;
    while i < count
        invariant
            i <= count,
            7 * count < usize::MAX,
            out@.len() == i,
            lfsr == lfsr_at((7 * i) as nat),
            forall|k: int| 0 <= k < i ==> #[trigger] out@[k] == spec_rc(k as nat),
        decreases count - i,
    {
        let mut rc: u64 = 0;
        let mut j: u32 = 0;
        while j < 7
            invariant
                j <= 7,
                i < count,
                7 * count < usize::MAX,
                lfsr == lfsr_at((7 * i + j) as nat),
                rc == rc_partial(i as nat, j as nat),
            decreases 7 - j,
        {
            let bit = lfsr & 1 != 0;
            lfsr = if lfsr & 128 != 0 { (lfsr << 1) ^ 113 } else { lfsr << 1 };
            let jj = j as u64;
            assert(1 <= (1u64 << jj) && (1u64 << jj) - 1 < 64) by (bit_vector)
                requires jj < 7;
            let shift: u64 = (1u64 << jj) - 1;
            if bit {
                rc = rc | (1u64 << shift);
            }
            j = j + 1;
        }
        out.push(rc);
        i = i + 1;
    }
    out
}

/// The parity of column x of the state.
pub open spec fn col_parity(s: Seq<u64>, x: int) -> u64 {
    s[x] ^ s[x + 5] ^ s[x + 10] ^ s[x + 15] ^ s[x + 20]
}

/// The theta term of column x.
pub open spec fn theta_d(s: Seq<u64>, x: int) -> u64 {
    col_parity(s, (x + 4) % 5) ^ rotl(col_parity(s, (x + 1) % 5), 1)
}

/// A lane after theta.
pub open spec fn theta_lane(s: Seq<u64>, x: int, y: int) -> u64 {
    s[x + 5 * y] ^ theta_d(s, x)
}

/// The lane at px, py after rho and pi: the theta lane it came from, rotated.
pub open spec fn pi_lane(s: Seq<u64>, px: int, py: int) -> u64 {
    let sx = (px + 3 * py) % 5;
    let sy = px;
    rotl(theta_lane(s, sx, sy), spec_rho(sx, sy))
}

/// A lane after chi.
pub open spec fn chi_lane(s: Seq<u64>, x: int, y: int) -> u64 {
    pi_lane(s, x, y) ^ (!pi_lane(s, (x + 1) % 5, y) & pi_lane(s, (x + 2) % 5, y))
}

/// One round of the permutation under a round constant.
pub open spec fn spec_round(s: Seq<u64>, rc: u64) -> Seq<u64> {
    Seq::new(25, |i: int| if i == 0 { chi_lane(s, 0, 0) ^ rc } else { chi_lane(s, i % 5, i / 5) })
}

/// The state after k rounds.
pub open spec fn spec_states(s: Seq<u64>, k: nat) -> Seq<u64>
    decreases k,
{
    if k == 0 { s } else { spec_round(spec_states(s, (k - 1) as nat), spec_rc((k - 1) as nat)) }
}

/// Applies one round of the permutation to a state under the round constant.
pub fn qudros_round(state: &[u64; LANES], rc: u64) -> (out: [u64; LANES])
    ensures
        out@ == spec_round(state@, rc),
{
    let mut c = [0u64; 5];
    let mut x: usize = 0;
    while x < 5
        invariant
            x <= 5,
            forall|k: int| 0 <= k < x ==> #[trigger] c@[k] == col_parity(state@, k),
        decreases 5 - x,
    {
        c[x] = state[x] ^ state[x + 5] ^ state[x + 10] ^ state[x + 15] ^ state[x + 20];
        x = x + 1;
    }
    let mut d = [0u64; 5];
    let mut x: usize = 0;
    while x < 5
        invariant
            x <= 5,
            forall|k: int| 0 <= k < 5 ==> #[trigger] c@[k] == col_parity(state@, k),
            forall|k: int| 0 <= k < x ==> #[trigger] d@[k] == theta_d(state@, k),
        decreases 5 - x,
    {
        d[x] = c[(x + 4) % 5] ^ rotate_left(c[(x + 1) % 5], 1);
        x = x + 1;
    }
    let mut t = [0u64; LANES];
    let mut i: usize = 0;
    while i < LANES
        invariant
            i <= LANES,
            forall|k: int| 0 <= k < 5 ==> #[trigger] d@[k] == theta_d(state@, k),
            forall|k: int| 0 <= k < i ==> #[trigger] t@[k] == theta_lane(state@, k % 5, k / 5),
        decreases LANES - i,
    {
        t[i] = state[i] ^ d[i % 5];
        i = i + 1;
    }
    let mut b = [0u64; LANES];
    let mut i: usize = 0;
    while i < LANES
        invariant
            i <= LANES,
            forall|k: int| 0 <= k < 25 ==> #[trigger] t@[k] == theta_lane(state@, k % 5, k / 5),
            forall|k: int| 0 <= k < i ==> #[trigger] b@[k] == pi_lane(state@, k % 5, k / 5),
        decreases LANES - i,
    {
        let px = i % 5;
        let py = i / 5;
        let sx = (px + 3 * py) % 5;
        let sy = px;
        b[i] = rotate_left(t[sx + 5 * sy], rho(sx, sy));
        i = i + 1;
    }
    let mut out = [0u64; LANES];
    let mut i: usize = 0;
    while i < LANES
        invariant
            i <= LANES,
            forall|k: int| 0 <= k < 25 ==> #[trigger] b@[k] == pi_lane(state@, k % 5, k / 5),
            forall|k: int| 0 <= k < i ==> #[trigger] out@[k] == chi_lane(state@, k % 5, k / 5),
        decreases LANES - i,
    {
        let x = i % 5;
        let y = i / 5;
        let i1 = (x + 1) % 5 + 5 * y;
        let i2 = (x + 2) % 5 + 5 * y;
        proof {
            lemma_lane_index(((x + 1) % 5) as int, y as int);
            lemma_lane_index(((x + 2) % 5) as int, y as int);
            assert(b@[i1 as int] == pi_lane(state@, (x + 1) as int % 5, y as int));
            assert(b@[i2 as int] == pi_lane(state@, (x + 2) as int % 5, y as int));
        }
        out[i] = b[i] ^ ((!b[i1]) & b[i2]);
        i = i + 1;
    }
    let first = out[0] ^ rc;
    out[0] = first;
    assert(out@ =~= spec_round(state@, rc));
    out
}

proof fn lemma_lane_index(a: int, y: int)
    requires
        0 <= a < 5,
        0 <= y < 5,
    ensures
        (a + 5 * y) % 5 == a,
        (a + 5 * y) / 5 == y,
        0 <= a + 5 * y < 25,
{
    vstd::arithmetic::div_mod::lemma_fundamental_div_mod_converse(a + 5 * y, 5, y, a);
}

/// Runs the given number of rounds and records the state before each round
/// and after the last, so entry i is the state after i rounds.
pub fn qudros_states(input: &[u64; LANES], rounds: usize) -> (states: Vec<[u64; LANES]>)
    requires
        7 * rounds < usize::MAX,
    ensures
        states@.len() == rounds + 1,
        forall|k: int| 0 <= k <= rounds ==> (#[trigger] states@[k])@ == spec_states(input@, k as nat),
{
    let rc = round_constants(rounds);
    let mut states: Vec<[u64; LANES]> = Vec::new();
    let mut state = *input;
    states.push(state);
    let mut r: usize = 0;
    while r < rounds
        invariant
            r <= rounds,
            rc@.len() == rounds,
            forall|i: int| 0 <= i < rounds ==> #[trigger] rc@[i] == spec_rc(i as nat),
            states@.len() == r + 1,
            state@ == spec_states(input@, r as nat),
            forall|k: int| 0 <= k <= r ==> (#[trigger] states@[k])@ == spec_states(input@, k as nat),
        decreases rounds - r,
    {
        state = qudros_round(&state, rc[r]);
        states.push(state);
        r = r + 1;
    }
    states
}

/// The full permutation, twenty four rounds.
pub fn qudros_f1600(input: &[u64; LANES]) -> (out: [u64; LANES])
    ensures
        out@ == spec_states(input@, QUDROS_ROUNDS as nat),
{
    let states = qudros_states(input, QUDROS_ROUNDS);
    states[QUDROS_ROUNDS]
}

/// The exclusive or of two bits in the field.
pub fn xor2(a: Felt, b: Felt) -> (r: Felt)
    ensures
        r.val() == xor_val(a.val(), b.val()),
{
    let ab = a.mul(b);
    a.add(b).sub(ab).sub(ab)
}

/// The exclusive or of three bits in the field.
pub fn xor3(a: Felt, b: Felt, c: Felt) -> (r: Felt)
    ensures
        r.val() == xor_val(xor_val(a.val(), b.val()), c.val()),
{
    xor2(xor2(a, b), c)
}

/// The exclusive or of the first k bits folded from zero.
pub open spec fn xor_fold(bits: Seq<Felt>, k: nat) -> nat
    decreases k,
{
    if k == 0 { 0 } else { xor_val(xor_fold(bits, (k - 1) as nat), bits[k - 1].val()) }
}

/// The exclusive or of all the bits in the field, folded from zero.
pub fn xor_all(bits: &[Felt]) -> (r: Felt)
    ensures
        r.val() == xor_fold(bits@, bits@.len()),
{
    let mut acc = Felt::zero();
    let mut i: usize = 0;
    while i < bits.len()
        invariant
            i <= bits@.len(),
            acc.val() == xor_fold(bits@, i as nat),
        decreases bits@.len() - i,
    {
        acc = xor2(acc, bits[i]);
        i = i + 1;
    }
    acc
}


/// The first state bit column.
pub const S_OFF: usize = 0;
/// The number of state bit columns.
pub const STATE_BITS: usize = LANES * LANE_BITS;
/// The first column parity bit column.
pub const C_OFF: usize = S_OFF + STATE_BITS;
/// The number of column parity bit columns.
pub const C_BITS: usize = 5 * LANE_BITS;
/// The first round constant bit column.
pub const RC_OFF: usize = C_OFF + C_BITS;
/// The first lane half column.
pub const HALF_OFF: usize = RC_OFF + LANE_BITS;
/// The number of lane half columns.
pub const HALVES: usize = 2 * LANES;
/// The two round constant half columns.
pub const RCHALF_OFF: usize = HALF_OFF + HALVES;
/// The column width of the permutation trace.
pub const QUDROS_WIDTH: usize = RCHALF_OFF + 2;
/// The rows of the permutation trace, the rounds padded to a power of two.
pub const QUDROS_TRACE_ROWS: usize = 32;
/// The number of rules of the state block.
pub const BLOCK_RULES: usize = STATE_BITS + LANE_BITS + C_BITS + HALVES + 2;
/// The number of round transitions, one per state bit.
pub const ROUND_RULES: usize = STATE_BITS;

/// The column of state bit z of the lane at x plus five y.
pub open spec fn spec_s_idx(x: int, y: int, z: int) -> int {
    (x + 5 * y) * 64 + z
}

/// The column of parity bit z of column x.
pub open spec fn spec_c_idx(x: int, z: int) -> int {
    C_OFF + x * 64 + z
}

/// The column of bit z of lane (x, y) of the state block.
pub(crate) fn s_idx(x: usize, y: usize, z: usize) -> (r: usize)
    requires
        x < 5,
        y < 5,
        z < 64,
    ensures
        r == spec_s_idx(x as int, y as int, z as int),
        r < STATE_BITS,
{
    (x + 5 * y) * LANE_BITS + z
}

fn c_idx(x: usize, z: usize) -> (r: usize)
    requires
        x < 5,
        z < 64,
    ensures
        r == spec_c_idx(x as int, z as int),
        C_OFF <= r < RC_OFF,
{
    C_OFF + x * LANE_BITS + z
}

/// The value of bit z of the theta lane at x, y on a row.
pub open spec fn theta_bit_val(row: Seq<Felt>, x: int, y: int, z: int) -> nat {
    let a = cell_val(row, spec_s_idx(x, y, z));
    let c1 = cell_val(row, spec_c_idx((x + 4) % 5, z));
    let c2 = cell_val(row, spec_c_idx((x + 1) % 5, (z + 63) % 64));
    xor_val(xor_val(a, c1), c2)
}

/// The value of bit z of the lane at px, py after rho and pi.
#[verifier::opaque]
pub open spec fn b_bit_val(row: Seq<Felt>, px: int, py: int, z: int) -> nat {
    let sx = (px + 3 * py) % 5;
    let sy = px;
    let r = (spec_rho(sx, sy) % 64) as int;
    theta_bit_val(row, sx, sy, (z + 64 - r) % 64)
}

/// The chi step on three bits: the first, exclusive or the second negated
/// and the third.
pub open spec fn chi_val(b0: nat, b1: nat, b2: nat) -> nat {
    xor_val(b0, fmul(fsub(1, b1), b2))
}

/// The value of bit z of the lane at x, y after theta, rho, pi and chi.
pub open spec fn chi_bit_val(row: Seq<Felt>, x: int, y: int, z: int) -> nat {
    chi_val(b_bit_val(row, x, y, z), b_bit_val(row, (x + 1) % 5, y, z), b_bit_val(row, (x + 2) % 5, y, z))
}

/// The value of bit z of the lane at x, y after a whole round.
pub open spec fn round_bit_val(row: Seq<Felt>, x: int, y: int, z: int) -> nat {
    if x == 0 && y == 0 {
        xor_val(chi_bit_val(row, x, y, z), cell_val(row, RC_OFF + z))
    } else {
        chi_bit_val(row, x, y, z)
    }
}

fn theta_bit_expr(x: usize, y: usize, z: usize) -> (e: Expr)
    requires
        x < 5,
        y < 5,
        z < 64,
    ensures
        forall|cur: Seq<Felt>, next: Seq<Felt>| #[trigger] e.value(cur, next) == theta_bit_val(cur, x as int, y as int, z as int),
        e.reads_below(QUDROS_WIDTH as nat),
{
    proof {
        reveal_with_fuel(Expr::value, 3);
        reveal_with_fuel(Expr::reads_below, 3);
    }
    Expr::cur(s_idx(x, y, z)).xor(Expr::cur(c_idx((x + 4) % 5, z))).xor(Expr::cur(c_idx((x + 1) % 5, (z + 63) % 64)))
}

fn b_bit_expr(px: usize, py: usize, z: usize) -> (e: Expr)
    requires
        px < 5,
        py < 5,
        z < 64,
    ensures
        forall|cur: Seq<Felt>, next: Seq<Felt>| #[trigger] e.value(cur, next) == b_bit_val(cur, px as int, py as int, z as int),
        e.reads_below(QUDROS_WIDTH as nat),
{
    let sx = (px + 3 * py) % 5;
    let sy = px;
    let r = (rho(sx, sy) % 64) as usize;
    let sz = (z + 64 - r) % 64;
    proof {
        reveal(b_bit_val);
    }
    theta_bit_expr(sx, sy, sz)
}

fn chi_expr(b0: Expr, b1: Expr, b2: Expr) -> (e: Expr)
    ensures
        forall|cur: Seq<Felt>, next: Seq<Felt>| #[trigger] e.value(cur, next) == chi_val(b0.value(cur, next), b1.value(cur, next), b2.value(cur, next)),
        forall|w: nat| b0.reads_below(w) && b1.reads_below(w) && b2.reads_below(w) ==> #[trigger] e.reads_below(w),
{
    let ghost g0 = b0;
    let ghost g1 = b1;
    let ghost g2 = b2;
    let one = Felt::one();
    let e = b0.xor(Expr::constant(one).sub(b1).mul(b2));
    proof {
        assert forall|cur: Seq<Felt>, next: Seq<Felt>| #[trigger] e.value(cur, next) == chi_val(g0.value(cur, next), g1.value(cur, next), g2.value(cur, next)) by {
            reveal_with_fuel(Expr::value, 4);
        }
        assert forall|w: nat| g0.reads_below(w) && g1.reads_below(w) && g2.reads_below(w) implies #[trigger] e.reads_below(w) by {
            reveal_with_fuel(Expr::reads_below, 4);
        }
    }
    e
}

/// The expression of bit z of lane (x, y) after a round.
pub(crate) fn round_bit_expr(x: usize, y: usize, z: usize) -> (e: Expr)
    requires
        x < 5,
        y < 5,
        z < 64,
    ensures
        forall|cur: Seq<Felt>, next: Seq<Felt>| #[trigger] e.value(cur, next) == round_bit_val(cur, x as int, y as int, z as int),
        e.reads_below(QUDROS_WIDTH as nat),
{
    let x1 = (x + 1) % 5;
    let x2 = (x + 2) % 5;
    let b0 = b_bit_expr(x, y, z);
    let b1 = b_bit_expr(x1, y, z);
    let b2 = b_bit_expr(x2, y, z);
    let ghost g0 = b0;
    let ghost g1 = b1;
    let ghost g2 = b2;
    let chi = chi_expr(b0, b1, b2);
    proof {
        assert(chi.reads_below(QUDROS_WIDTH as nat));
        assert forall|cur: Seq<Felt>, next: Seq<Felt>| #[trigger] chi.value(cur, next) == chi_bit_val(cur, x as int, y as int, z as int) by {
            assert(g0.value(cur, next) == b_bit_val(cur, x as int, y as int, z as int));
            assert(g1.value(cur, next) == b_bit_val(cur, x1 as int, y as int, z as int));
            assert(g2.value(cur, next) == b_bit_val(cur, x2 as int, y as int, z as int));
        }
    }
    if x == 0 && y == 0 {
        let out = chi.xor(Expr::cur(RC_OFF + z));
        proof {
            assert forall|cur: Seq<Felt>, next: Seq<Felt>| #[trigger] out.value(cur, next) == round_bit_val(cur, x as int, y as int, z as int) by {
                reveal_with_fuel(Expr::value, 2);
                assert(chi.value(cur, next) == chi_bit_val(cur, x as int, y as int, z as int));
            }
            reveal_with_fuel(Expr::reads_below, 2);
        }
        out
    } else {
        proof {
            assert forall|cur: Seq<Felt>, next: Seq<Felt>| #[trigger] chi.value(cur, next) == round_bit_val(cur, x as int, y as int, z as int) by {
                assert(chi.value(cur, next) == chi_bit_val(cur, x as int, y as int, z as int));
            }
        }
        chi
    }
}

/// The exclusive or of the first n state bits of column x at depth z,
/// from a base column on.
pub open spec fn parity_prefix(row: Seq<Felt>, base: nat, x: int, z: int, n: nat) -> nat
    decreases n,
{
    if n == 0 {
        0
    } else {
        xor_val(parity_prefix(row, base, x, z, (n - 1) as nat), cell_val(row, base + spec_s_idx(x, n - 1, z)))
    }
}

/// The degree of rule k of the state block.
pub open spec fn block_degree(k: nat) -> nat {
    if k < STATE_BITS + LANE_BITS { 2 } else if k < STATE_BITS + LANE_BITS + C_BITS { 5 } else { 1 }
}

/// The value of rule k of the state block at a base column on a row: every
/// state and round constant cell is a bit, every parity cell is the exclusive
/// or of its column, and every half column recomposes from its bits.
pub open spec fn block_rule(base: nat, k: nat, row: Seq<Felt>) -> nat {
    if k < STATE_BITS {
        bool_val(row, base + k)
    } else if k < STATE_BITS + LANE_BITS {
        bool_val(row, (base + RC_OFF + (k - STATE_BITS)) as nat)
    } else if k < STATE_BITS + LANE_BITS + C_BITS {
        let j = (k - STATE_BITS - LANE_BITS) as int;
        let x = j / 64;
        let z = j % 64;
        fsub(cell_val(row, base + spec_c_idx(x, z)), parity_prefix(row, base, x, z, 5))
    } else if k < STATE_BITS + LANE_BITS + C_BITS + HALVES {
        let j = (k - STATE_BITS - LANE_BITS - C_BITS) as int;
        let l = j / 2;
        if j % 2 == 0 {
            fsub(cell_val(row, base + HALF_OFF + 2 * l), recompose_val(row, (base + l * 64) as nat, 32))
        } else {
            fsub(cell_val(row, base + HALF_OFF + 2 * l + 1), recompose_val(row, (base + l * 64 + 32) as nat, 32))
        }
    } else if k == BLOCK_RULES - 2 {
        fsub(cell_val(row, base + RCHALF_OFF), recompose_val(row, (base + RC_OFF) as nat, 32))
    } else {
        fsub(cell_val(row, base + RCHALF_OFF + 1), recompose_val(row, (base + RC_OFF + 32) as nat, 32))
    }
}

/// Adds the state block rules at the given column base.
pub(crate) fn add_block_constraints(air: &mut Air, base: usize)
    requires
        old(air).wf(),
        base + QUDROS_WIDTH <= old(air).spec_base_width(),
    ensures
        final(air).wf(),
        single_rows_appended(
            old(air).spec_transitions(),
            final(air).spec_transitions(),
            BLOCK_RULES as nat,
            |k: nat| block_degree(k),
            |k: nat, row: Seq<Felt>| block_rule(base as nat, k, row),
        ),
        final(air).spec_boundaries() == old(air).spec_boundaries(),
        final(air).spec_permutations() == old(air).spec_permutations(),
        final(air).spec_base_width() == old(air).spec_base_width(),
        final(air).spec_aux_width() == old(air).spec_aux_width(),
        final(air).spec_length() == old(air).spec_length(),
        final(air).spec_num_challenges() == old(air).spec_num_challenges(),
{
    let ghost start = air.spec_transitions();
    let ghost degree = |k: nat| block_degree(k);
    let ghost rule = |k: nat, row: Seq<Felt>| block_rule(base as nat, k, row);
    proof {
        assert(single_rows_appended(start, air.spec_transitions(), 0, degree, rule));
    }
    let mut k: usize = 0;
    while k < BLOCK_RULES
        invariant
            k <= BLOCK_RULES,
            air.wf(),
            base + QUDROS_WIDTH <= air.spec_base_width(),
            single_rows_appended(start, air.spec_transitions(), k as nat, degree, rule),
            degree == (|k: nat| block_degree(k)),
            rule == (|k: nat, row: Seq<Felt>| block_rule(base as nat, k, row)),
            air.spec_boundaries() == old(air).spec_boundaries(),
            air.spec_permutations() == old(air).spec_permutations(),
            air.spec_base_width() == old(air).spec_base_width(),
            air.spec_aux_width() == old(air).spec_aux_width(),
            air.spec_length() == old(air).spec_length(),
            air.spec_num_challenges() == old(air).spec_num_challenges(),
        decreases BLOCK_RULES - k,
    {
        let (d, e) = block_rule_expr(base, k);
        proof {
            assert(e.reads_below(air.spec_base_width())) by {
                lemma_reads_widen(e, (base + QUDROS_WIDTH) as nat, air.spec_base_width());
            }
            assert forall|cur: Seq<Felt>, next: Seq<Felt>| #[trigger] e.value(cur, next) == rule(k as nat, cur) by {
                assert(e.value(cur, next) == block_rule(base as nat, k as nat, cur));
            }
        }
        let ghost mid = air.spec_transitions();
        air.add_single_row(d, e);
        proof { lemma_append_rule(start, mid, air.spec_transitions(), k as nat, degree, rule, air.spec_transitions().last()); }
        k = k + 1;
    }
}

/// An expression that reads below a width reads below any larger width.
pub proof fn lemma_reads_widen(e: Expr, a: nat, b: nat)
    requires
        e.reads_below(a),
        a <= b,
    ensures
        e.reads_below(b),
    decreases e,
{
    match e {
        Expr::Const(_) => {},
        Expr::Cur(_) => {},
        Expr::Next(_) => {},
        Expr::Add(x, y) => { lemma_reads_widen(*x, a, b); lemma_reads_widen(*y, a, b); },
        Expr::Sub(x, y) => { lemma_reads_widen(*x, a, b); lemma_reads_widen(*y, a, b); },
        Expr::Mul(x, y) => { lemma_reads_widen(*x, a, b); lemma_reads_widen(*y, a, b); },
        Expr::Xor(x, y) => { lemma_reads_widen(*x, a, b); lemma_reads_widen(*y, a, b); },
    }
}

fn parity_expr(base: usize, x: usize, z: usize) -> (e: Expr)
    requires
        x < 5,
        z < 64,
        base + QUDROS_WIDTH <= usize::MAX,
    ensures
        forall|cur: Seq<Felt>, next: Seq<Felt>| #[trigger] e.value(cur, next) == fsub(cell_val(cur, base + spec_c_idx(x as int, z as int)), parity_prefix(cur, base as nat, x as int, z as int, 5)),
        e.reads_below((base + QUDROS_WIDTH) as nat),
{
    let mut acc = Expr::constant(Felt::zero());
    let mut y: usize = 0;
    while y < 5
        invariant
            y <= 5,
            x < 5,
            z < 64,
            base + QUDROS_WIDTH <= usize::MAX,
            forall|cur: Seq<Felt>, next: Seq<Felt>| #[trigger] acc.value(cur, next) == parity_prefix(cur, base as nat, x as int, z as int, y as nat),
            acc.reads_below((base + QUDROS_WIDTH) as nat),
        decreases 5 - y,
    {
        let ghost prev = acc;
        let col = base + s_idx(x, y, z);
        acc = acc.xor(Expr::cur(col));
        proof {
            assert forall|cur: Seq<Felt>, next: Seq<Felt>| #[trigger] acc.value(cur, next) == parity_prefix(cur, base as nat, x as int, z as int, (y + 1) as nat) by {
                reveal_with_fuel(Expr::value, 2);
                assert(prev.value(cur, next) == parity_prefix(cur, base as nat, x as int, z as int, y as nat));
            }
            reveal_with_fuel(Expr::reads_below, 2);
        }
        y = y + 1;
    }
    let e = Expr::cur(base + c_idx(x, z)).sub(acc);
    proof {
        assert forall|cur: Seq<Felt>, next: Seq<Felt>| #[trigger] e.value(cur, next) == fsub(cell_val(cur, base + spec_c_idx(x as int, z as int)), parity_prefix(cur, base as nat, x as int, z as int, 5)) by {
            reveal_with_fuel(Expr::value, 2);
            assert(acc.value(cur, next) == parity_prefix(cur, base as nat, x as int, z as int, 5));
        }
        reveal_with_fuel(Expr::reads_below, 2);
    }
    e
}

fn half_expr(half_col: usize, bits_col: usize) -> (e: Expr)
    requires
        half_col < usize::MAX,
        bits_col + 32 <= usize::MAX,
    ensures
        forall|cur: Seq<Felt>, next: Seq<Felt>| #[trigger] e.value(cur, next) == fsub(cell_val(cur, half_col as int), recompose_val(cur, bits_col as nat, 32)),
        forall|w: nat| w > half_col && w >= bits_col + 32 ==> #[trigger] e.reads_below(w),
{
    let rc = Expr::recompose(bits_col, 32);
    let e = Expr::cur(half_col).sub(rc);
    proof {
        assert forall|cur: Seq<Felt>, next: Seq<Felt>| #[trigger] e.value(cur, next) == fsub(cell_val(cur, half_col as int), recompose_val(cur, bits_col as nat, 32)) by {
            reveal_with_fuel(Expr::value, 2);
            assert(rc.value(cur, next) == recompose_val(cur, bits_col as nat, 32));
        }
        assert forall|w: nat| w > half_col && w >= bits_col + 32 implies #[trigger] e.reads_below(w) by {
            reveal_with_fuel(Expr::reads_below, 2);
            assert(rc.reads_below(w));
        }
    }
    e
}

fn block_rule_expr(base: usize, k: usize) -> (r: (usize, Expr))
    requires
        k < BLOCK_RULES,
        base + QUDROS_WIDTH <= usize::MAX,
    ensures
        r.0 == block_degree(k as nat),
        forall|cur: Seq<Felt>, next: Seq<Felt>| #[trigger] r.1.value(cur, next) == block_rule(base as nat, k as nat, cur),
        r.1.reads_below((base + QUDROS_WIDTH) as nat),
{
    if k < STATE_BITS + LANE_BITS {
        let col = if k < STATE_BITS { base + k } else { base + RC_OFF + (k - STATE_BITS) };
        let e = Expr::boolean(col);
        proof {
            assert(e.reads_below((base + QUDROS_WIDTH) as nat));
        }
        (2, e)
    } else if k < STATE_BITS + LANE_BITS + C_BITS {
        let j = k - STATE_BITS - LANE_BITS;
        let e = parity_expr(base, j / 64, j % 64);
        (5, e)
    } else if k < STATE_BITS + LANE_BITS + C_BITS + HALVES {
        let j = k - STATE_BITS - LANE_BITS - C_BITS;
        let l = j / 2;
        if j % 2 == 0 {
            let e = half_expr(base + HALF_OFF + 2 * l, base + l * 64);
            (1, e)
        } else {
            let e = half_expr(base + HALF_OFF + 2 * l + 1, base + l * 64 + 32);
            (1, e)
        }
    } else if k == BLOCK_RULES - 2 {
        let e = half_expr(base + RCHALF_OFF, base + RC_OFF);
        (1, e)
    } else {
        let e = half_expr(base + RCHALF_OFF + 1, base + RC_OFF + 32);
        (1, e)
    }
}

/// The low half of a lane, or its high half.
pub open spec fn half_of(v: u64, hi: bool) -> nat {
    if hi {
        v as nat / 0x1_0000_0000
    } else {
        v as nat % 0x1_0000_0000
    }
}

fn lane_halves(v: u64) -> (r: (Felt, Felt))
    ensures
        r.0.val() == half_of(v, false),
        r.1.val() == half_of(v, true),
{
    let lo = v & 0xffff_ffff;
    let hi = v >> 32;
    proof {
        assert(lo == v % 0x1_0000_0000 && hi == v / 0x1_0000_0000 && lo < 0x1_0000_0000 && hi < 0x1_0000_0000)
            by (bit_vector)
            requires
                lo == v & 0xffff_ffff,
                hi == v >> 32,
        ;
        vstd::arithmetic::div_mod::lemma_small_mod(lo as nat, p());
        vstd::arithmetic::div_mod::lemma_small_mod(hi as nat, p());
    }
    (Felt::new(lo), Felt::new(hi))
}

/// Round transition k, the lanes taken x first, then y, then the bit: the
/// next row holds in that bit what a round makes of the current row.
pub open spec fn round_rule(k: nat, cur: Seq<Felt>, next: Seq<Felt>) -> nat {
    let x = (k / 320) as int;
    let y = ((k / 64) % 5) as int;
    let z = (k % 64) as int;
    fsub(cell_val(next, spec_s_idx(x, y, z)), round_bit_val(cur, x, y, z))
}

fn round_rule_expr(k: usize) -> (e: Expr)
    requires
        k < ROUND_RULES,
    ensures
        forall|cur: Seq<Felt>, next: Seq<Felt>| #[trigger] e.value(cur, next) == round_rule(k as nat, cur, next),
        e.reads_below(QUDROS_WIDTH as nat),
{
    let x = k / 320;
    let y = (k / 64) % 5;
    let z = k % 64;
    let rb = round_bit_expr(x, y, z);
    let ghost g = rb;
    let e = Expr::next(s_idx(x, y, z)).sub(rb);
    proof {
        assert forall|cur: Seq<Felt>, next: Seq<Felt>| #[trigger] e.value(cur, next) == round_rule(k as nat, cur, next) by {
            reveal_with_fuel(Expr::value, 2);
            assert(g.value(cur, next) == round_bit_val(cur, x as int, y as int, z as int));
        }
        reveal_with_fuel(Expr::reads_below, 2);
    }
    e
}

/// Boundary j of the permutation description as column, row and value:
/// first, lane by lane, the input halves on the first row and the output
/// halves on the row after the last round; then, row by row, the halves of
/// the round constant of that row.
pub open spec fn qudros_boundary(input: Seq<u64>, output: Seq<u64>, j: int) -> (nat, nat, nat) {
    if j < 4 * LANES {
        let l = j / 4;
        let m = j % 4;
        let v = if m < 2 { input[l] } else { output[l] };
        ((HALF_OFF + 2 * l + m % 2) as nat, if m < 2 { 0 } else { QUDROS_ROUNDS as nat }, half_of(v, m % 2 == 1))
    } else {
        let i = j - 4 * LANES;
        ((RCHALF_OFF + i % 2) as nat, (i / 2) as nat, half_of(spec_rc((i / 2) as nat), i % 2 == 1))
    }
}

/// Boundary j of a description is the given column, row and value.
pub open spec fn boundary_is(b: Boundary, cell: (nat, nat, nat)) -> bool {
    b.column == cell.0 && b.row == cell.1 && b.value.val() == cell.2
}

fn add_round_transitions(air: &mut Air)
    requires
        old(air).wf(),
        old(air).spec_base_width() == QUDROS_WIDTH,
    ensures
        final(air).wf(),
        transitions_appended(
            old(air).spec_transitions(),
            final(air).spec_transitions(),
            ROUND_RULES as nat,
            true,
            |k: nat| 10,
            |k: nat, cur: Seq<Felt>, next: Seq<Felt>| round_rule(k, cur, next),
        ),
        final(air).spec_boundaries() == old(air).spec_boundaries(),
        final(air).spec_permutations() == old(air).spec_permutations(),
        final(air).spec_base_width() == old(air).spec_base_width(),
        final(air).spec_aux_width() == old(air).spec_aux_width(),
        final(air).spec_length() == old(air).spec_length(),
        final(air).spec_num_challenges() == old(air).spec_num_challenges(),
{
    let ghost start = air.spec_transitions();
    let ghost degree = |k: nat| 10nat;
    let ghost rule = |k: nat, cur: Seq<Felt>, next: Seq<Felt>| round_rule(k, cur, next);
    let mut k: usize = 0;
    while k < ROUND_RULES
        invariant
            k <= ROUND_RULES,
            air.wf(),
            air.spec_base_width() == QUDROS_WIDTH,
            transitions_appended(start, air.spec_transitions(), k as nat, true, degree, rule),
            degree == (|k: nat| 10nat),
            rule == (|k: nat, cur: Seq<Felt>, next: Seq<Felt>| round_rule(k, cur, next)),
            air.spec_boundaries() == old(air).spec_boundaries(),
            air.spec_permutations() == old(air).spec_permutations(),
            air.spec_base_width() == old(air).spec_base_width(),
            air.spec_aux_width() == old(air).spec_aux_width(),
            air.spec_length() == old(air).spec_length(),
            air.spec_num_challenges() == old(air).spec_num_challenges(),
        decreases ROUND_RULES - k,
    {
        let e = round_rule_expr(k);
        proof {
            assert forall|cur: Seq<Felt>, next: Seq<Felt>| #[trigger] e.value(cur, next) == rule(k as nat, cur, next) by {
                assert(e.value(cur, next) == round_rule(k as nat, cur, next));
            }
        }
        let ghost mid = air.spec_transitions();
        air.add_transition(10, e);
        proof {
            lemma_append_transition(start, mid, air.spec_transitions(), k as nat, true, degree, rule, air.spec_transitions().last());
        }
        k = k + 1;
    }
}

/// What the description of one run of the permutation from an input to an
/// output holds: the state block rules on every row, one round per row
/// transition, the input halves fixed on the first row, the output halves on
/// the row after the last round, and the round constant halves on every row.
pub open spec fn describes_permutation(air: Air, input: Seq<u64>, output: Seq<u64>) -> bool {
    &&& air.wf()
    &&& air.spec_base_width() == QUDROS_WIDTH
    &&& air.spec_aux_width() == 0
    &&& air.spec_length() == QUDROS_TRACE_ROWS
    &&& air.spec_num_challenges() == 0
    &&& air.spec_permutations().len() == 0
    &&& single_rows_appended(
        Seq::empty(),
        air.spec_transitions().take(BLOCK_RULES as int),
        BLOCK_RULES as nat,
        |k: nat| block_degree(k),
        |k: nat, row: Seq<Felt>| block_rule(0, k, row),
    )
    &&& transitions_appended(
        air.spec_transitions().take(BLOCK_RULES as int),
        air.spec_transitions(),
        ROUND_RULES as nat,
        true,
        |k: nat| 10,
        |k: nat, cur: Seq<Felt>, next: Seq<Felt>| round_rule(k, cur, next),
    )
    &&& air.spec_boundaries().len() == 4 * LANES + 2 * QUDROS_TRACE_ROWS
    &&& forall|j: int| 0 <= j < air.spec_boundaries().len()
        ==> boundary_is(#[trigger] air.spec_boundaries()[j], qudros_boundary(input, output, j))
}

/// The description of one run of the permutation from an input to an output.
pub fn qudros_air(input: &[u64; LANES], output: &[u64; LANES]) -> (air: Air)
    ensures
        describes_permutation(air, input@, output@),
{
    proof {
        reveal_with_fuel(crate::util::is_pow2, 7);
    }
    let mut air = Air::new(QUDROS_WIDTH, QUDROS_TRACE_ROWS);
    proof {
        assert(air.spec_transitions() =~= Seq::<crate::air::Transition>::empty());
    }
    add_block_constraints(&mut air, 0);
    let ghost block = air.spec_transitions();
    add_round_transitions(&mut air);
    proof {
        assert(air.spec_transitions().take(BLOCK_RULES as int) =~= block);
    }
    let ghost transitions = air.spec_transitions();
    let mut l: usize = 0;
    while l < LANES
        invariant
            l <= LANES,
            air.wf(),
            air.spec_base_width() == QUDROS_WIDTH,
            air.spec_aux_width() == 0,
            air.spec_length() == QUDROS_TRACE_ROWS,
            air.spec_boundaries().len() == 4 * l,
            air.spec_transitions() == transitions,
            air.spec_num_challenges() == 0,
            air.spec_permutations().len() == 0,
            forall|j: int| 0 <= j < 4 * l
                ==> boundary_is(#[trigger] air.spec_boundaries()[j], qudros_boundary(input@, output@, j)),
        decreases LANES - l,
    {
        let (in_lo, in_hi) = lane_halves(input[l]);
        let (out_lo, out_hi) = lane_halves(output[l]);
        let ghost before = air.spec_boundaries();
        air.add_boundary(HALF_OFF + 2 * l, 0, in_lo);
        air.add_boundary(HALF_OFF + 2 * l + 1, 0, in_hi);
        air.add_boundary(HALF_OFF + 2 * l, QUDROS_ROUNDS, out_lo);
        air.add_boundary(HALF_OFF + 2 * l + 1, QUDROS_ROUNDS, out_hi);
        proof {
            assert forall|j: int| 0 <= j < 4 * (l + 1)
                implies boundary_is(#[trigger] air.spec_boundaries()[j], qudros_boundary(input@, output@, j)) by {
                if j < 4 * l {
                    assert(air.spec_boundaries()[j] == before[j]);
                } else {
                    assert(j / 4 == l as int);
                }
            }
        }
        l = l + 1;
    }
    let rc = round_constants(QUDROS_TRACE_ROWS);
    let mut r: usize = 0;
    while r < QUDROS_TRACE_ROWS
        invariant
            r <= QUDROS_TRACE_ROWS,
            rc@.len() == QUDROS_TRACE_ROWS,
            forall|i: int| 0 <= i < QUDROS_TRACE_ROWS ==> #[trigger] rc@[i] == spec_rc(i as nat),
            air.wf(),
            air.spec_base_width() == QUDROS_WIDTH,
            air.spec_aux_width() == 0,
            air.spec_length() == QUDROS_TRACE_ROWS,
            air.spec_boundaries().len() == 4 * LANES + 2 * r,
            air.spec_transitions() == transitions,
            air.spec_num_challenges() == 0,
            air.spec_permutations().len() == 0,
            forall|j: int| 0 <= j < 4 * LANES + 2 * r
                ==> boundary_is(#[trigger] air.spec_boundaries()[j], qudros_boundary(input@, output@, j)),
        decreases QUDROS_TRACE_ROWS - r,
    {
        let (lo, hi) = lane_halves(rc[r]);
        let ghost before = air.spec_boundaries();
        air.add_boundary(RCHALF_OFF, r, lo);
        air.add_boundary(RCHALF_OFF + 1, r, hi);
        proof {
            assert forall|j: int| 0 <= j < 4 * LANES + 2 * (r + 1)
                implies boundary_is(#[trigger] air.spec_boundaries()[j], qudros_boundary(input@, output@, j)) by {
                if j < 4 * LANES + 2 * r {
                    assert(air.spec_boundaries()[j] == before[j]);
                } else {
                    assert((j - 4 * LANES) / 2 == r as int);
                }
            }
        }
        r = r + 1;
    }
    air
}

/// The cells of a row in the state block at a base column: the bits of the
/// state lanes, of the column parities and of the round constant, and the
/// halves of each lane and of the constant.
pub open spec fn block_row_filled(row: Seq<Felt>, base: nat, state: Seq<u64>, rc: u64) -> bool {
    &&& forall|l: int, z: int| 0 <= l < 25 && 0 <= z < 64
        ==> #[trigger] cell_val(row, base + l * 64 + z) == bit_of(state[l] as nat, z as nat)
    &&& forall|x: int, z: int| 0 <= x < 5 && 0 <= z < 64
        ==> #[trigger] cell_val(row, base + C_OFF + x * 64 + z) == bit_of(col_parity(state, x) as nat, z as nat)
    &&& forall|z: int| 0 <= z < 64 ==> #[trigger] cell_val(row, base + RC_OFF + z) == bit_of(rc as nat, z as nat)
    &&& forall|l: int| 0 <= l < 25 ==> #[trigger] cell_val(row, base + HALF_OFF + 2 * l) == half_of(state[l], false)
    &&& forall|l: int| 0 <= l < 25 ==> #[trigger] cell_val(row, base + HALF_OFF + 2 * l + 1) == half_of(state[l], true)
    &&& cell_val(row, base + RCHALF_OFF) == half_of(rc, false)
    &&& cell_val(row, base + RCHALF_OFF + 1) == half_of(rc, true)
}

/// Writes the bits of each value, sixty four columns per value, from a
/// column on.
fn fill_lanes(trace: &mut TraceTable, col: usize, row: usize, values: &[u64])
    requires
        col + 64 * values@.len() <= old(trace).spec_width(),
        row < old(trace).spec_length(),
    ensures
        final(trace).spec_width() == old(trace).spec_width(),
        final(trace).spec_length() == old(trace).spec_length(),
        forall|i: int, z: int| 0 <= i < values@.len() && 0 <= z < 64
            ==> (#[trigger] final(trace).cell(col + i * 64 + z, row as int)).val() == bit_of(values@[i] as nat, z as nat),
        forall|c: int, r: int| (r != row || c < col || c >= col + 64 * values@.len()) && 0 <= c < old(trace).spec_width()
            && 0 <= r < old(trace).spec_length() ==> #[trigger] final(trace).cell(c, r) == old(trace).cell(c, r),
{
    let mut i: usize = 0;
    while i < values.len()
        invariant
            i <= values@.len(),
            col + 64 * values@.len() <= trace.spec_width(),
            row < trace.spec_length(),
            trace.spec_width() == old(trace).spec_width(),
            trace.spec_length() == old(trace).spec_length(),
            forall|j: int, z: int| 0 <= j < i && 0 <= z < 64
                ==> (#[trigger] trace.cell(col + j * 64 + z, row as int)).val() == bit_of(values@[j] as nat, z as nat),
            forall|c: int, r: int| (r != row || c < col || c >= col + 64 * i) && 0 <= c < old(trace).spec_width()
                && 0 <= r < old(trace).spec_length() ==> #[trigger] trace.cell(c, r) == old(trace).cell(c, r),
        decreases values@.len() - i,
    {
        let ghost before = *trace;
        fill_bits(trace, col + 64 * i, row, values[i], 64);
        proof {
            assert forall|j: int, z: int| 0 <= j < i + 1 && 0 <= z < 64
                implies (#[trigger] trace.cell(col + j * 64 + z, row as int)).val() == bit_of(values@[j] as nat, z as nat) by {
                if j < i {
                    assert(trace.cell(col + j * 64 + z, row as int) == before.cell(col + j * 64 + z, row as int));
                } else {
                    assert(trace.cell((col + 64 * i) + z, row as int).val() == bit_of(values@[j] as nat, z as nat));
                }
            }
            assert forall|c: int, r: int| (r != row || c < col || c >= col + 64 * (i + 1)) && 0 <= c < old(trace).spec_width()
                && 0 <= r < old(trace).spec_length() implies #[trigger] trace.cell(c, r) == old(trace).cell(c, r) by {
                assert(trace.cell(c, r) == before.cell(c, r));
            }
        }
        i = i + 1;
    }
}

fn fill_halves(trace: &mut TraceTable, base: usize, row: usize, state: &[u64; LANES], rc: u64)
    requires
        base + QUDROS_WIDTH <= old(trace).spec_width(),
        row < old(trace).spec_length(),
    ensures
        final(trace).spec_width() == old(trace).spec_width(),
        final(trace).spec_length() == old(trace).spec_length(),
        forall|l: int| 0 <= l < 25 ==> (#[trigger] final(trace).cell(base + HALF_OFF + 2 * l, row as int)).val() == half_of(state@[l], false),
        forall|l: int| 0 <= l < 25 ==> (#[trigger] final(trace).cell(base + HALF_OFF + 2 * l + 1, row as int)).val() == half_of(state@[l], true),
        final(trace).cell(base + RCHALF_OFF, row as int).val() == half_of(rc, false),
        final(trace).cell(base + RCHALF_OFF + 1, row as int).val() == half_of(rc, true),
        forall|c: int, r: int| (r != row || c < base + HALF_OFF || c >= base + QUDROS_WIDTH) && 0 <= c < old(trace).spec_width()
            && 0 <= r < old(trace).spec_length() ==> #[trigger] final(trace).cell(c, r) == old(trace).cell(c, r),
{
    let mut l: usize = 0;
    while l < LANES
        invariant
            l <= LANES,
            base + QUDROS_WIDTH <= trace.spec_width(),
            row < trace.spec_length(),
            trace.spec_width() == old(trace).spec_width(),
            trace.spec_length() == old(trace).spec_length(),
            forall|j: int| 0 <= j < l ==> (#[trigger] trace.cell(base + HALF_OFF + 2 * j, row as int)).val() == half_of(state@[j], false),
            forall|j: int| 0 <= j < l ==> (#[trigger] trace.cell(base + HALF_OFF + 2 * j + 1, row as int)).val() == half_of(state@[j], true),
            forall|c: int, r: int| (r != row || c < base + HALF_OFF || c >= base + HALF_OFF + 2 * l) && 0 <= c < old(trace).spec_width()
                && 0 <= r < old(trace).spec_length() ==> #[trigger] trace.cell(c, r) == old(trace).cell(c, r),
        decreases LANES - l,
    {
        let (lo, hi) = lane_halves(state[l]);
        let ghost before = *trace;
        trace.set(base + HALF_OFF + 2 * l, row, lo);
        trace.set(base + HALF_OFF + 2 * l + 1, row, hi);
        proof {
            assert forall|j: int| 0 <= j < l + 1 implies (#[trigger] trace.cell(base + HALF_OFF + 2 * j, row as int)).val() == half_of(state@[j], false) by {
                if j < l {
                    assert(trace.cell(base + HALF_OFF + 2 * j, row as int) == before.cell(base + HALF_OFF + 2 * j, row as int));
                }
            }
            assert forall|j: int| 0 <= j < l + 1 implies (#[trigger] trace.cell(base + HALF_OFF + 2 * j + 1, row as int)).val() == half_of(state@[j], true) by {
                if j < l {
                    assert(trace.cell(base + HALF_OFF + 2 * j + 1, row as int) == before.cell(base + HALF_OFF + 2 * j + 1, row as int));
                }
            }
            assert forall|c: int, r: int| (r != row || c < base + HALF_OFF || c >= base + HALF_OFF + 2 * (l + 1)) && 0 <= c < old(trace).spec_width()
                && 0 <= r < old(trace).spec_length() implies #[trigger] trace.cell(c, r) == old(trace).cell(c, r) by {
                assert(trace.cell(c, r) == before.cell(c, r));
            }
        }
        l = l + 1;
    }
    let (lo, hi) = lane_halves(rc);
    trace.set(base + RCHALF_OFF, row, lo);
    trace.set(base + RCHALF_OFF + 1, row, hi);
}

/// Fills one row of the state block at a base column from a state and a
/// round constant.
pub(crate) fn fill_block_row(trace: &mut TraceTable, base: usize, row: usize, state: &[u64; LANES], rc: u64)
    requires
        base + QUDROS_WIDTH <= old(trace).spec_width(),
        row < old(trace).spec_length(),
    ensures
        final(trace).spec_width() == old(trace).spec_width(),
        final(trace).spec_length() == old(trace).spec_length(),
        block_row_filled(final(trace).spec_row(row as int), base as nat, state@, rc),
        forall|c: int, r: int| (r != row || c < base || c >= base + QUDROS_WIDTH) && 0 <= c < old(trace).spec_width()
            && 0 <= r < old(trace).spec_length() ==> #[trigger] final(trace).cell(c, r) == old(trace).cell(c, r),
{
    let mut c = [0u64; 5];
    let mut x: usize = 0;
    while x < 5
        invariant
            x <= 5,
            forall|k: int| 0 <= k < x ==> #[trigger] c@[k] == col_parity(state@, k),
        decreases 5 - x,
    {
        c[x] = state[x] ^ state[x + 5] ^ state[x + 10] ^ state[x + 15] ^ state[x + 20];
        x = x + 1;
    }
    let ghost t0 = *trace;
    fill_lanes(trace, base, row, state.as_slice());
    let ghost t1 = *trace;
    fill_lanes(trace, base + C_OFF, row, c.as_slice());
    let ghost t2 = *trace;
    fill_bits(trace, base + RC_OFF, row, rc, 64);
    let ghost t3 = *trace;
    fill_halves(trace, base, row, state, rc);
    proof {
        let rv = trace.spec_row(row as int);
        assert forall|l: int, z: int| 0 <= l < 25 && 0 <= z < 64
            implies #[trigger] cell_val(rv, base + l * 64 + z) == bit_of(state@[l] as nat, z as nat) by {
            assert(trace.cell(base + l * 64 + z, row as int) == t1.cell(base + l * 64 + z, row as int));
        }
        assert forall|x: int, z: int| 0 <= x < 5 && 0 <= z < 64
            implies #[trigger] cell_val(rv, base + C_OFF + x * 64 + z) == bit_of(col_parity(state@, x) as nat, z as nat) by {
            assert(trace.cell(base + C_OFF + x * 64 + z, row as int) == t2.cell(base + C_OFF + x * 64 + z, row as int));
            assert(c@[x] == col_parity(state@, x));
        }
        assert forall|z: int| 0 <= z < 64 implies #[trigger] cell_val(rv, base + RC_OFF + z) == bit_of(rc as nat, z as nat) by {
            assert(trace.cell(base + RC_OFF + z, row as int) == t3.cell(base + RC_OFF + z, row as int));
        }
        assert forall|l: int| 0 <= l < 25 implies #[trigger] cell_val(rv, base + HALF_OFF + 2 * l) == half_of(state@[l], false) by {
            assert(trace.cell(base + HALF_OFF + 2 * l, row as int).val() == half_of(state@[l], false));
        }
        assert forall|l: int| 0 <= l < 25 implies #[trigger] cell_val(rv, base + HALF_OFF + 2 * l + 1) == half_of(state@[l], true) by {
            assert(trace.cell(base + HALF_OFF + 2 * l + 1, row as int).val() == half_of(state@[l], true));
        }
        assert forall|cc: int, r: int| (r != row || cc < base || cc >= base + QUDROS_WIDTH) && 0 <= cc < old(trace).spec_width()
            && 0 <= r < old(trace).spec_length() implies #[trigger] trace.cell(cc, r) == old(trace).cell(cc, r) by {
            assert(trace.cell(cc, r) == t3.cell(cc, r));
            assert(t3.cell(cc, r) == t2.cell(cc, r));
            assert(t2.cell(cc, r) == t1.cell(cc, r));
            assert(t1.cell(cc, r) == t0.cell(cc, r));
        }
    }
}

fn fill_row(trace: &mut TraceTable, row: usize, state: &[u64; LANES], rc: u64)
    requires
        QUDROS_WIDTH <= old(trace).spec_width(),
        row < old(trace).spec_length(),
    ensures
        final(trace).spec_width() == old(trace).spec_width(),
        final(trace).spec_length() == old(trace).spec_length(),
        block_row_filled(final(trace).spec_row(row as int), 0, state@, rc),
        forall|c: int, r: int| (r != row || c >= QUDROS_WIDTH) && 0 <= c < old(trace).spec_width()
            && 0 <= r < old(trace).spec_length() ==> #[trigger] final(trace).cell(c, r) == old(trace).cell(c, r),
{
    fill_block_row(trace, 0, row, state, rc);
}

/// A run of the permutation laid out for proving.
pub struct QudrosInstance {
    pub air: Air,
    pub trace: TraceTable,
    pub output: [u64; LANES],
}

/// Runs the permutation on an input and lays out the trace: row r holds the
/// state after r rounds and round constant r, the rows past the last round
/// running on with the constants that follow.
pub fn qudros_trace(input: &[u64; LANES]) -> (instance: QudrosInstance)
    ensures
        instance.output@ == spec_states(input@, QUDROS_ROUNDS as nat),
        describes_permutation(instance.air, input@, instance.output@),
        instance.trace.spec_width() == QUDROS_WIDTH,
        instance.trace.spec_length() == QUDROS_TRACE_ROWS,
        forall|r: int| 0 <= r < QUDROS_TRACE_ROWS
            ==> block_row_filled(#[trigger] instance.trace.spec_row(r), 0, spec_states(input@, r as nat), spec_rc(r as nat)),
{
    let rc = round_constants(QUDROS_TRACE_ROWS);
    let states = qudros_states(input, QUDROS_TRACE_ROWS - 1);
    let output = states[QUDROS_ROUNDS];
    proof {
        reveal_with_fuel(crate::util::is_pow2, 7);
    }
    let mut trace = TraceTable::new(QUDROS_WIDTH, QUDROS_TRACE_ROWS);
    let mut row: usize = 0;
    while row < QUDROS_TRACE_ROWS
        invariant
            row <= QUDROS_TRACE_ROWS,
            rc@.len() == QUDROS_TRACE_ROWS,
            forall|i: int| 0 <= i < QUDROS_TRACE_ROWS ==> #[trigger] rc@[i] == spec_rc(i as nat),
            states@.len() == QUDROS_TRACE_ROWS,
            forall|k: int| 0 <= k < QUDROS_TRACE_ROWS ==> (#[trigger] states@[k])@ == spec_states(input@, k as nat),
            trace.spec_width() == QUDROS_WIDTH,
            trace.spec_length() == QUDROS_TRACE_ROWS,
            forall|r: int| 0 <= r < row
                ==> block_row_filled(#[trigger] trace.spec_row(r), 0, spec_states(input@, r as nat), spec_rc(r as nat)),
        decreases QUDROS_TRACE_ROWS - row,
    {
        let ghost before = trace;
        fill_row(&mut trace, row, &states[row], rc[row]);
        proof {
            assert forall|r: int| 0 <= r < row + 1
                implies block_row_filled(#[trigger] trace.spec_row(r), 0, spec_states(input@, r as nat), spec_rc(r as nat)) by {
                if r < row {
                    assert(trace.spec_row(r) =~= before.spec_row(r));
                } else {
                    assert(states@[r]@ == spec_states(input@, r as nat));
                }
            }
        }
        row = row + 1;
    }
    QudrosInstance { air: qudros_air(input, &output), trace, output }
}

/// The lane positions of the rotation walk: from x one, y zero, each step
/// moving to x the old y and y twice the old x plus three times the old y,
/// modulo five.
pub open spec fn rho_walk(t: nat) -> (int, int)
    decreases t,
{
    if t == 0 {
        (1, 0)
    } else {
        let prev = rho_walk((t - 1) as nat);
        (prev.1, (2 * prev.0 + 3 * prev.1) % 5)
    }
}

/// The rotation offsets follow the walk: the lane at step t of the walk
/// rotates by the triangular number of t plus one, (t + 1)(t + 2) / 2,
/// modulo sixty four, and the lane at the origin does not rotate.
#[verifier::spinoff_prover]
pub proof fn law_rho_offsets(t: nat)
    requires
        t < 24,
    ensures
        spec_rho(rho_walk(t).0, rho_walk(t).1) as nat == ((t + 1) * (t + 2) / 2) % 64,
        spec_rho(0, 0) == 0,
{
    assert(rho_walk(0) == (1int, 0int));
    assert(rho_walk(1) == (0int, 2int));
    assert(rho_walk(2) == (2int, 1int));
    assert(rho_walk(3) == (1int, 2int));
    assert(rho_walk(4) == (2int, 3int));
    assert(rho_walk(5) == (3int, 3int));
    assert(rho_walk(6) == (3int, 0int));
    assert(rho_walk(7) == (0int, 1int));
    assert(rho_walk(8) == (1int, 3int));
    assert(rho_walk(9) == (3int, 1int));
    assert(rho_walk(10) == (1int, 4int));
    assert(rho_walk(11) == (4int, 4int));
    assert(rho_walk(12) == (4int, 0int));
    assert(rho_walk(13) == (0int, 3int));
    assert(rho_walk(14) == (3int, 4int));
    assert(rho_walk(15) == (4int, 3int));
    assert(rho_walk(16) == (3int, 2int));
    assert(rho_walk(17) == (2int, 2int));
    assert(rho_walk(18) == (2int, 0int));
    assert(rho_walk(19) == (0int, 4int));
    assert(rho_walk(20) == (4int, 2int));
    assert(rho_walk(21) == (2int, 4int));
    assert(rho_walk(22) == (4int, 1int));
    assert(rho_walk(23) == (1int, 1int));
    if false {
    } else if t == 0 {
        assert((1nat * 2nat / 2) % 64 == 1nat);
    } else if t == 1 {
        assert((2nat * 3nat / 2) % 64 == 3nat);
    } else if t == 2 {
        assert((3nat * 4nat / 2) % 64 == 6nat);
    } else if t == 3 {
        assert((4nat * 5nat / 2) % 64 == 10nat);
    } else if t == 4 {
        assert((5nat * 6nat / 2) % 64 == 15nat);
    } else if t == 5 {
        assert((6nat * 7nat / 2) % 64 == 21nat);
    } else if t == 6 {
        assert((7nat * 8nat / 2) % 64 == 28nat);
    } else if t == 7 {
        assert((8nat * 9nat / 2) % 64 == 36nat);
    } else if t == 8 {
        assert((9nat * 10nat / 2) % 64 == 45nat);
    } else if t == 9 {
        assert((10nat * 11nat / 2) % 64 == 55nat);
    } else if t == 10 {
        assert((11nat * 12nat / 2) % 64 == 2nat);
    } else if t == 11 {
        assert((12nat * 13nat / 2) % 64 == 14nat);
    } else if t == 12 {
        assert((13nat * 14nat / 2) % 64 == 27nat);
    } else if t == 13 {
        assert((14nat * 15nat / 2) % 64 == 41nat);
    } else if t == 14 {
        assert((15nat * 16nat / 2) % 64 == 56nat);
    } else if t == 15 {
        assert((16nat * 17nat / 2) % 64 == 8nat);
    } else if t == 16 {
        assert((17nat * 18nat / 2) % 64 == 25nat);
    } else if t == 17 {
        assert((18nat * 19nat / 2) % 64 == 43nat);
    } else if t == 18 {
        assert((19nat * 20nat / 2) % 64 == 62nat);
    } else if t == 19 {
        assert((20nat * 21nat / 2) % 64 == 18nat);
    } else if t == 20 {
        assert((21nat * 22nat / 2) % 64 == 39nat);
    } else if t == 21 {
        assert((22nat * 23nat / 2) % 64 == 61nat);
    } else if t == 22 {
        assert((23nat * 24nat / 2) % 64 == 20nat);
    } else if t == 23 {
        assert((24nat * 25nat / 2) % 64 == 44nat);
    }
}

/// Rotating left by r moves bit k of a lane to bit k + r, wrapping round
/// the sixty four bits.
pub proof fn law_rotl_bits(v: u64, r: u32, k: u64)
    requires
        r < 64,
        k < 64,
    ensures
        (rotl(v, r) >> ((k + r as u64) % 64)) & 1 == (v >> k) & 1,
{
    let rr = r as u64;
    if r == 0 {
        assert((k + 0) % 64 == k);
    } else {
        let sh = (64 - rr) as u64;
        let pos = ((k + rr) % 64) as u64;
        assert(((v << rr) | (v >> sh)) >> pos & 1 == (v >> k) & 1) by (bit_vector)
            requires 0 < rr < 64, k < 64, sh == 64 - rr, pos == (k + rr) % 64;
        assert(v << r == v << rr) by (bit_vector)
            requires rr == r as u64, r < 64;
        assert(v >> ((64 - r) as u32) == v >> sh) by (bit_vector)
            requires rr == r as u64, r < 64, sh == 64 - rr;
    }
}

} // verus!
