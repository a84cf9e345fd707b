//! Rejection sampling of the matrix coefficients below the modulus from a
//! byte stream, three bytes to a candidate, and the constraint piece that
//! proves which candidates were accepted.
use vstd::prelude::*;
use crate::air::{
    Air, Expr, TraceTable, bit_of, bool_val, cell_val, fill_bits, lemma_append_rule, lemma_bit_rule,
    lemma_recompose_bits, lemma_rules_met, recompose_val, single_rows_appended,
};
use crate::field::{Felt, fmul, fsub, p};
use crate::lattice::{Q, RESIDUE_BITS, RING_DEGREE};
use crate::util::{is_pow2, next_pow2, padded_len};

verus! {

broadcast use TraceTable::lemma_width_fits, TraceTable::lemma_length_fits;

/// The bytes of one candidate: the low, the middle and the high byte.
pub const CANDIDATE_BYTES: usize = 3;
/// The bytes of the first SHAKE128 buffer, six rate blocks.
pub const REJ_BUFFER_BYTES: usize = crate::sponge::SHAKE128_RATE * 6;
/// The candidates the first buffer covers.
pub const CANDIDATES: usize = REJ_BUFFER_BYTES / CANDIDATE_BYTES;

pub const COL_B0: usize = 0;
pub const COL_B1: usize = 1;
pub const COL_B2: usize = 2;
pub const COL_B2M: usize = 3;
pub const COL_BIT7: usize = 4;
pub const COL_Z: usize = 5;
pub const COL_ACC: usize = 6;
pub const COL_SUB: usize = 7;
pub const COL_OVER: usize = 8;
pub const COL_B0_BITS: usize = 9;
pub const COL_B1_BITS: usize = COL_B0_BITS + 8;
pub const COL_B2M_BITS: usize = COL_B1_BITS + 8;
pub const COL_SUB_BITS: usize = COL_B2M_BITS + 7;
pub const COL_OVER_BITS: usize = COL_SUB_BITS + RESIDUE_BITS;

/// The column width of the piece.
pub const WIDTH: usize = COL_OVER_BITS + RESIDUE_BITS;
/// The accept column.
pub const ACCEPT_COL: usize = COL_ACC;
/// The candidate column.
pub const CANDIDATE_COL: usize = COL_Z;
/// The number of single row rules before the bit rules.
pub const ROW_RULES: usize = 11;
/// The number of bit rules.
pub const BIT_RULES: usize = WIDTH - COL_B0_BITS;
/// The number of rules of the piece.
pub const RULES: usize = ROW_RULES + BIT_RULES;

/// The candidate of a byte triple: the little endian value of the low byte,
/// the middle byte and the high byte less its top bit.
pub open spec fn cand_val(b0: u8, b1: u8, b2: u8) -> nat {
    b0 as nat + 256 * (b1 as nat) + 65536 * (b2 as nat % 128)
}

/// The candidate of a byte triple.
pub fn candidate(b0: u8, b1: u8, b2: u8) -> (z: u32)
    ensures
        z == cand_val(b0, b1, b2),
{
    let z = (b0 as u32) | ((b1 as u32) << 8u32) | (((b2 & 127) as u32) << 16u32);
    proof {
        assert(z == b0 as u32 + 256 * (b1 as u32) + 65536 * ((b2 & 127) as u32)) by (bit_vector)
            requires z == (b0 as u32) | ((b1 as u32) << 8u32) | (((b2 & 127) as u32) << 16u32);
        assert(b2 & 127 == b2 % 128) by (bit_vector);
    }
    z
}

/// The coefficients accepted from a stream position on, added to those
/// accepted before, until the ring is full or the stream has no whole
/// candidate left.
pub open spec fn rej_from(stream: Seq<u8>, pos: nat, out: Seq<u64>) -> Seq<u64>
    decreases stream.len() - pos,
{
    if out.len() >= RING_DEGREE || pos + CANDIDATE_BYTES > stream.len() {
        out
    } else {
        let z = cand_val(stream[pos as int], stream[pos as int + 1], stream[pos as int + 2]);
        rej_from(stream, (pos + CANDIDATE_BYTES) as nat, if z < Q { out.push(z as u64) } else { out })
    }
}

/// Rejection samples one ring of coefficients below the modulus from the
/// stream, in order, as many as the stream gives up to the ring degree.
pub fn rej_sample(stream: &[u8]) -> (out: Vec<u64>)
    ensures
        out@ == rej_from(stream@, 0, Seq::empty()),
{
    let mut out: Vec<u64> = Vec::new();
    let mut pos: usize = 0;
    while out.len() < RING_DEGREE && stream.len() >= CANDIDATE_BYTES && pos <= stream.len() - CANDIDATE_BYTES
        invariant
            pos <= stream@.len(),
            rej_from(stream@, pos as nat, out@) == rej_from(stream@, 0, Seq::empty()),
        decreases stream@.len() - pos,
    {
        let z = candidate(stream[pos], stream[pos + 1], stream[pos + 2]);
        pos = pos + CANDIDATE_BYTES;
        if (z as u64) < Q {
            out.push(z as u64);
        }
    }
    out
}

/// The degree of single row rule k.
pub open spec fn rej_degree(k: nat) -> nat {
    if k == 3 || k == 6 || k == 8 || k >= 10 { 2 } else { 1 }
}

/// Single row rule k of the piece at a column base: the bytes recompose
/// from their bits, the high byte splits into its low seven bits and its
/// top bit, the candidate is the little endian value, the accept flag is a
/// bit, an accepted candidate is at most the modulus less one by a residue
/// sized margin and a rejected one at least the modulus by such a margin,
/// and after those every bit column holds a bit.
pub open spec fn rej_rule(base: nat, k: nat, row: Seq<Felt>) -> nat {
    let c = |col: usize| cell_val(row, (base + col) as int);
    if k == 0 {
        fsub(recompose_val(row, (base + COL_B0_BITS) as nat, 8), c(COL_B0))
    } else if k == 1 {
        fsub(recompose_val(row, (base + COL_B1_BITS) as nat, 8), c(COL_B1))
    } else if k == 2 {
        fsub(recompose_val(row, (base + COL_B2M_BITS) as nat, 7), c(COL_B2M))
    } else if k == 3 {
        bool_val(row, (base + COL_BIT7) as nat)
    } else if k == 4 {
        fsub(fsub(c(COL_B2), c(COL_B2M)), fmul(c(COL_BIT7), 128))
    } else if k == 5 {
        fsub(fsub(fsub(c(COL_Z), c(COL_B0)), fmul(c(COL_B1), 256)), fmul(c(COL_B2M), 65536))
    } else if k == 6 {
        bool_val(row, (base + COL_ACC) as nat)
    } else if k == 7 {
        fsub(recompose_val(row, (base + COL_SUB_BITS) as nat, RESIDUE_BITS as nat), c(COL_SUB))
    } else if k == 8 {
        fmul(c(COL_ACC), fsub(c(COL_SUB), fsub((Q - 1) as nat, c(COL_Z))))
    } else if k == 9 {
        fsub(recompose_val(row, (base + COL_OVER_BITS) as nat, RESIDUE_BITS as nat), c(COL_OVER))
    } else if k == 10 {
        fmul(fsub(1, c(COL_ACC)), fsub(c(COL_OVER), fsub(c(COL_Z), Q as nat)))
    } else {
        bool_val(row, (base + COL_B0_BITS + (k - ROW_RULES)) as nat)
    }
}

fn rec_less(col: usize, bits: usize, other: Expr, width: usize) -> (e: Expr)
    requires
        col + bits <= width,
        bits <= 64,
        other.reads_below(width as nat),
    ensures
        forall|cur: Seq<Felt>, next: Seq<Felt>| #[trigger] e.value(cur, next)
            == fsub(recompose_val(cur, col as nat, bits as nat), other.value(cur, next)),
        e.reads_below(width as nat),
{
    let rc = Expr::recompose(col, bits);
    let ghost g = rc;
    let ghost o = other;
    let e = rc.sub(other);
    proof {
        assert forall|cur: Seq<Felt>, next: Seq<Felt>| #[trigger] e.value(cur, next)
            == fsub(recompose_val(cur, col as nat, bits as nat), o.value(cur, next)) by {
            assert(g.value(cur, next) == recompose_val(cur, col as nat, bits as nat));
        }
        assert(g.reads_below(width as nat));
    }
    e
}

fn rej_rule_expr(k: usize, base: usize, width: usize) -> (r: (usize, Expr))
    requires
        k < ROW_RULES,
        base + WIDTH <= width,
    ensures
        r.0 == rej_degree(k as nat),
        forall|cur: Seq<Felt>, next: Seq<Felt>| #[trigger] r.1.value(cur, next) == rej_rule(base as nat, k as nat, cur),
        r.1.reads_below(width as nat),
{
    let one = Felt::one();
    let modulus = Felt::new(Q);
    let modulus_less_one = Felt::new(Q - 1);
    let byte_hi = Felt::new(256);
    let word_hi = Felt::new(65536);
    let top = Felt::new(128);
    proof {
        vstd::arithmetic::div_mod::lemma_small_mod(Q as nat, p());
        vstd::arithmetic::div_mod::lemma_small_mod((Q - 1) as nat, p());
        vstd::arithmetic::div_mod::lemma_small_mod(256, p());
        vstd::arithmetic::div_mod::lemma_small_mod(65536, p());
        vstd::arithmetic::div_mod::lemma_small_mod(128, p());
        reveal_with_fuel(Expr::value, 5);
        reveal_with_fuel(Expr::reads_below, 5);
    }
    if k == 0 {
        (1, rec_less(base + COL_B0_BITS, 8, Expr::cur(base + COL_B0), width))
    } else if k == 1 {
        (1, rec_less(base + COL_B1_BITS, 8, Expr::cur(base + COL_B1), width))
    } else if k == 2 {
        (1, rec_less(base + COL_B2M_BITS, 7, Expr::cur(base + COL_B2M), width))
    } else if k == 3 {
        let e = Expr::boolean(base + COL_BIT7);
        assert(e.reads_below(width as nat));
        (2, e)
    } else if k == 4 {
        (1, Expr::cur(base + COL_B2).sub(Expr::cur(base + COL_B2M)).sub(Expr::cur(base + COL_BIT7).mul(Expr::constant(top))))
    } else if k == 5 {
        (1, Expr::cur(base + COL_Z).sub(Expr::cur(base + COL_B0)).sub(Expr::cur(base + COL_B1).mul(Expr::constant(byte_hi)))
            .sub(Expr::cur(base + COL_B2M).mul(Expr::constant(word_hi))))
    } else if k == 6 {
        let e = Expr::boolean(base + COL_ACC);
        assert(e.reads_below(width as nat));
        (2, e)
    } else if k == 7 {
        (1, rec_less(base + COL_SUB_BITS, RESIDUE_BITS, Expr::cur(base + COL_SUB), width))
    } else if k == 8 {
        (2, Expr::cur(base + COL_ACC).mul(Expr::cur(base + COL_SUB).sub(Expr::constant(modulus_less_one).sub(Expr::cur(base + COL_Z)))))
    } else if k == 9 {
        (1, rec_less(base + COL_OVER_BITS, RESIDUE_BITS, Expr::cur(base + COL_OVER), width))
    } else {
        (2, Expr::constant(one).sub(Expr::cur(base + COL_ACC)).mul(Expr::cur(base + COL_OVER).sub(Expr::cur(base + COL_Z).sub(Expr::constant(modulus)))))
    }
}

/// Adds the rejection sampling rules for a piece at the given column base:
/// the row rules, then a bit rule for every bit column.
pub fn add_constraints(air: &mut Air, base: usize)
    requires
        old(air).wf(),
        base + WIDTH <= old(air).spec_base_width(),
    ensures
        final(air).wf(),
        single_rows_appended(old(air).spec_transitions(), final(air).spec_transitions(),
            RULES as nat, |k: nat| rej_degree(k), |k: nat, row: Seq<Felt>| rej_rule(base as nat, k, row)),
        final(air).spec_boundaries() == old(air).spec_boundaries(),
        final(air).spec_permutations() == old(air).spec_permutations(),
        final(air).spec_base_width() == old(air).spec_base_width(),
        final(air).spec_aux_width() == old(air).spec_aux_width(),
        final(air).spec_length() == old(air).spec_length(),
        final(air).spec_num_challenges() == old(air).spec_num_challenges(),
{
    let ghost start = air.spec_transitions();
    let ghost degree = |k: nat| rej_degree(k);
    let ghost rule = |k: nat, row: Seq<Felt>| rej_rule(base as nat, k, row);
    let width = air.base_width();
    proof {
        assert(single_rows_appended(start, air.spec_transitions(), 0, degree, rule));
    }
    let mut k: usize = 0;
    while k < RULES
        invariant
            k <= RULES,
            air.wf(),
            width == air.spec_base_width(),
            base + WIDTH <= width,
            single_rows_appended(start, air.spec_transitions(), k as nat, degree, rule),
            degree == (|k: nat| rej_degree(k)),
            rule == (|k: nat, row: Seq<Felt>| rej_rule(base as nat, k, row)),
            air.spec_boundaries() == old(air).spec_boundaries(),
            air.spec_permutations() == old(air).spec_permutations(),
            air.spec_base_width() == old(air).spec_base_width(),
            air.spec_aux_width() == old(air).spec_aux_width(),
            air.spec_length() == old(air).spec_length(),
            air.spec_num_challenges() == old(air).spec_num_challenges(),
        decreases RULES - k,
    {
        let (d, e) = if k < ROW_RULES {
            rej_rule_expr(k, base, width)
        } else {
            let e = Expr::boolean(base + COL_B0_BITS + (k - ROW_RULES));
            proof {
                assert(e.reads_below(width as nat));
            }
            (2, e)
        };
        proof {
            assert forall|cur: Seq<Felt>, next: Seq<Felt>| #[trigger] e.value(cur, next) == rule(k as nat, cur) by {
                if k < ROW_RULES {
                    assert(e.value(cur, next) == rej_rule(base as nat, k as nat, cur));
                } else {
                    assert(e.value(cur, next) == bool_val(cur, (base + COL_B0_BITS + (k - ROW_RULES)) as nat));
                }
            }
        }
        let ghost mid = air.spec_transitions();
        air.add_single_row(d, e);
        proof {
            lemma_append_rule(start, mid, air.spec_transitions(), k as nat, degree, rule, air.spec_transitions().last());
        }
        k = k + 1;
    }
}

/// What the description of a rejection sampling of the given length holds.
pub open spec fn describes_rej(air: Air, length: nat) -> bool {
    let t = air.spec_transitions();
    &&& air.wf()
    &&& air.spec_base_width() == WIDTH
    &&& air.spec_aux_width() == 0
    &&& air.spec_length() == length
    &&& air.spec_num_challenges() == 0
    &&& air.spec_permutations().len() == 0
    &&& air.spec_boundaries().len() == 0
    &&& single_rows_appended(Seq::empty(), t, RULES as nat,
        |k: nat| rej_degree(k), |k: nat, row: Seq<Felt>| rej_rule(0, k, row))
}

/// The description of a rejection sampling of the given length, a power of
/// two.
pub fn rej_air(length: usize) -> (air: Air)
    requires
        is_pow2(length as nat),
    ensures
        describes_rej(air, length as nat),
{
    let mut air = Air::new(WIDTH, length);
    proof {
        assert(air.spec_transitions() =~= Seq::<crate::air::Transition>::empty());
    }
    add_constraints(&mut air, 0);
    air
}

/// A rejection sampling row over a byte triple: the bytes, the high byte
/// less its top bit and that bit, the candidate, the accept flag, the
/// margin below the modulus of an accepted candidate or above it of a
/// rejected one, and the bits.
pub open spec fn rej_row_filled(row: Seq<Felt>, base: nat, b0: u8, b1: u8, b2: u8) -> bool {
    let z = cand_val(b0, b1, b2);
    let acc = z < Q;
    let sub: nat = if acc { (Q - 1 - z) as nat } else { 0 };
    let over: nat = if acc { 0 } else { (z - Q) as nat };
    let b2m = b2 as nat % 128;
    let c = |col: usize| cell_val(row, (base + col) as int);
    &&& c(COL_B0) == b0 as nat
    &&& c(COL_B1) == b1 as nat
    &&& c(COL_B2) == b2 as nat
    &&& c(COL_B2M) == b2m
    &&& c(COL_BIT7) == b2 as nat / 128
    &&& c(COL_Z) == z
    &&& c(COL_ACC) == if acc { 1nat } else { 0nat }
    &&& c(COL_SUB) == sub
    &&& c(COL_OVER) == over
    &&& forall|k: nat| k < 8 ==> #[trigger] cell_val(row, (base + COL_B0_BITS + k) as int) == bit_of(b0 as nat, k)
    &&& forall|k: nat| k < 8 ==> #[trigger] cell_val(row, (base + COL_B1_BITS + k) as int) == bit_of(b1 as nat, k)
    &&& forall|k: nat| k < 7 ==> #[trigger] cell_val(row, (base + COL_B2M_BITS + k) as int) == bit_of(b2m, k)
    &&& forall|k: nat| k < RESIDUE_BITS ==> #[trigger] cell_val(row, (base + COL_SUB_BITS + k) as int) == bit_of(sub, k)
    &&& forall|k: nat| k < RESIDUE_BITS ==> #[trigger] cell_val(row, (base + COL_OVER_BITS + k) as int) == bit_of(over, k)
}

/// A row filled from a byte triple meets every rule of the piece.
#[verifier::rlimit(40)]
#[verifier::spinoff_prover]
pub proof fn law_filled_row_meets_rules(row: Seq<Felt>, base: nat, b0: u8, b1: u8, b2: u8)
    requires
        rej_row_filled(row, base, b0, b1, b2),
    ensures
        forall|k: nat| k < RULES ==> #[trigger] rej_rule(base, k, row) == 0,
{
    let z = cand_val(b0, b1, b2);
    let acc = z < Q;
    let sub: nat = if acc { (Q - 1 - z) as nat } else { 0 };
    let over: nat = if acc { 0 } else { (z - Q) as nat };
    let b2m = b2 as nat % 128;
    vstd::arithmetic::power2::lemma2_to64();
    assert(z < 0x80_0000);
    assert(sub < 0x80_0000 && over < 0x80_0000);
    vstd::arithmetic::div_mod::lemma_small_mod(0, p());
    vstd::arithmetic::div_mod::lemma_small_mod(1, p());
    vstd::arithmetic::div_mod::lemma_small_mod(b0 as nat, p());
    vstd::arithmetic::div_mod::lemma_small_mod(b1 as nat, p());
    vstd::arithmetic::div_mod::lemma_small_mod(b2 as nat, p());
    vstd::arithmetic::div_mod::lemma_small_mod(b2m, p());
    vstd::arithmetic::div_mod::lemma_small_mod(z, p());
    vstd::arithmetic::div_mod::lemma_small_mod(sub, p());
    vstd::arithmetic::div_mod::lemma_small_mod(over, p());
    vstd::arithmetic::div_mod::lemma_small_mod((Q - 1) as nat, p());
    vstd::arithmetic::div_mod::lemma_small_mod(Q as nat, p());
    assert forall|k: nat| k < RULES implies #[trigger] rej_rule(base, k, row) == 0 by {
        if k == 0 {
            lemma_recompose_bits(row, (base + COL_B0_BITS) as nat, 8, b0 as nat);
            vstd::arithmetic::div_mod::lemma_small_mod(b0 as nat, vstd::arithmetic::power2::pow2(8));
            assert(rej_rule(base, k, row) == 0);
        } else if k == 1 {
            lemma_recompose_bits(row, (base + COL_B1_BITS) as nat, 8, b1 as nat);
            vstd::arithmetic::div_mod::lemma_small_mod(b1 as nat, vstd::arithmetic::power2::pow2(8));
            assert(rej_rule(base, k, row) == 0);
        } else if k == 2 {
            lemma_recompose_bits(row, (base + COL_B2M_BITS) as nat, 7, b2m);
            vstd::arithmetic::div_mod::lemma_small_mod(b2m, vstd::arithmetic::power2::pow2(7));
            assert(rej_rule(base, k, row) == 0);
        } else if k == 3 {
            lemma_bit_rule(row, (base + COL_BIT7) as nat);
            assert(rej_rule(base, k, row) == 0);
        } else if k == 4 {
            let t = b2 as nat / 128;
            vstd::arithmetic::div_mod::lemma_small_mod(t, p());
            vstd::arithmetic::div_mod::lemma_small_mod(t * 128, p());
            vstd::arithmetic::div_mod::lemma_fundamental_div_mod(b2 as int, 128);
            assert(rej_rule(base, k, row) == 0);
        } else if k == 5 {
            vstd::arithmetic::div_mod::lemma_small_mod(256 * (b1 as nat), p());
            vstd::arithmetic::div_mod::lemma_small_mod(65536 * b2m, p());
            assert(fmul(b1 as nat, 256) == 256 * (b1 as nat)) by (nonlinear_arith)
                requires fmul(b1 as nat, 256) == ((b1 as nat) * 256) % p(), (256 * (b1 as nat)) % p() == 256 * (b1 as nat);
            assert(fmul(b2m, 65536) == 65536 * b2m) by (nonlinear_arith)
                requires fmul(b2m, 65536) == (b2m * 65536) % p(), (65536 * b2m) % p() == 65536 * b2m;
            assert(rej_rule(base, k, row) == 0);
        } else if k == 6 {
            lemma_bit_rule(row, (base + COL_ACC) as nat);
            assert(rej_rule(base, k, row) == 0);
        } else if k == 7 {
            lemma_recompose_bits(row, (base + COL_SUB_BITS) as nat, RESIDUE_BITS as nat, sub);
            vstd::arithmetic::div_mod::lemma_small_mod(sub, vstd::arithmetic::power2::pow2(RESIDUE_BITS as nat));
            assert(rej_rule(base, k, row) == 0);
        } else if k == 8 {
            assert(rej_rule(base, k, row) == 0);
        } else if k == 9 {
            lemma_recompose_bits(row, (base + COL_OVER_BITS) as nat, RESIDUE_BITS as nat, over);
            vstd::arithmetic::div_mod::lemma_small_mod(over, vstd::arithmetic::power2::pow2(RESIDUE_BITS as nat));
            assert(rej_rule(base, k, row) == 0);
        } else if k == 10 {
            if acc {
                assert(fsub(1, 1) == 0);
                assert(fmul(0, fsub(over, fsub(z, Q as nat))) == 0);
            } else {
                assert(fsub(1, 0) == 1);
                vstd::arithmetic::div_mod::lemma_small_mod((z - Q) as nat, p());
                assert(fsub(z, Q as nat) == over);
                assert(fsub(over, over) == 0);
                assert(fmul(1, 0) == 0);
            }
            assert(rej_rule(base, k, row) == 0);
        } else {
            let j = (k - ROW_RULES) as nat;
            let col = (base + COL_B0_BITS + j) as nat;
            if j < 8 {
                assert(cell_val(row, (base + COL_B0_BITS + j) as int) == bit_of(b0 as nat, j));
            } else if j < 16 {
                let j2 = (j - 8) as nat;
                assert(cell_val(row, (base + COL_B1_BITS + j2) as int) == bit_of(b1 as nat, j2));
            } else if j < 23 {
                let j2 = (j - 16) as nat;
                assert(cell_val(row, (base + COL_B2M_BITS + j2) as int) == bit_of(b2m, j2));
            } else if j < 46 {
                let j2 = (j - 23) as nat;
                assert(cell_val(row, (base + COL_SUB_BITS + j2) as int) == bit_of(sub, j2));
            } else {
                let j2 = (j - 46) as nat;
                assert(cell_val(row, (base + COL_OVER_BITS + j2) as int) == bit_of(over, j2));
            }
            lemma_bit_rule(row, col);
        }
    }
}

fn fill_values(trace: &mut TraceTable, base: usize, row: usize, vals: &[Felt; 9])
    requires
        base + WIDTH <= old(trace).spec_width(),
        row < old(trace).spec_length(),
    ensures
        final(trace).spec_width() == old(trace).spec_width(),
        final(trace).spec_length() == old(trace).spec_length(),
        forall|j: int| 0 <= j < 9 ==> #[trigger] final(trace).cell(base + j, row as int) == vals@[j],
        forall|c: int, r: int| (r != row || c < base || c >= base + 9) && 0 <= c < old(trace).spec_width()
            && 0 <= r < old(trace).spec_length() ==> #[trigger] final(trace).cell(c, r) == old(trace).cell(c, r),
{
    let mut i: usize = 0;
    while i < 9
        invariant
            i <= 9,
            base + WIDTH <= trace.spec_width(),
            row < trace.spec_length(),
            trace.spec_width() == old(trace).spec_width(),
            trace.spec_length() == old(trace).spec_length(),
            forall|j: int| 0 <= j < i ==> #[trigger] trace.cell(base + j, row as int) == vals@[j],
            forall|c: int, r: int| (r != row || c < base || c >= base + i) && 0 <= c < old(trace).spec_width()
                && 0 <= r < old(trace).spec_length() ==> #[trigger] trace.cell(c, r) == old(trace).cell(c, r),
        decreases 9 - i,
    {
        let ghost before = *trace;
        trace.set(base + i, row, vals[i]);
        proof {
            assert forall|j: int| 0 <= j < i + 1 implies #[trigger] trace.cell(base + j, row as int) == vals@[j] by {
                if j < i {
                    assert(trace.cell(base + j, row as int) == before.cell(base + j, row as int));
                }
            }
            assert forall|c: int, r: int| (r != row || c < base || c >= base + i + 1) && 0 <= c < old(trace).spec_width()
                && 0 <= r < old(trace).spec_length() implies #[trigger] trace.cell(c, r) == old(trace).cell(c, r) by {
                assert(trace.cell(c, r) == before.cell(c, r));
            }
        }
        i = i + 1;
    }
}

fn fill_row_bits(trace: &mut TraceTable, base: usize, row: usize, b0: u64, b1: u64, b2m: u64, sub: u64, over: u64)
    requires
        base + WIDTH <= old(trace).spec_width(),
        row < old(trace).spec_length(),
    ensures
        final(trace).spec_width() == old(trace).spec_width(),
        final(trace).spec_length() == old(trace).spec_length(),
        forall|k: int| 0 <= k < 8 ==> (#[trigger] final(trace).cell(base + COL_B0_BITS + k, row as int)).val() == bit_of(b0 as nat, k as nat),
        forall|k: int| 0 <= k < 8 ==> (#[trigger] final(trace).cell(base + COL_B1_BITS + k, row as int)).val() == bit_of(b1 as nat, k as nat),
        forall|k: int| 0 <= k < 7 ==> (#[trigger] final(trace).cell(base + COL_B2M_BITS + k, row as int)).val() == bit_of(b2m as nat, k as nat),
        forall|k: int| 0 <= k < RESIDUE_BITS ==> (#[trigger] final(trace).cell(base + COL_SUB_BITS + k, row as int)).val() == bit_of(sub as nat, k as nat),
        forall|k: int| 0 <= k < RESIDUE_BITS ==> (#[trigger] final(trace).cell(base + COL_OVER_BITS + k, row as int)).val() == bit_of(over as nat, k as nat),
        forall|c: int, r: int| (r != row || c < base + COL_B0_BITS || c >= base + WIDTH) && 0 <= c < old(trace).spec_width()
            && 0 <= r < old(trace).spec_length() ==> #[trigger] final(trace).cell(c, r) == old(trace).cell(c, r),
{
    let ghost t0 = *trace;
    fill_bits(trace, base + COL_B0_BITS, row, b0, 8);
    let ghost t1 = *trace;
    fill_bits(trace, base + COL_B1_BITS, row, b1, 8);
    let ghost t2 = *trace;
    fill_bits(trace, base + COL_B2M_BITS, row, b2m, 7);
    let ghost t3 = *trace;
    fill_bits(trace, base + COL_SUB_BITS, row, sub, RESIDUE_BITS);
    let ghost t4 = *trace;
    fill_bits(trace, base + COL_OVER_BITS, row, over, RESIDUE_BITS);
    proof {
        let t5 = *trace;
        let r = row as int;
        assert forall|k: int| 0 <= k < 8 implies (#[trigger] t5.cell(base + COL_B0_BITS + k, r)).val() == bit_of(b0 as nat, k as nat) by {
            assert(t1.cell(base + COL_B0_BITS + k, r) == t2.cell(base + COL_B0_BITS + k, r));
            assert(t2.cell(base + COL_B0_BITS + k, r) == t3.cell(base + COL_B0_BITS + k, r));
            assert(t3.cell(base + COL_B0_BITS + k, r) == t4.cell(base + COL_B0_BITS + k, r));
            assert(t4.cell(base + COL_B0_BITS + k, r) == t5.cell(base + COL_B0_BITS + k, r));
        }
        assert forall|k: int| 0 <= k < 8 implies (#[trigger] t5.cell(base + COL_B1_BITS + k, r)).val() == bit_of(b1 as nat, k as nat) by {
            assert(t2.cell(base + COL_B1_BITS + k, r) == t3.cell(base + COL_B1_BITS + k, r));
            assert(t3.cell(base + COL_B1_BITS + k, r) == t4.cell(base + COL_B1_BITS + k, r));
            assert(t4.cell(base + COL_B1_BITS + k, r) == t5.cell(base + COL_B1_BITS + k, r));
        }
        assert forall|k: int| 0 <= k < 7 implies (#[trigger] t5.cell(base + COL_B2M_BITS + k, r)).val() == bit_of(b2m as nat, k as nat) by {
            assert(t3.cell(base + COL_B2M_BITS + k, r) == t4.cell(base + COL_B2M_BITS + k, r));
            assert(t4.cell(base + COL_B2M_BITS + k, r) == t5.cell(base + COL_B2M_BITS + k, r));
        }
        assert forall|k: int| 0 <= k < RESIDUE_BITS implies (#[trigger] t5.cell(base + COL_SUB_BITS + k, r)).val() == bit_of(sub as nat, k as nat) by {
            assert(t4.cell(base + COL_SUB_BITS + k, r) == t5.cell(base + COL_SUB_BITS + k, r));
        }
        assert forall|c: int, rr: int| (rr != row || c < base + COL_B0_BITS || c >= base + WIDTH) && 0 <= c < t0.spec_width()
            && 0 <= rr < t0.spec_length() implies #[trigger] t5.cell(c, rr) == t0.cell(c, rr) by {
            assert(t5.cell(c, rr) == t4.cell(c, rr));
            assert(t4.cell(c, rr) == t3.cell(c, rr));
            assert(t3.cell(c, rr) == t2.cell(c, rr));
            assert(t2.cell(c, rr) == t1.cell(c, rr));
            assert(t1.cell(c, rr) == t0.cell(c, rr));
        }
    }
}

/// Fills one rejection sampling row at the given column base over one byte
/// triple.
pub fn fill_row(trace: &mut TraceTable, base: usize, row: usize, b0: u8, b1: u8, b2: u8)
    requires
        base + WIDTH <= old(trace).spec_width(),
        row < old(trace).spec_length(),
    ensures
        final(trace).spec_width() == old(trace).spec_width(),
        final(trace).spec_length() == old(trace).spec_length(),
        rej_row_filled(final(trace).spec_row(row as int), base as nat, b0, b1, b2),
        forall|c: int, r: int| (r != row || c < base || c >= base + WIDTH) && 0 <= c < old(trace).spec_width()
            && 0 <= r < old(trace).spec_length() ==> #[trigger] final(trace).cell(c, r) == old(trace).cell(c, r),
{
    let b2m = (b2 & 127) as u64;
    let bit7 = (b2 >> 7u8) as u64;
    proof {
        assert(b2 & 127 == b2 % 128) by (bit_vector);
        assert(b2 >> 7u8 == b2 / 128) by (bit_vector);
    }
    let z = candidate(b0, b1, b2) as u64;
    let acc: u64 = if z < Q { 1 } else { 0 };
    let sub: u64 = if acc == 1 { Q - 1 - z } else { 0 };
    let over: u64 = if acc == 0 { z - Q } else { 0 };
    proof {
        vstd::arithmetic::div_mod::lemma_small_mod(b0 as nat, p());
        vstd::arithmetic::div_mod::lemma_small_mod(b1 as nat, p());
        vstd::arithmetic::div_mod::lemma_small_mod(b2 as nat, p());
        vstd::arithmetic::div_mod::lemma_small_mod(b2m as nat, p());
        vstd::arithmetic::div_mod::lemma_small_mod(bit7 as nat, p());
        vstd::arithmetic::div_mod::lemma_small_mod(z as nat, p());
        vstd::arithmetic::div_mod::lemma_small_mod(acc as nat, p());
        vstd::arithmetic::div_mod::lemma_small_mod(sub as nat, p());
        vstd::arithmetic::div_mod::lemma_small_mod(over as nat, p());
    }
    let vals: [Felt; 9] = [
        Felt::new(b0 as u64), Felt::new(b1 as u64), Felt::new(b2 as u64), Felt::new(b2m), Felt::new(bit7),
        Felt::new(z), Felt::new(acc), Felt::new(sub), Felt::new(over),
    ];
    let ghost t0 = *trace;
    fill_values(trace, base, row, &vals);
    let ghost t1 = *trace;
    fill_row_bits(trace, base, row, b0 as u64, b1 as u64, b2m, sub, over);
    proof {
        let t2 = *trace;
        let r = row as int;
        assert forall|j: int| 0 <= j < 9 implies #[trigger] t2.cell(base + j, r) == vals@[j] by {
            assert(t2.cell(base + j, r) == t1.cell(base + j, r));
        }
        let rv = t2.spec_row(r);
        assert(cell_val(rv, (base + COL_B0) as int) == vals@[0].val());
        assert(cell_val(rv, (base + COL_B1) as int) == vals@[1].val());
        assert(cell_val(rv, (base + COL_B2) as int) == vals@[2].val());
        assert(cell_val(rv, (base + COL_B2M) as int) == vals@[3].val());
        assert(cell_val(rv, (base + COL_BIT7) as int) == vals@[4].val());
        assert(cell_val(rv, (base + COL_Z) as int) == vals@[5].val());
        assert(cell_val(rv, (base + COL_ACC) as int) == vals@[6].val());
        assert(cell_val(rv, (base + COL_SUB) as int) == vals@[7].val());
        assert(cell_val(rv, (base + COL_OVER) as int) == vals@[8].val());
        assert forall|k: nat| k < 8 implies #[trigger] cell_val(rv, (base + COL_B0_BITS + k) as int) == bit_of(b0 as nat, k) by {
            assert(t2.cell(base + COL_B0_BITS + k, r).val() == bit_of(b0 as nat, k));
        }
        assert forall|k: nat| k < 8 implies #[trigger] cell_val(rv, (base + COL_B1_BITS + k) as int) == bit_of(b1 as nat, k) by {
            assert(t2.cell(base + COL_B1_BITS + k, r).val() == bit_of(b1 as nat, k));
        }
        assert forall|k: nat| k < 7 implies #[trigger] cell_val(rv, (base + COL_B2M_BITS + k) as int) == bit_of(b2m as nat, k) by {
            assert(t2.cell(base + COL_B2M_BITS + k, r).val() == bit_of(b2m as nat, k));
        }
        assert forall|k: nat| k < RESIDUE_BITS implies #[trigger] cell_val(rv, (base + COL_SUB_BITS + k) as int) == bit_of(sub as nat, k) by {
            assert(t2.cell(base + COL_SUB_BITS + k, r).val() == bit_of(sub as nat, k));
        }
        assert forall|k: nat| k < RESIDUE_BITS implies #[trigger] cell_val(rv, (base + COL_OVER_BITS + k) as int) == bit_of(over as nat, k) by {
            assert(t2.cell(base + COL_OVER_BITS + k, r).val() == bit_of(over as nat, k));
        }
        assert forall|c: int, rr: int| (rr != row || c < base || c >= base + WIDTH) && 0 <= c < t0.spec_width()
            && 0 <= rr < t0.spec_length() implies #[trigger] t2.cell(c, rr) == t0.cell(c, rr) by {
            assert(t2.cell(c, rr) == t1.cell(c, rr));
            assert(t1.cell(c, rr) == t0.cell(c, rr));
        }
    }
}

/// A filled rejection sampling batch with its description and the accepted
/// coefficients.
pub struct RejBatch {
    pub air: Air,
    pub trace: TraceTable,
    pub coefficients: Vec<u64>,
}

/// The number of candidates a batch lays out: the whole candidates of the
/// stream, at most those of the first buffer.
pub open spec fn batch_candidates(len: nat) -> nat {
    if len / 3 < CANDIDATES { len / 3 } else { CANDIDATES as nat }
}

/// Lays out a trace over the leading candidates of the stream, one
/// candidate per row, padded with zero triples to a power of two of at
/// least two rows, with its description and the accepted coefficients.
pub fn rej_batch(stream: &[u8]) -> (batch: RejBatch)
    ensures
        batch.coefficients@ == rej_from(stream@, 0, Seq::empty()),
        batch.trace.spec_width() == WIDTH,
        batch.trace.spec_length() == padded_len(batch_candidates(stream@.len())),
        describes_rej(batch.air, batch.trace.spec_length()),
        forall|r: int| 0 <= r < batch_candidates(stream@.len()) ==> rej_row_filled(#[trigger] batch.trace.spec_row(r), 0,
            stream@[3 * r], stream@[3 * r + 1], stream@[3 * r + 2]),
        forall|r: int| batch_candidates(stream@.len()) <= r < batch.trace.spec_length()
            ==> rej_row_filled(#[trigger] batch.trace.spec_row(r), 0, 0, 0, 0),
        batch.air.spec_satisfied(&batch.trace),
{
    let n = stream.len() / CANDIDATE_BYTES;
    let candidates = if n < CANDIDATES { n } else { CANDIDATES };
    proof {
        assert(crate::util::two_pow(9) == 512) by { reveal_with_fuel(crate::util::two_pow, 10); }
        crate::util::lemma_next_pow2_bound(candidates as nat, 9);
    }
    let length = crate::util::padded_length(candidates);
    assert(length <= 512);
    assert(WIDTH == 78);
    assert(WIDTH * length <= 78 * 512) by (nonlinear_arith)
        requires length <= 512, WIDTH == 78;
    let mut trace = TraceTable::new(WIDTH, length);
    let mut row: usize = 0;
    while row < length
        invariant
            row <= length,
            length <= 512,
            candidates == batch_candidates(stream@.len()),
            candidates * 3 <= stream@.len(),
            trace.spec_width() == WIDTH,
            trace.spec_length() == length,
            forall|r: int| 0 <= r < row && r < candidates ==> rej_row_filled(#[trigger] trace.spec_row(r), 0,
                stream@[3 * r], stream@[3 * r + 1], stream@[3 * r + 2]),
            forall|r: int| candidates <= r < row ==> rej_row_filled(#[trigger] trace.spec_row(r), 0, 0, 0, 0),
        decreases length - row,
    {
        let (b0, b1, b2) = if row < candidates {
            let q = row * CANDIDATE_BYTES;
            (stream[q], stream[q + 1], stream[q + 2])
        } else {
            (0u8, 0u8, 0u8)
        };
        let ghost before = trace;
        fill_row(&mut trace, 0, row, b0, b1, b2);
        proof {
            assert forall|r: int| 0 <= r < row implies #[trigger] trace.spec_row(r) == before.spec_row(r) by {
                assert(trace.spec_row(r) =~= before.spec_row(r));
            }
        }
        row = row + 1;
    }
    let air = rej_air(length);
    proof {
        let rule = |k: nat, row: Seq<Felt>| rej_rule(0, k, row);
        assert forall|r: int, k: nat| 0 <= r < air.spec_length() && k < RULES
            implies #[trigger] rule(k, trace.spec_row(r)) == 0 by {
            if r < candidates {
                law_filled_row_meets_rules(trace.spec_row(r), 0, stream@[3 * r], stream@[3 * r + 1], stream@[3 * r + 2]);
            } else {
                law_filled_row_meets_rules(trace.spec_row(r), 0, 0, 0, 0);
            }
        }
        lemma_rules_met(&air, &trace, RULES as nat, |k: nat| rej_degree(k), rule);
    }
    let coefficients = rej_sample(stream);
    RejBatch { air, trace, coefficients }
}

/// Sampling stops once the ring is full or no whole candidate is left: the
/// accepted coefficients are left as they stand.
pub proof fn law_rej_stops(stream: Seq<u8>, pos: nat, out: Seq<u64>)
    requires
        out.len() >= 256 || pos + 3 > stream.len(),
    ensures
        rej_from(stream, pos, out) == out,
{
}

/// A candidate, the three bytes at the position read little endian with the
/// top bit of the last dropped, at least the modulus is skipped.
pub proof fn law_rej_skips(stream: Seq<u8>, pos: nat, out: Seq<u64>)
    requires
        out.len() < 256,
        pos + 3 <= stream.len(),
        stream[pos as int] as nat + 256 * (stream[pos + 1int] as nat) + 65536 * (stream[pos + 2int] as nat % 128) >= Q,
    ensures
        rej_from(stream, pos, out) == rej_from(stream, pos + 3, out),
{
}

/// A candidate below the modulus is appended after the coefficients
/// accepted so far: sampling goes on from the next triple with the same
/// coefficients followed by the candidate.
pub proof fn law_rej_appends(stream: Seq<u8>, pos: nat, out: Seq<u64>, next: Seq<u64>)
    requires
        out.len() < 256,
        pos + 3 <= stream.len(),
        stream[pos as int] as nat + 256 * (stream[pos + 1int] as nat) + 65536 * (stream[pos + 2int] as nat % 128) < Q,
        next.len() == out.len() + 1,
        forall|k: int| 0 <= k < out.len() ==> #[trigger] next[k] == out[k],
        next[out.len() as int] == stream[pos as int] as nat + 256 * (stream[pos + 1int] as nat)
            + 65536 * (stream[pos + 2int] as nat % 128),
    ensures
        rej_from(stream, pos, out) == rej_from(stream, pos + 3, next),
{
    let z = cand_val(stream[pos as int], stream[pos as int + 1], stream[pos as int + 2]);
    assert(out.push(z as u64) =~= next);
}

/// Sampling only appends: the coefficients accepted before a position are
/// the first coefficients of the result, in the same order, and the result
/// never exceeds the ring degree unless the start did.
pub proof fn law_rej_keeps_prefix(stream: Seq<u8>, pos: nat, out: Seq<u64>)
    ensures
        rej_from(stream, pos, out).len() >= out.len(),
        out.len() <= 256 ==> rej_from(stream, pos, out).len() <= 256,
        forall|k: int| 0 <= k < out.len() ==> #[trigger] rej_from(stream, pos, out)[k] == out[k],
    decreases stream.len() - pos,
{
    if out.len() >= 256 || pos + 3 > stream.len() {
    } else {
        let z = cand_val(stream[pos as int], stream[pos as int + 1], stream[pos as int + 2]);
        if z < Q {
            law_rej_keeps_prefix(stream, pos + 3, out.push(z as u64));
        } else {
            law_rej_keeps_prefix(stream, pos + 3, out);
        }
    }
}

} // verus!
