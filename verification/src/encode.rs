//! The packing of high parts into bytes, two four bit nibbles per byte, and
//! the constraint piece that proves a byte column holds the packed nibbles.
use vstd::prelude::*;
use vstd::arithmetic::power2::pow2;
use crate::air::{
    Air, Expr, TraceTable, bit_of, bool_val, cell_val, fill_bits, lemma_append_rule, lemma_bit_rule,
    lemma_recompose_bits, lemma_rules_met, recompose_val, single_rows_appended,
};
use crate::field::{Felt, fmul, fsub, p};
use crate::util::{is_pow2, next_pow2, padded_len, padded_length};

verus! {

broadcast use TraceTable::lemma_width_fits, TraceTable::lemma_length_fits;

/// The bit width of a nibble.
pub const NIBBLE_BITS: usize = 4;

pub const COL_LO: usize = 0;
pub const COL_HI: usize = 1;
pub const COL_BYTE: usize = 2;
pub const COL_LO_BITS: usize = 3;
pub const COL_HI_BITS: usize = COL_LO_BITS + NIBBLE_BITS;

/// The column width of the piece.
pub const WIDTH: usize = COL_HI_BITS + NIBBLE_BITS;

/// The low nibble column.
pub const LO_COL: usize = COL_LO;

/// The high nibble column.
pub const HI_COL: usize = COL_HI;

/// The packed byte column.
pub const BYTE_COL: usize = COL_BYTE;

/// The number of rules the piece adds.
pub const RULES: usize = 3 + 2 * NIBBLE_BITS;

/// The byte that packs a pair of high parts, the first in the low nibble.
pub open spec fn packed_byte(lo: u8, hi: u8) -> u8 {
    (lo & 15) | ((hi & 15) << 4u8)
}

/// Packs pairs of high parts into bytes, the first of each pair in the low
/// nibble. The count must be even.
pub fn w1_encode(highs: &[u8]) -> (bytes: Vec<u8>)
    requires
        highs@.len() % 2 == 0,
    ensures
        bytes@.len() == highs@.len() / 2,
        forall|i: int| 0 <= i < bytes@.len() ==> #[trigger] bytes@[i] == packed_byte(highs@[2 * i], highs@[2 * i + 1]),
{
    let mut bytes: Vec<u8> = Vec::new();
    let total = highs.len();
    let half = total / 2;
    let mut i: usize = 0;
    while i < half
        invariant
            total == highs@.len(),
            half == highs@.len() / 2,
            i <= half,
            bytes@.len() == i,
            forall|j: int| 0 <= j < i ==> #[trigger] bytes@[j] == packed_byte(highs@[2 * j], highs@[2 * j + 1]),
        decreases half - i,
    {
        assert(2 * i + 1 < highs@.len());
        let lo = highs[2 * i];
        let hi = highs[2 * i + 1];
        bytes.push((lo & 15) | ((hi & 15) << 4u8));
        i = i + 1;
    }
    bytes
}

/// The two index bytes of a matrix entry seed: the column, then the row,
/// each cut to a byte.
pub fn seed_index_bytes(row: usize, col: usize) -> (r: [u8; 2])
    ensures
        r@ == seq![col as u8, row as u8],
{
    let r = [col as u8, row as u8];
    assert(r@ =~= seq![col as u8, row as u8]);
    r
}

/// The degree of rule k of the piece.
pub open spec fn encode_degree(k: nat) -> nat {
    if k < 3 { 1 } else { 2 }
}

/// The value of rule k of the piece on a row.
pub open spec fn encode_rule(base: nat, k: nat, row: Seq<Felt>) -> nat {
    let lo = cell_val(row, (base + COL_LO) as int);
    let hi = cell_val(row, (base + COL_HI) as int);
    let byte = cell_val(row, (base + COL_BYTE) as int);
    if k == 0 {
        fsub(recompose_val(row, (base + COL_LO_BITS) as nat, NIBBLE_BITS as nat), lo)
    } else if k == 1 {
        fsub(recompose_val(row, (base + COL_HI_BITS) as nat, NIBBLE_BITS as nat), hi)
    } else if k == 2 {
        fsub(fsub(byte, lo), fmul(hi, 16))
    } else {
        bool_val(row, (base + k) as nat)
    }
}

/// Adds the nibble packing rules for a piece at the given column base.
pub fn add_constraints(air: &mut Air, base: usize)
    requires
        old(air).wf(),
        base + WIDTH <= old(air).spec_base_width(),
    ensures
        final(air).wf(),
        single_rows_appended(
            old(air).spec_transitions(),
            final(air).spec_transitions(),
            RULES as nat,
            |k: nat| encode_degree(k),
            |k: nat, row: Seq<Felt>| encode_rule(base as nat, k, row),
        ),
        final(air).spec_boundaries() == old(air).spec_boundaries(),
        final(air).spec_permutations() == old(air).spec_permutations(),
        final(air).spec_base_width() == old(air).spec_base_width(),
        final(air).spec_aux_width() == old(air).spec_aux_width(),
        final(air).spec_length() == old(air).spec_length(),
        final(air).spec_num_challenges() == old(air).spec_num_challenges(),
{
    let ghost start = air.spec_transitions();
    let ghost degree = |k: nat| encode_degree(k);
    let ghost rule = |k: nat, row: Seq<Felt>| encode_rule(base as nat, k, row);
    let sixteen = Felt::new(16);
    proof {
        vstd::arithmetic::div_mod::lemma_small_mod(16, p());
        reveal_with_fuel(Expr::value, 5);
        reveal_with_fuel(Expr::reads_below, 5);
        assert(single_rows_appended(start, air.spec_transitions(), 0, degree, rule));
    }
    let lo = base + COL_LO;
    let hi = base + COL_HI;
    let byte = base + COL_BYTE;

    let rc = Expr::recompose(base + COL_LO_BITS, NIBBLE_BITS);
    proof { assert(rc.reads_below(air.spec_base_width())); }
    let e = rc.sub(Expr::cur(lo));
    proof {
        assert forall|cur: Seq<Felt>, next: Seq<Felt>| #[trigger] e.value(cur, next) == rule(0, cur) by {
            assert(rc.value(cur, next) == recompose_val(cur, (base + COL_LO_BITS) as nat, NIBBLE_BITS as nat));
        }
    }
    let ghost mid = air.spec_transitions();
    air.add_single_row(1, e);
    proof { lemma_append_rule(start, mid, air.spec_transitions(), 0, degree, rule, air.spec_transitions().last()); }

    let rc = Expr::recompose(base + COL_HI_BITS, NIBBLE_BITS);
    proof { assert(rc.reads_below(air.spec_base_width())); }
    let e = rc.sub(Expr::cur(hi));
    proof {
        assert forall|cur: Seq<Felt>, next: Seq<Felt>| #[trigger] e.value(cur, next) == rule(1, cur) by {
            assert(rc.value(cur, next) == recompose_val(cur, (base + COL_HI_BITS) as nat, NIBBLE_BITS as nat));
        }
    }
    let ghost mid = air.spec_transitions();
    air.add_single_row(1, e);
    proof { lemma_append_rule(start, mid, air.spec_transitions(), 1, degree, rule, air.spec_transitions().last()); }

    let e = Expr::cur(byte).sub(Expr::cur(lo)).sub(Expr::cur(hi).mul(Expr::constant(sixteen)));
    let ghost mid = air.spec_transitions();
    air.add_single_row(1, e);
    proof { lemma_append_rule(start, mid, air.spec_transitions(), 2, degree, rule, air.spec_transitions().last()); }

    let mut k: usize = 3;
    while k < RULES
        invariant
            3 <= k <= RULES,
            air.wf(),
            base + WIDTH <= air.spec_base_width(),
            single_rows_appended(start, air.spec_transitions(), k as nat, degree, rule),
            degree == (|k: nat| encode_degree(k)),
            rule == (|k: nat, row: Seq<Felt>| encode_rule(base as nat, k, row)),
            air.spec_boundaries() == old(air).spec_boundaries(),
            air.spec_permutations() == old(air).spec_permutations(),
            air.spec_base_width() == old(air).spec_base_width(),
            air.spec_aux_width() == old(air).spec_aux_width(),
            air.spec_length() == old(air).spec_length(),
            air.spec_num_challenges() == old(air).spec_num_challenges(),
        decreases RULES - k,
    {
        let e = Expr::boolean(base + k);
        proof {
            assert(e.reads_below(air.spec_base_width()));
            assert forall|cur: Seq<Felt>, next: Seq<Felt>| #[trigger] e.value(cur, next) == rule(k as nat, cur) by {
                assert(e.value(cur, next) == bool_val(cur, (base + k) as nat));
            }
        }
        let ghost mid = air.spec_transitions();
        air.add_single_row(2, e);
        proof { lemma_append_rule(start, mid, air.spec_transitions(), k as nat, degree, rule, air.spec_transitions().last()); }
        k = k + 1;
    }
}

/// What the description of a batch of packed bytes of the given length holds:
/// the piece's rules at column zero on every row, nothing else.
pub open spec fn describes_encode(air: Air, length: nat) -> bool {
    &&& air.wf()
    &&& air.spec_base_width() == WIDTH
    &&& air.spec_length() == length
    &&& air.spec_aux_width() == 0
    &&& air.spec_num_challenges() == 0
    &&& air.spec_boundaries().len() == 0
    &&& single_rows_appended(Seq::empty(), air.spec_transitions(), RULES as nat,
        |k: nat| encode_degree(k), |k: nat, row: Seq<Felt>| encode_rule(0, k, row))
}

/// The description of a batch of packed bytes of the given length.
pub fn encode_air(length: usize) -> (air: Air)
    requires
        is_pow2(length as nat),
    ensures
        describes_encode(air, length as nat),
        air.wf(),
        air.spec_base_width() == WIDTH,
        air.spec_length() == length,
        air.spec_aux_width() == 0,
        air.spec_num_challenges() == 0,
        air.spec_boundaries().len() == 0,
        single_rows_appended(
            Seq::empty(),
            air.spec_transitions(),
            RULES as nat,
            |k: nat| encode_degree(k),
            |k: nat, row: Seq<Felt>| encode_rule(0, k, row),
        ),
{
    let mut air = Air::new(WIDTH, length);
    add_constraints(&mut air, 0);
    air
}

/// The cells a filled row holds: both nibbles cut to four bits, the packed
/// byte, and the bits of each nibble.
pub open spec fn encode_row_filled(row: Seq<Felt>, base: nat, lo: u8, hi: u8) -> bool {
    let l = (lo & 15) as nat;
    let h = (hi & 15) as nat;
    &&& cell_val(row, (base + COL_LO) as int) == l
    &&& cell_val(row, (base + COL_HI) as int) == h
    &&& cell_val(row, (base + COL_BYTE) as int) == l + 16 * h
    &&& forall|k: nat| k < NIBBLE_BITS ==> #[trigger] cell_val(row, (base + COL_LO_BITS + k) as int) == bit_of(l, k)
    &&& forall|k: nat| k < NIBBLE_BITS ==> #[trigger] cell_val(row, (base + COL_HI_BITS + k) as int) == bit_of(h, k)
}

/// Fills one packing row at the given column base.
pub fn fill_row(trace: &mut TraceTable, base: usize, row: usize, lo: u8, hi: u8)
    requires
        base + WIDTH <= old(trace).spec_width(),
        row < old(trace).spec_length(),
    ensures
        final(trace).spec_width() == old(trace).spec_width(),
        final(trace).spec_length() == old(trace).spec_length(),
        encode_row_filled(final(trace).spec_row(row as int), base as nat, lo, hi),
        forall|c: int, r: int| (r != row || c < base || c >= base + WIDTH) && 0 <= c < old(trace).spec_width()
            && 0 <= r < old(trace).spec_length() ==> #[trigger] final(trace).cell(c, r) == old(trace).cell(c, r),
{
    let l = (lo & 15) as u64;
    let h = (hi & 15) as u64;
    proof {
        assert(lo & 15 <= 15) by (bit_vector);
        assert(hi & 15 <= 15) by (bit_vector);
        vstd::arithmetic::div_mod::lemma_small_mod(l as nat, p());
        vstd::arithmetic::div_mod::lemma_small_mod(h as nat, p());
        vstd::arithmetic::div_mod::lemma_small_mod((l + 16 * h) as nat, p());
    }
    trace.set(base + COL_LO, row, Felt::new(l));
    trace.set(base + COL_HI, row, Felt::new(h));
    trace.set(base + COL_BYTE, row, Felt::new(l + 16 * h));
    fill_bits(trace, base + COL_LO_BITS, row, l, NIBBLE_BITS);
    fill_bits(trace, base + COL_HI_BITS, row, h, NIBBLE_BITS);
    proof {
        let rv = trace.spec_row(row as int);
        assert forall|k: nat| k < NIBBLE_BITS implies #[trigger] cell_val(rv, (base + COL_LO_BITS + k) as int) == bit_of(l as nat, k) by {
            assert(trace.cell((base + COL_LO_BITS) as int + k as int, row as int).val() == bit_of(l as nat, k));
        }
        assert forall|k: nat| k < NIBBLE_BITS implies #[trigger] cell_val(rv, (base + COL_HI_BITS + k) as int) == bit_of(h as nat, k) by {
            assert(trace.cell((base + COL_HI_BITS) as int + k as int, row as int).val() == bit_of(h as nat, k));
        }
    }
}

/// A filled row meets every rule of the piece.
pub proof fn law_filled_row_meets_rules(row: Seq<Felt>, base: nat, lo: u8, hi: u8)
    requires
        encode_row_filled(row, base, lo, hi),
    ensures
        forall|k: nat| k < RULES ==> #[trigger] encode_rule(base, k, row) == 0,
{
    let l = (lo & 15) as nat;
    let h = (hi & 15) as nat;
    assert(lo & 15 <= 15) by (bit_vector);
    assert(hi & 15 <= 15) by (bit_vector);
    vstd::arithmetic::power2::lemma2_to64();
    vstd::arithmetic::div_mod::lemma_small_mod(0, p());
    vstd::arithmetic::div_mod::lemma_small_mod(l, p());
    vstd::arithmetic::div_mod::lemma_small_mod(h, p());
    vstd::arithmetic::div_mod::lemma_small_mod(16 * h, p());
    vstd::arithmetic::div_mod::lemma_small_mod(l + 16 * h, p());
    assert forall|k: nat| k < RULES implies #[trigger] encode_rule(base, k, row) == 0 by {
        if k == 0 {
            lemma_recompose_bits(row, (base + COL_LO_BITS) as nat, NIBBLE_BITS as nat, l);
            vstd::arithmetic::div_mod::lemma_small_mod(l, pow2(NIBBLE_BITS as nat));
        } else if k == 1 {
            lemma_recompose_bits(row, (base + COL_HI_BITS) as nat, NIBBLE_BITS as nat, h);
            vstd::arithmetic::div_mod::lemma_small_mod(h, pow2(NIBBLE_BITS as nat));
        } else if k == 2 {
            assert(fmul(h, 16) == 16 * h);
        } else {
            if k < COL_HI_BITS {
                let j = (k - COL_LO_BITS) as nat;
                assert(cell_val(row, (base + COL_LO_BITS + j) as int) == bit_of(l, j));
            } else {
                let j = (k - COL_HI_BITS) as nat;
                assert(cell_val(row, (base + COL_HI_BITS + j) as int) == bit_of(h, j));
            }
            lemma_bit_rule(row, (base + k) as nat);
        }
    }
}

/// A filled packing batch with its description and the packed bytes.
pub struct EncodeBatch {
    pub air: Air,
    pub trace: TraceTable,
    /// The packed bytes, one per real row.
    pub bytes: Vec<u8>,
}

/// The high parts padded with a zero to an even count.
pub open spec fn padded_highs(highs: Seq<u8>) -> Seq<u8> {
    if highs.len() % 2 == 1 { highs.push(0) } else { highs }
}

/// Lays out a trace that packs the high parts, padded with a zero to an even
/// count, one byte per row, padded with zero rows to a power of two of at
/// least two. The trace meets the description and the bytes are the packing.
pub fn encode_batch(highs: &[u8]) -> (batch: EncodeBatch)
    requires
        WIDTH * next_pow2((highs@.len() + 1) / 2) <= usize::MAX,
        highs@.len() < usize::MAX,
    ensures
        describes_encode(batch.air, padded_len(batch.bytes@.len())),
        batch.bytes@.len() == padded_highs(highs@).len() / 2,
        forall|i: int| 0 <= i < batch.bytes@.len() ==> #[trigger] batch.bytes@[i]
            == packed_byte(padded_highs(highs@)[2 * i], padded_highs(highs@)[2 * i + 1]),
        batch.trace.spec_width() == WIDTH,
        batch.trace.spec_length() == padded_len(batch.bytes@.len()),
        batch.air.wf(),
        batch.air.spec_base_width() == WIDTH,
        batch.air.spec_length() == padded_len(batch.bytes@.len()),
        forall|r: int| 0 <= r < batch.bytes@.len() ==> encode_row_filled(#[trigger] batch.trace.spec_row(r), 0,
            padded_highs(highs@)[2 * r], padded_highs(highs@)[2 * r + 1]),
        forall|r: int| batch.bytes@.len() <= r < batch.trace.spec_length() ==> encode_row_filled(
            #[trigger] batch.trace.spec_row(r), 0, 0, 0),
        batch.air.spec_satisfied(&batch.trace),
{
    let mut padded = crate::crypto::copy_slice(highs);
    if padded.len() % 2 == 1 {
        padded.push(0);
    }
    assert(padded@ =~= padded_highs(highs@));
    let count = padded.len() / 2;
    assert(count == (highs@.len() + 1) / 2);
    proof {
        crate::util::lemma_next_pow2(count as nat);
    }
    assert(next_pow2(count as nat) <= WIDTH * next_pow2(count as nat)) by (nonlinear_arith)
        requires next_pow2(count as nat) >= 1;
    let length = padded_length(count);
    assert(WIDTH * length <= usize::MAX) by (nonlinear_arith)
        requires WIDTH * next_pow2(count as nat) <= usize::MAX, next_pow2(count as nat) >= 1,
            length == next_pow2(count as nat) || length == 2;
    let mut trace = TraceTable::new(WIDTH, length);
    let mut row: usize = 0;
    while row < length
        invariant
            row <= length,
            count == padded@.len() / 2,
            padded@.len() == padded.len(),
            padded@ == padded_highs(highs@),
            length == padded_len(count as nat),
            trace.spec_width() == WIDTH,
            trace.spec_length() == length,
            forall|r: int| 0 <= r < row && r < count ==> encode_row_filled(
                #[trigger] trace.spec_row(r), 0, padded@[2 * r], padded@[2 * r + 1]),
            forall|r: int| count <= r < row ==> encode_row_filled(#[trigger] trace.spec_row(r), 0, 0, 0),
        decreases length - row,
    {
        let (lo, hi) = if row < count {
            assert(2 * row + 1 < padded@.len());
            (padded[2 * row], padded[2 * row + 1])
        } else {
            (0u8, 0u8)
        };
        let ghost before = trace;
        fill_row(&mut trace, 0, row, lo, hi);
        proof {
            assert forall|r: int| 0 <= r < row implies #[trigger] trace.spec_row(r) == before.spec_row(r) by {
                assert(trace.spec_row(r) =~= before.spec_row(r));
            }
        }
        row = row + 1;
    }
    let air = encode_air(length);
    proof {
        let rule = |k: nat, row: Seq<Felt>| encode_rule(0, k, row);
        assert forall|r: int, k: nat| 0 <= r < air.spec_length() && k < RULES
            implies #[trigger] rule(k, trace.spec_row(r)) == 0 by {
            if r < count {
                law_filled_row_meets_rules(trace.spec_row(r), 0, padded@[2 * r], padded@[2 * r + 1]);
            } else {
                law_filled_row_meets_rules(trace.spec_row(r), 0, 0, 0);
            }
        }
        lemma_rules_met(&air, &trace, RULES as nat, |k: nat| encode_degree(k), rule);
    }
    let bytes = w1_encode(padded.as_slice());
    EncodeBatch { air, trace, bytes }
}

/// A packed byte holds the first high part, cut to four bits, in its low
/// nibble and the second in its high nibble.
pub proof fn law_packed_byte(lo: u8, hi: u8)
    ensures
        packed_byte(lo, hi) as nat == (lo % 16) as nat + 16 * ((hi % 16) as nat),
        packed_byte(lo, hi) % 16 == lo % 16,
        packed_byte(lo, hi) / 16 == hi % 16,
{
    assert((lo & 15) | ((hi & 15) << 4u8) == lo % 16 + 16 * (hi % 16)) by (bit_vector);
}

} // verus!
