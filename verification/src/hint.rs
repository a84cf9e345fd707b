//! Hint recovery: the high part the verifier recovers from a coefficient and a
//! hint bit, as a constraint piece.
use vstd::prelude::*;
use crate::air::{
    Air, Expr, TraceTable, bit_of, bool_val, cell_val, fill_bits, lemma_append_rule, recompose_val,
    single_rows_appended, rows_agree,
};
use crate::decompose::{decompose, spec_decompose, ALPHA, GAMMA2, HIGH_COUNT};
use crate::field::{Felt, fadd, finv, fmul, fsub, p};
use crate::lattice::Q;
use crate::util::{is_pow2, next_pow2, padded_len, padded_length};

verus! {

broadcast use TraceTable::lemma_width_fits, TraceTable::lemma_length_fits;

/// The bit width of a high part.
pub const HIGH_BITS: usize = 4;
/// The bit width of a shifted low part.
pub const LOW_BITS: usize = 20;
/// The bit width of the shifted low part less its sign offset.
pub const POS_BITS: usize = 18;

/// The coefficient column, relative to the piece base.
pub const COL_R: usize = 0;
/// The hint bit column.
pub const COL_H: usize = 1;
/// The high part column.
pub const COL_R1: usize = 2;
/// The low part shifted up by gamma2.
pub const COL_R0S: usize = 3;
/// The wrap flag column.
pub const COL_KC: usize = 4;
/// The inverse of the shifted low part.
pub const COL_R0S_INV: usize = 5;
/// The flag that the centered low part is positive.
pub const COL_POS: usize = 6;
/// The shifted low part less the sign offset.
pub const COL_DPOS: usize = 7;
/// The used high part.
pub const COL_R1U: usize = 8;
/// The flag that the used high part wrapped down from the top.
pub const COL_HI: usize = 9;
/// The flag that the used high part wrapped up from below zero.
pub const COL_LO: usize = 10;
/// The first high part bit column.
pub const COL_R1_BITS: usize = 11;
/// The first shifted low part bit column.
pub const COL_R0S_BITS: usize = COL_R1_BITS + HIGH_BITS;
/// The first bit column of alpha less the shifted low part.
pub const COL_R0S_SLACK: usize = COL_R0S_BITS + LOW_BITS;
/// The first bit column of the offset low part.
pub const COL_DPOS_BITS: usize = COL_R0S_SLACK + LOW_BITS;
/// The first bit column of gamma2 less the offset low part.
pub const COL_DPOS_SLACK: usize = COL_DPOS_BITS + POS_BITS;
/// The first used high part bit column.
pub const COL_R1U_BITS: usize = COL_DPOS_SLACK + POS_BITS;
/// The column width of the piece.
pub const WIDTH: usize = COL_R1U_BITS + HIGH_BITS;

/// The number of rules the piece adds.
pub const RULES: usize = 16 + 2 * HIGH_BITS + 2 * LOW_BITS + 2 * POS_BITS;

/// The used high part: the high part, moved one step toward the sign of the
/// centered low part when the hint is set, modulo the high count.
pub open spec fn spec_use_hint(h: u64, r: nat) -> u64 {
    let parts = spec_decompose(r);
    if h == 0 {
        parts.0
    } else {
        let delta: int = if parts.1 > 0 { 1 } else { -1 };
        ((parts.0 as int + delta) % (HIGH_COUNT as int)) as u64
    }
}

/// The high bits the verifier recovers by applying the hint bit to the
/// coefficient.
pub fn use_hint(h: u64, r: u64) -> (r1: u64)
    requires
        r < Q,
    ensures
        r1 == spec_use_hint(h, r as nat),
{
    let (r1, r0c, _kc) = decompose(r);
    proof {
        lemma_decompose_bounds(r as nat);
        crate::decompose::lemma_constants();
    }
    if h == 0 {
        return r1;
    }
    let delta: i64 = if r0c > 0 { 1 } else { -1 };
    let raw = r1 as i64 + delta;
    if raw < 0 {
        HIGH_COUNT - 1
    } else {
        (raw as u64) % HIGH_COUNT
    }
}

/// The high part of a coefficient below the modulus is below the high count
/// and its centered low part lies within gamma2 of zero.
pub proof fn lemma_decompose_bounds(r: nat)
    requires
        r < Q,
    ensures
        spec_decompose(r).0 < HIGH_COUNT,
        -(GAMMA2 as int) <= spec_decompose(r).1 <= GAMMA2 as int,
        spec_decompose(r).2 <= 1,
{
    crate::decompose::lemma_constants();
    let a = ALPHA as int;
    let raw = r % (ALPHA as nat);
    vstd::arithmetic::div_mod::lemma_mod_bound(r as int, a);
    vstd::arithmetic::div_mod::lemma_fundamental_div_mod(r as int, a);
    let q = r as int / a;
    assert(r as int == a * q + raw);
    let r0c = crate::decompose::centered_low(r);
    if raw <= GAMMA2 {
        assert(r as int - r0c == a * q);
        vstd::arithmetic::div_mod::lemma_div_multiples_vanish(q, a);
        assert(q <= 16);
    } else {
        assert(r as int - r0c == a * q + a);
        vstd::arithmetic::mul::lemma_mul_is_distributive_add(a, q, 1);
        assert(r as int - r0c == a * (q + 1));
        vstd::arithmetic::div_mod::lemma_div_multiples_vanish(q + 1, a);
        assert(q < 16);
    }
}

/// The degree of rule k of the piece.
pub open spec fn hint_degree(k: nat) -> nat {
    if k == 0 { 1 } else if k < 3 { 2 } else if k == 3 { 3 } else if k < 7 { 1 } else if k == 7 { 2 }
    else if k < 11 { 1 } else if k < 15 { 2 } else if k == 15 { 1 } else { 2 }
}

/// The value of rule k of the piece on a row.
pub open spec fn hint_rule(base: nat, k: nat, row: Seq<Felt>) -> nat {
    let r = cell_val(row, (base + COL_R) as int);
    let h = cell_val(row, (base + COL_H) as int);
    let r1 = cell_val(row, (base + COL_R1) as int);
    let r0s = cell_val(row, (base + COL_R0S) as int);
    let kc = cell_val(row, (base + COL_KC) as int);
    let inv = cell_val(row, (base + COL_R0S_INV) as int);
    let pos = cell_val(row, (base + COL_POS) as int);
    let dpos = cell_val(row, (base + COL_DPOS) as int);
    let r1u = cell_val(row, (base + COL_R1U) as int);
    let hi = cell_val(row, (base + COL_HI) as int);
    let lo = cell_val(row, (base + COL_LO) as int);
    if k == 0 {
        fsub(fsub(fsub(r, fmul(r1, ALPHA as nat)), fsub(r0s, GAMMA2 as nat)), fmul(kc, Q as nat))
    } else if k == 1 {
        bool_val(row, (base + COL_KC) as nat)
    } else if k == 2 {
        fmul(kc, r1)
    } else if k == 3 {
        fmul(fsub(1, kc), fsub(fmul(r0s, inv), 1))
    } else if k == 4 {
        fsub(recompose_val(row, (base + COL_R1_BITS) as nat, HIGH_BITS as nat), r1)
    } else if k == 5 {
        fsub(recompose_val(row, (base + COL_R0S_BITS) as nat, LOW_BITS as nat), r0s)
    } else if k == 6 {
        fsub(recompose_val(row, (base + COL_R0S_SLACK) as nat, LOW_BITS as nat), fsub(ALPHA as nat, r0s))
    } else if k == 7 {
        bool_val(row, (base + COL_POS) as nat)
    } else if k == 8 {
        fadd(fsub(dpos, r0s), fmul(pos, (GAMMA2 + 1) as nat))
    } else if k == 9 {
        fsub(recompose_val(row, (base + COL_DPOS_BITS) as nat, POS_BITS as nat), dpos)
    } else if k == 10 {
        fsub(recompose_val(row, (base + COL_DPOS_SLACK) as nat, POS_BITS as nat), fsub(GAMMA2 as nat, dpos))
    } else if k == 11 {
        bool_val(row, (base + COL_H) as nat)
    } else if k == 12 {
        bool_val(row, (base + COL_HI) as nat)
    } else if k == 13 {
        bool_val(row, (base + COL_LO) as nat)
    } else if k == 14 {
        fsub(
            fadd(fsub(fsub(r1u, r1), fmul(h, fsub(fadd(pos, pos), 1))), fmul(HIGH_COUNT as nat, hi)),
            fmul(HIGH_COUNT as nat, lo),
        )
    } else if k == 15 {
        fsub(recompose_val(row, (base + COL_R1U_BITS) as nat, HIGH_BITS as nat), r1u)
    } else if k < 24 {
        let j = ((k - 16) / 2) as nat;
        if (k - 16) % 2 == 0 {
            bool_val(row, (base + COL_R1_BITS + j) as nat)
        } else {
            bool_val(row, (base + COL_R1U_BITS + j) as nat)
        }
    } else {
        bool_val(row, (base + k - 9) as nat)
    }
}

/// Adds the hint recovery rules for a piece at the given column base.
pub fn add_constraints(air: &mut Air, base: usize)
    requires
        old(air).wf(),
        base + WIDTH <= old(air).spec_base_width(),
    ensures
        final(air).wf(),
        single_rows_appended(
            old(air).spec_transitions(),
            final(air).spec_transitions(),
            RULES as nat,
            |k: nat| hint_degree(k),
            |k: nat, row: Seq<Felt>| hint_rule(base as nat, k, row),
        ),
        final(air).spec_boundaries() == old(air).spec_boundaries(),
        final(air).spec_permutations() == old(air).spec_permutations(),
        final(air).spec_base_width() == old(air).spec_base_width(),
        final(air).spec_aux_width() == old(air).spec_aux_width(),
        final(air).spec_length() == old(air).spec_length(),
        final(air).spec_num_challenges() == old(air).spec_num_challenges(),
{
    let ghost start = air.spec_transitions();
    let ghost degree = |k: nat| hint_degree(k);
    let ghost rule = |k: nat, row: Seq<Felt>| hint_rule(base as nat, k, row);
    let alpha = Felt::new(ALPHA);
    let modulus = Felt::new(Q);
    let gamma2 = Felt::new(GAMMA2);
    let gamma2_plus_one = Felt::new(GAMMA2 + 1);
    let high = Felt::new(HIGH_COUNT);
    let one = Felt::one();
    proof {
        vstd::arithmetic::div_mod::lemma_small_mod(Q as nat, p());
        vstd::arithmetic::div_mod::lemma_small_mod(ALPHA as nat, p());
        vstd::arithmetic::div_mod::lemma_small_mod(GAMMA2 as nat, p());
        vstd::arithmetic::div_mod::lemma_small_mod((GAMMA2 + 1) as nat, p());
        vstd::arithmetic::div_mod::lemma_small_mod(HIGH_COUNT as nat, p());
        reveal_with_fuel(Expr::value, 7);
        reveal_with_fuel(Expr::reads_below, 7);
        assert(single_rows_appended(start, air.spec_transitions(), 0, degree, rule));
    }
    let r = base + COL_R;
    let h = base + COL_H;
    let r1 = base + COL_R1;
    let r0s = base + COL_R0S;
    let kc = base + COL_KC;
    let r0s_inv = base + COL_R0S_INV;
    let pos = base + COL_POS;
    let dpos = base + COL_DPOS;
    let r1u = base + COL_R1U;
    let hi = base + COL_HI;
    let lo = base + COL_LO;

    let e = Expr::cur(r).sub(Expr::cur(r1).mul(Expr::constant(alpha)))
        .sub(Expr::cur(r0s).sub(Expr::constant(gamma2)))
        .sub(Expr::cur(kc).mul(Expr::constant(modulus)));
    let ghost mid = air.spec_transitions();
    air.add_single_row(1, e);
    proof { lemma_append_rule(start, mid, air.spec_transitions(), 0, degree, rule, air.spec_transitions().last()); }

    let e = Expr::boolean(kc);
    proof {
        assert(e.reads_below(air.spec_base_width()));
        assert forall|cur: Seq<Felt>, next: Seq<Felt>| #[trigger] e.value(cur, next) == rule(1, cur) by {
            assert(e.value(cur, next) == bool_val(cur, kc as nat));
        }
    }
    let ghost mid = air.spec_transitions();
    air.add_single_row(2, e);
    proof { lemma_append_rule(start, mid, air.spec_transitions(), 1, degree, rule, air.spec_transitions().last()); }

    let e = Expr::cur(kc).mul(Expr::cur(r1));
    let ghost mid = air.spec_transitions();
    air.add_single_row(2, e);
    proof { lemma_append_rule(start, mid, air.spec_transitions(), 2, degree, rule, air.spec_transitions().last()); }

    let e = Expr::constant(one).sub(Expr::cur(kc)).mul(Expr::cur(r0s).mul(Expr::cur(r0s_inv)).sub(Expr::constant(one)));
    let ghost mid = air.spec_transitions();
    air.add_single_row(3, e);
    proof { lemma_append_rule(start, mid, air.spec_transitions(), 3, degree, rule, air.spec_transitions().last()); }

    let rc = Expr::recompose(base + COL_R1_BITS, HIGH_BITS);
    proof { assert(rc.reads_below(air.spec_base_width())); }
    let e = rc.sub(Expr::cur(r1));
    proof {
        assert forall|cur: Seq<Felt>, next: Seq<Felt>| #[trigger] e.value(cur, next) == rule(4, cur) by {
            assert(rc.value(cur, next) == recompose_val(cur, (base + COL_R1_BITS) as nat, HIGH_BITS as nat));
        }
    }
    let ghost mid = air.spec_transitions();
    air.add_single_row(1, e);
    proof { lemma_append_rule(start, mid, air.spec_transitions(), 4, degree, rule, air.spec_transitions().last()); }

    let rc = Expr::recompose(base + COL_R0S_BITS, LOW_BITS);
    proof { assert(rc.reads_below(air.spec_base_width())); }
    let e = rc.sub(Expr::cur(r0s));
    proof {
        assert forall|cur: Seq<Felt>, next: Seq<Felt>| #[trigger] e.value(cur, next) == rule(5, cur) by {
            assert(rc.value(cur, next) == recompose_val(cur, (base + COL_R0S_BITS) as nat, LOW_BITS as nat));
        }
    }
    let ghost mid = air.spec_transitions();
    air.add_single_row(1, e);
    proof { lemma_append_rule(start, mid, air.spec_transitions(), 5, degree, rule, air.spec_transitions().last()); }

    let rc = Expr::recompose(base + COL_R0S_SLACK, LOW_BITS);
    proof { assert(rc.reads_below(air.spec_base_width())); }
    let e = rc.sub(Expr::constant(alpha).sub(Expr::cur(r0s)));
    proof {
        assert forall|cur: Seq<Felt>, next: Seq<Felt>| #[trigger] e.value(cur, next) == rule(6, cur) by {
            assert(rc.value(cur, next) == recompose_val(cur, (base + COL_R0S_SLACK) as nat, LOW_BITS as nat));
        }
    }
    let ghost mid = air.spec_transitions();
    air.add_single_row(1, e);
    proof { lemma_append_rule(start, mid, air.spec_transitions(), 6, degree, rule, air.spec_transitions().last()); }

    let e = Expr::boolean(pos);
    proof {
        assert(e.reads_below(air.spec_base_width()));
        assert forall|cur: Seq<Felt>, next: Seq<Felt>| #[trigger] e.value(cur, next) == rule(7, cur) by {
            assert(e.value(cur, next) == bool_val(cur, pos as nat));
        }
    }
    let ghost mid = air.spec_transitions();
    air.add_single_row(2, e);
    proof { lemma_append_rule(start, mid, air.spec_transitions(), 7, degree, rule, air.spec_transitions().last()); }

    let e = Expr::cur(dpos).sub(Expr::cur(r0s)).add(Expr::cur(pos).mul(Expr::constant(gamma2_plus_one)));
    let ghost mid = air.spec_transitions();
    air.add_single_row(1, e);
    proof { lemma_append_rule(start, mid, air.spec_transitions(), 8, degree, rule, air.spec_transitions().last()); }

    let rc = Expr::recompose(base + COL_DPOS_BITS, POS_BITS);
    proof { assert(rc.reads_below(air.spec_base_width())); }
    let e = rc.sub(Expr::cur(dpos));
    proof {
        assert forall|cur: Seq<Felt>, next: Seq<Felt>| #[trigger] e.value(cur, next) == rule(9, cur) by {
            assert(rc.value(cur, next) == recompose_val(cur, (base + COL_DPOS_BITS) as nat, POS_BITS as nat));
        }
    }
    let ghost mid = air.spec_transitions();
    air.add_single_row(1, e);
    proof { lemma_append_rule(start, mid, air.spec_transitions(), 9, degree, rule, air.spec_transitions().last()); }

    let rc = Expr::recompose(base + COL_DPOS_SLACK, POS_BITS);
    proof { assert(rc.reads_below(air.spec_base_width())); }
    let e = rc.sub(Expr::constant(gamma2).sub(Expr::cur(dpos)));
    proof {
        assert forall|cur: Seq<Felt>, next: Seq<Felt>| #[trigger] e.value(cur, next) == rule(10, cur) by {
            assert(rc.value(cur, next) == recompose_val(cur, (base + COL_DPOS_SLACK) as nat, POS_BITS as nat));
        }
    }
    let ghost mid = air.spec_transitions();
    air.add_single_row(1, e);
    proof { lemma_append_rule(start, mid, air.spec_transitions(), 10, degree, rule, air.spec_transitions().last()); }

    let e = Expr::boolean(h);
    proof {
        assert(e.reads_below(air.spec_base_width()));
        assert forall|cur: Seq<Felt>, next: Seq<Felt>| #[trigger] e.value(cur, next) == rule(11, cur) by {
            assert(e.value(cur, next) == bool_val(cur, h as nat));
        }
    }
    let ghost mid = air.spec_transitions();
    air.add_single_row(2, e);
    proof { lemma_append_rule(start, mid, air.spec_transitions(), 11, degree, rule, air.spec_transitions().last()); }

    let e = Expr::boolean(hi);
    proof {
        assert(e.reads_below(air.spec_base_width()));
        assert forall|cur: Seq<Felt>, next: Seq<Felt>| #[trigger] e.value(cur, next) == rule(12, cur) by {
            assert(e.value(cur, next) == bool_val(cur, hi as nat));
        }
    }
    let ghost mid = air.spec_transitions();
    air.add_single_row(2, e);
    proof { lemma_append_rule(start, mid, air.spec_transitions(), 12, degree, rule, air.spec_transitions().last()); }

    let e = Expr::boolean(lo);
    proof {
        assert(e.reads_below(air.spec_base_width()));
        assert forall|cur: Seq<Felt>, next: Seq<Felt>| #[trigger] e.value(cur, next) == rule(13, cur) by {
            assert(e.value(cur, next) == bool_val(cur, lo as nat));
        }
    }
    let ghost mid = air.spec_transitions();
    air.add_single_row(2, e);
    proof { lemma_append_rule(start, mid, air.spec_transitions(), 13, degree, rule, air.spec_transitions().last()); }

    let direction = Expr::cur(pos).add(Expr::cur(pos)).sub(Expr::constant(one));
    let e = Expr::cur(r1u).sub(Expr::cur(r1)).sub(Expr::cur(h).mul(direction))
        .add(Expr::constant(high).mul(Expr::cur(hi)))
        .sub(Expr::constant(high).mul(Expr::cur(lo)));
    let ghost mid = air.spec_transitions();
    air.add_single_row(2, e);
    proof { lemma_append_rule(start, mid, air.spec_transitions(), 14, degree, rule, air.spec_transitions().last()); }

    let rc = Expr::recompose(base + COL_R1U_BITS, HIGH_BITS);
    proof { assert(rc.reads_below(air.spec_base_width())); }
    let e = rc.sub(Expr::cur(r1u));
    proof {
        assert forall|cur: Seq<Felt>, next: Seq<Felt>| #[trigger] e.value(cur, next) == rule(15, cur) by {
            assert(rc.value(cur, next) == recompose_val(cur, (base + COL_R1U_BITS) as nat, HIGH_BITS as nat));
        }
    }
    let ghost mid = air.spec_transitions();
    air.add_single_row(1, e);
    proof { lemma_append_rule(start, mid, air.spec_transitions(), 15, degree, rule, air.spec_transitions().last()); }

    let mut k: usize = 16;
    while k < RULES
        invariant
            16 <= k <= RULES,
            air.wf(),
            base + WIDTH <= air.spec_base_width(),
            single_rows_appended(start, air.spec_transitions(), k as nat, degree, rule),
            degree == (|k: nat| hint_degree(k)),
            rule == (|k: nat, row: Seq<Felt>| hint_rule(base as nat, k, row)),
            air.spec_boundaries() == old(air).spec_boundaries(),
            air.spec_permutations() == old(air).spec_permutations(),
            air.spec_base_width() == old(air).spec_base_width(),
            air.spec_aux_width() == old(air).spec_aux_width(),
            air.spec_length() == old(air).spec_length(),
            air.spec_num_challenges() == old(air).spec_num_challenges(),
        decreases RULES - k,
    {
        let col = if k < 24 {
            if (k - 16) % 2 == 0 { base + COL_R1_BITS + (k - 16) / 2 } else { base + COL_R1U_BITS + (k - 16) / 2 }
        } else {
            base + (k - 9)
        };
        let e = Expr::boolean(col);
        proof {
            assert(e.reads_below(air.spec_base_width()));
            assert forall|cur: Seq<Felt>, next: Seq<Felt>| #[trigger] e.value(cur, next) == rule(k as nat, cur) by {
                assert(e.value(cur, next) == bool_val(cur, col as nat));
            }
        }
        let ghost mid = air.spec_transitions();
        air.add_single_row(2, e);
        proof { lemma_append_rule(start, mid, air.spec_transitions(), k as nat, degree, rule, air.spec_transitions().last()); }
        k = k + 1;
    }
}

/// Builds the hint recovery description of the given length.
pub fn hint_air(length: usize) -> (air: Air)
    requires
        is_pow2(length as nat),
    ensures
        air.wf(),
        air.spec_base_width() == WIDTH,
        air.spec_length() == length,
        air.spec_aux_width() == 0,
        air.spec_num_challenges() == 0,
        air.spec_boundaries().len() == 0,
        single_rows_appended(
            Seq::empty(),
            air.spec_transitions(),
            RULES as nat,
            |k: nat| hint_degree(k),
            |k: nat, row: Seq<Felt>| hint_rule(0, k, row),
        ),
{
    let mut air = Air::new(WIDTH, length);
    add_constraints(&mut air, 0);
    air
}

/// The witness values of a hint row: the high part, the shifted low part,
/// the wrap flag, the sign flag, the offset low part, the two wrap flags of the
/// used high part and the used high part.
pub open spec fn hint_witness(r: nat, h: u64) -> (u64, u64, u64, u64, u64, u64, u64, u64) {
    let parts = spec_decompose(r);
    let r1 = parts.0;
    let r0c = parts.1;
    let kc = parts.2;
    let r0s = (r0c + GAMMA2 as int) as u64;
    let pos: u64 = if r0c > 0 { 1 } else { 0 };
    let dpos = (r0s - pos * (GAMMA2 + 1)) as u64;
    let delta: int = if h == 1 { if pos == 1 { 1 } else { -1 } } else { 0 };
    let raw = r1 as int + delta;
    let hi: u64 = if raw == HIGH_COUNT as int { 1 } else { 0 };
    let lo: u64 = if raw == -1 { 1 } else { 0 };
    let r1u = (raw - (HIGH_COUNT as int) * (hi as int) + (HIGH_COUNT as int) * (lo as int)) as u64;
    (r1, r0s, kc, pos, dpos, hi, lo, r1u)
}

/// The cells a filled hint row holds.
pub open spec fn hint_row_filled(row: Seq<Felt>, base: nat, r: nat, h: u64) -> bool {
    let w = hint_witness(r, h);
    &&& cell_val(row, (base + COL_R) as int) == r % p()
    &&& cell_val(row, (base + COL_H) as int) == h as nat % p()
    &&& cell_val(row, (base + COL_R1) as int) == w.0 as nat % p()
    &&& cell_val(row, (base + COL_R0S) as int) == w.1 as nat % p()
    &&& cell_val(row, (base + COL_KC) as int) == w.2 as nat % p()
    &&& cell_val(row, (base + COL_R0S_INV) as int) == (if w.2 == 0 { finv(w.1 as nat % p()) } else { 0 })
    &&& cell_val(row, (base + COL_POS) as int) == w.3 as nat % p()
    &&& cell_val(row, (base + COL_DPOS) as int) == w.4 as nat % p()
    &&& cell_val(row, (base + COL_R1U) as int) == w.7 as nat % p()
    &&& cell_val(row, (base + COL_HI) as int) == w.5 as nat % p()
    &&& cell_val(row, (base + COL_LO) as int) == w.6 as nat % p()
    &&& forall|k: nat| k < HIGH_BITS ==> #[trigger] cell_val(row, (base + COL_R1_BITS + k) as int) == bit_of(w.0 as nat, k)
    &&& forall|k: nat| k < LOW_BITS ==> #[trigger] cell_val(row, (base + COL_R0S_BITS + k) as int) == bit_of(w.1 as nat, k)
    &&& forall|k: nat| k < LOW_BITS ==> #[trigger] cell_val(row, (base + COL_R0S_SLACK + k) as int)
        == bit_of((ALPHA as int - w.1 as int) as u64 as nat, k)
    &&& forall|k: nat| k < POS_BITS ==> #[trigger] cell_val(row, (base + COL_DPOS_BITS + k) as int) == bit_of(w.4 as nat, k)
    &&& forall|k: nat| k < POS_BITS ==> #[trigger] cell_val(row, (base + COL_DPOS_SLACK + k) as int)
        == bit_of((GAMMA2 as int - w.4 as int) as u64 as nat, k)
    &&& forall|k: nat| k < HIGH_BITS ==> #[trigger] cell_val(row, (base + COL_R1U_BITS + k) as int) == bit_of(w.7 as nat, k)
}

/// Fills one hint recovery row at the given column base.
#[verifier::rlimit(60)]
pub fn fill_row(trace: &mut TraceTable, base: usize, row: usize, r: u64, h: u64)
    requires
        base + WIDTH <= old(trace).spec_width(),
        row < old(trace).spec_length(),
        r < Q,
    ensures
        final(trace).spec_width() == old(trace).spec_width(),
        final(trace).spec_length() == old(trace).spec_length(),
        hint_row_filled(final(trace).spec_row(row as int), base as nat, r as nat, h),
        forall|c: int, rr: int| (rr != row || c < base || c >= base + WIDTH) && 0 <= c < old(trace).spec_width()
            && 0 <= rr < old(trace).spec_length() ==> #[trigger] final(trace).cell(c, rr) == old(trace).cell(c, rr),
{
    let (r1, r0c, kc) = decompose(r);
    proof {
        lemma_decompose_bounds(r as nat);
        crate::decompose::lemma_constants();
    }
    let r0s = (r0c + GAMMA2 as i64) as u64;
    let pos: u64 = if r0c > 0 { 1 } else { 0 };
    let dpos = r0s - pos * (GAMMA2 + 1);
    let delta: i64 = if h == 1 { if pos == 1 { 1 } else { -1 } } else { 0 };
    let raw = r1 as i64 + delta;
    let hi: u64 = if raw == HIGH_COUNT as i64 { 1 } else { 0 };
    let lo: u64 = if raw == -1 { 1 } else { 0 };
    let r1u = (raw - HIGH_COUNT as i64 * hi as i64 + HIGH_COUNT as i64 * lo as i64) as u64;

    trace.set(base + COL_R, row, Felt::new(r));
    trace.set(base + COL_H, row, Felt::new(h));
    trace.set(base + COL_R1, row, Felt::new(r1));
    trace.set(base + COL_R0S, row, Felt::new(r0s));
    trace.set(base + COL_KC, row, Felt::new(kc));
    let inverse = if kc == 0 { Felt::new(r0s).inv() } else { Felt::zero() };
    trace.set(base + COL_R0S_INV, row, inverse);
    trace.set(base + COL_POS, row, Felt::new(pos));
    trace.set(base + COL_DPOS, row, Felt::new(dpos));
    trace.set(base + COL_R1U, row, Felt::new(r1u));
    trace.set(base + COL_HI, row, Felt::new(hi));
    trace.set(base + COL_LO, row, Felt::new(lo));
    let r0s_slack = ALPHA.wrapping_sub(r0s);
    let dpos_slack = GAMMA2.wrapping_sub(dpos);
    fill_bits(trace, base + COL_R1_BITS, row, r1, HIGH_BITS);
    fill_bits(trace, base + COL_R0S_BITS, row, r0s, LOW_BITS);
    fill_bits(trace, base + COL_R0S_SLACK, row, r0s_slack, LOW_BITS);
    fill_bits(trace, base + COL_DPOS_BITS, row, dpos, POS_BITS);
    fill_bits(trace, base + COL_DPOS_SLACK, row, dpos_slack, POS_BITS);
    fill_bits(trace, base + COL_R1U_BITS, row, r1u, HIGH_BITS);
    proof {
        let rv = trace.spec_row(row as int);
        assert forall|k: nat| k < HIGH_BITS implies #[trigger] cell_val(rv, (base + COL_R1_BITS + k) as int) == bit_of(r1 as nat, k) by {
            assert(trace.cell((base + COL_R1_BITS) as int + k as int, row as int).val() == bit_of(r1 as nat, k));
        }
        assert forall|k: nat| k < LOW_BITS implies #[trigger] cell_val(rv, (base + COL_R0S_BITS + k) as int) == bit_of(r0s as nat, k) by {
            assert(trace.cell((base + COL_R0S_BITS) as int + k as int, row as int).val() == bit_of(r0s as nat, k));
        }
        assert forall|k: nat| k < LOW_BITS implies #[trigger] cell_val(rv, (base + COL_R0S_SLACK + k) as int) == bit_of(r0s_slack as nat, k) by {
            assert(trace.cell((base + COL_R0S_SLACK) as int + k as int, row as int).val() == bit_of(r0s_slack as nat, k));
        }
        assert forall|k: nat| k < POS_BITS implies #[trigger] cell_val(rv, (base + COL_DPOS_BITS + k) as int) == bit_of(dpos as nat, k) by {
            assert(trace.cell((base + COL_DPOS_BITS) as int + k as int, row as int).val() == bit_of(dpos as nat, k));
        }
        assert forall|k: nat| k < POS_BITS implies #[trigger] cell_val(rv, (base + COL_DPOS_SLACK + k) as int) == bit_of(dpos_slack as nat, k) by {
            assert(trace.cell((base + COL_DPOS_SLACK) as int + k as int, row as int).val() == bit_of(dpos_slack as nat, k));
        }
        assert forall|k: nat| k < HIGH_BITS implies #[trigger] cell_val(rv, (base + COL_R1U_BITS + k) as int) == bit_of(r1u as nat, k) by {
            assert(trace.cell((base + COL_R1U_BITS) as int + k as int, row as int).val() == bit_of(r1u as nat, k));
        }
    }
}

/// A filled hint recovery batch with its description.
pub struct HintBatch {
    pub air: Air,
    pub trace: TraceTable,
    /// The number of real pairs before padding.
    pub count: usize,
}

/// Lays out a trace that recovers the used high part for a batch of
/// coefficient and hint pairs, the coefficient reduced and the hint cut to
/// its low bit, padded with zero pairs up to a power of two length of at
/// least two.
pub fn hint_batch(pairs: &[(u64, u64)]) -> (batch: HintBatch)
    requires
        WIDTH * next_pow2(pairs@.len()) <= usize::MAX,
    ensures
        batch.count == pairs@.len(),
        batch.air.wf(),
        batch.air.spec_base_width() == WIDTH,
        batch.air.spec_length() == padded_len(pairs@.len()),
        batch.trace.spec_width() == WIDTH,
        batch.trace.spec_length() == padded_len(pairs@.len()),
        single_rows_appended(
            Seq::empty(),
            batch.air.spec_transitions(),
            RULES as nat,
            |k: nat| hint_degree(k),
            |k: nat, row: Seq<Felt>| hint_rule(0, k, row),
        ),
        batch.air.spec_boundaries().len() == 0,
        forall|r: int| 0 <= r < pairs@.len() ==> hint_row_filled(
            #[trigger] batch.trace.spec_row(r), 0, (pairs@[r].0 % Q) as nat, pairs@[r].1 & 1),
        forall|r: int| pairs@.len() <= r < batch.trace.spec_length() ==> hint_row_filled(
            #[trigger] batch.trace.spec_row(r), 0, 0, 0),
{
    let count = pairs.len();
    proof {
        crate::util::lemma_next_pow2(count as nat);
    }
    assert(next_pow2(count as nat) <= WIDTH * next_pow2(count as nat)) by (nonlinear_arith)
        requires next_pow2(count as nat) >= 1;
    let length = padded_length(count);
    assert(WIDTH * length <= usize::MAX) by (nonlinear_arith)
        requires WIDTH * next_pow2(count as nat) <= usize::MAX, next_pow2(count as nat) >= 1,
            length == next_pow2(count as nat) || length == 2;
    let mut trace = TraceTable::new(WIDTH, length);
    let mut row: usize = 0;
    while row < length
        invariant
            row <= length,
            count == pairs@.len(),
            length == padded_len(count as nat),
            trace.spec_width() == WIDTH,
            trace.spec_length() == length,
            forall|r: int| 0 <= r < row && r < count ==> hint_row_filled(
                #[trigger] trace.spec_row(r), 0, (pairs@[r].0 % Q) as nat, pairs@[r].1 & 1),
            forall|r: int| count <= r < row ==> hint_row_filled(#[trigger] trace.spec_row(r), 0, 0, 0),
        decreases length - row,
    {
        let (r, h) = if row < count { (pairs[row].0 % Q, pairs[row].1 & 1) } else { (0, 0) };
        let ghost before = trace;
        fill_row(&mut trace, 0, row, r, h);
        proof {
            assert forall|rr: int| 0 <= rr < row implies #[trigger] trace.spec_row(rr) == before.spec_row(rr) by {
                assert(trace.spec_row(rr) =~= before.spec_row(rr));
            }
        }
        row = row + 1;
    }
    HintBatch { air: hint_air(length), trace, count }
}

/// The used high part a filled row holds.
pub fn recovered_high(trace: &TraceTable, row: usize) -> (r: u64)
    requires
        COL_R1U < trace.spec_width(),
        row < trace.spec_length(),
    ensures
        r == trace.cell(COL_R1U as int, row as int).val(),
{
    trace.get(COL_R1U, row).to_u64()
}


/// A filled row stays filled when the piece's columns are unchanged.
pub proof fn lemma_filled_frame(a: Seq<Felt>, b: Seq<Felt>, base: nat, r: nat, h: u64)
    requires
        hint_row_filled(a, base, r, h),
        rows_agree(a, b, base, (base + WIDTH) as nat),
    ensures
        hint_row_filled(b, base, r, h),
{
    assert(cell_val(b, (base + COL_R) as int) == cell_val(a, (base + COL_R) as int));
    assert(cell_val(b, (base + COL_H) as int) == cell_val(a, (base + COL_H) as int));
    assert(cell_val(b, (base + COL_R1) as int) == cell_val(a, (base + COL_R1) as int));
    assert(cell_val(b, (base + COL_R0S) as int) == cell_val(a, (base + COL_R0S) as int));
    assert(cell_val(b, (base + COL_KC) as int) == cell_val(a, (base + COL_KC) as int));
    assert(cell_val(b, (base + COL_R0S_INV) as int) == cell_val(a, (base + COL_R0S_INV) as int));
    assert(cell_val(b, (base + COL_POS) as int) == cell_val(a, (base + COL_POS) as int));
    assert(cell_val(b, (base + COL_DPOS) as int) == cell_val(a, (base + COL_DPOS) as int));
    assert(cell_val(b, (base + COL_R1U) as int) == cell_val(a, (base + COL_R1U) as int));
    assert(cell_val(b, (base + COL_HI) as int) == cell_val(a, (base + COL_HI) as int));
    assert(cell_val(b, (base + COL_LO) as int) == cell_val(a, (base + COL_LO) as int));
    assert forall|k: nat| k < HIGH_BITS implies #[trigger] cell_val(b, (base + COL_R1_BITS + k) as int) == cell_val(a, (base + COL_R1_BITS + k) as int) by {}
    assert forall|k: nat| k < LOW_BITS implies #[trigger] cell_val(b, (base + COL_R0S_BITS + k) as int) == cell_val(a, (base + COL_R0S_BITS + k) as int) by {}
    assert forall|k: nat| k < LOW_BITS implies #[trigger] cell_val(b, (base + COL_R0S_SLACK + k) as int) == cell_val(a, (base + COL_R0S_SLACK + k) as int) by {}
    assert forall|k: nat| k < POS_BITS implies #[trigger] cell_val(b, (base + COL_DPOS_BITS + k) as int) == cell_val(a, (base + COL_DPOS_BITS + k) as int) by {}
    assert forall|k: nat| k < POS_BITS implies #[trigger] cell_val(b, (base + COL_DPOS_SLACK + k) as int) == cell_val(a, (base + COL_DPOS_SLACK + k) as int) by {}
    assert forall|k: nat| k < HIGH_BITS implies #[trigger] cell_val(b, (base + COL_R1U_BITS + k) as int) == cell_val(a, (base + COL_R1U_BITS + k) as int) by {}
}
/// With the hint clear the recovered high part is the high part; with it
/// set the high part moves one step up, from fifteen round to zero, when the
/// centered low part is positive, and one step down, from zero round to
/// fifteen, when it is zero or negative.
pub proof fn law_use_hint(h: u64, r: nat)
    requires
        r < Q,
    ensures
        h == 0 ==> spec_use_hint(h, r) == spec_decompose(r).0,
        h != 0 && spec_decompose(r).1 > 0 ==> spec_use_hint(h, r)
            == (if spec_decompose(r).0 == 15 { 0 } else { spec_decompose(r).0 + 1 }),
        h != 0 && spec_decompose(r).1 <= 0 ==> spec_use_hint(h, r)
            == (if spec_decompose(r).0 == 0 { 15 } else { spec_decompose(r).0 - 1 }),
        spec_use_hint(h, r) < 16,
{
    lemma_decompose_bounds(r);
    crate::decompose::lemma_constants();
    let r1 = spec_decompose(r).0 as int;
    if h != 0 {
        if spec_decompose(r).1 > 0 {
            if r1 == 15 {
                assert((r1 + 1) % 16 == 0);
            } else {
                assert((r1 + 1) % 16 == r1 + 1);
            }
        } else {
            if r1 == 0 {
                assert((r1 - 1) % 16 == 15);
            } else {
                assert((r1 - 1) % 16 == r1 - 1);
            }
        }
    }
}

} // verus!
