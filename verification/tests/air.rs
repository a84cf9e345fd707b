use qtv_stark::air::{Air, Expr, ExtExpr, TraceTable};
use qtv_stark::field::Felt;
use qtv_stark::field_ext::Fp3;

#[test]
fn cells_round_trip_through_the_table() {
    let mut trace = TraceTable::new(3, 8);
    assert_eq!(trace.width(), 3);
    assert_eq!(trace.length(), 8);
    for row in 0..8 {
        for col in 0..3 {
            trace.set(col, row, Felt::new((row * 3 + col) as u64));
        }
    }
    assert_eq!(trace.get(2, 5), Felt::new(17));
    assert_eq!(trace.row(5), vec![Felt::new(15), Felt::new(16), Felt::new(17)]);
    assert_eq!(trace.column(0)[7], Felt::new(21));
}

fn squaring_air() -> (Air, TraceTable) {
    let length = 8;
    let mut air = Air::new(1, length);
    air.add_transition(2, Expr::next(0).sub(Expr::cur(0).mul(Expr::cur(0))));
    air.add_boundary(0, 0, Felt::new(3));
    let mut trace = TraceTable::new(1, length);
    let mut value = Felt::new(3);
    for row in 0..length {
        trace.set(0, row, value);
        value = value.mul(value);
    }
    (air, trace)
}

#[test]
fn a_correct_trace_satisfies_the_description() {
    let (air, trace) = squaring_air();
    assert_eq!(air.max_degree(), 2);
    assert!(air.is_satisfied(&trace));
}

#[test]
fn a_broken_transition_is_caught() {
    let (air, mut trace) = squaring_air();
    trace.set(0, 4, trace.get(0, 4).add(Felt::one()));
    assert!(!air.is_satisfied(&trace));
}

#[test]
fn a_broken_boundary_is_caught() {
    let (air, mut trace) = squaring_air();
    trace.set(0, 0, Felt::new(4));
    assert!(!air.is_satisfied(&trace));
}

#[test]
fn a_single_row_constraint_holds_on_every_row() {
    let length = 4;
    let mut air = Air::new(2, length);
    air.add_single_row(2, Expr::cur(1).sub(Expr::cur(0).mul(Expr::cur(0))));
    let mut trace = TraceTable::new(2, length);
    for row in 0..length {
        let base = Felt::new((row + 2) as u64);
        trace.set(0, row, base);
        trace.set(1, row, base.mul(base));
    }
    assert!(air.is_satisfied(&trace));
    trace.set(1, length - 1, Felt::zero());
    assert!(!air.is_satisfied(&trace));
}

fn permutation_air() -> Air {
    let mut air = Air::new(2, 8);
    let gamma = air.add_challenge();
    air.add_permutation(
        1,
        ExtExpr::challenge(gamma).sub(ExtExpr::base(Expr::cur(0))),
        ExtExpr::challenge(gamma).sub(ExtExpr::base(Expr::cur(1))),
    );
    air
}

fn filled(source: &[u64], shuffled: &[u64]) -> TraceTable {
    let mut base = TraceTable::new(2, 8);
    for row in 0..8 {
        base.set(0, row, Felt::new(source[row]));
        base.set(1, row, Felt::new(shuffled[row]));
    }
    base
}

#[test]
fn a_reordering_is_a_permutation() {
    let air = permutation_air();
    let base = filled(&[3, 1, 4, 1, 5, 9, 2, 6], &[6, 5, 4, 3, 2, 1, 1, 9]);
    let challenges = [Fp3::from_base(Felt::new(20015998343868))];
    assert_eq!(air.num_challenges(), 1);
    assert_eq!(air.aux_width(), 1);
    assert!(air.is_satisfied_with(&base, &challenges));
}

#[test]
fn a_mismatched_multiset_is_rejected() {
    let air = permutation_air();
    let base = filled(&[3, 1, 4, 1, 5, 9, 2, 6], &[6, 5, 4, 3, 2, 1, 1, 6]);
    let challenges = [Fp3::from_base(Felt::new(20015998343868))];
    assert!(!air.is_satisfied_with(&base, &challenges));
}

#[test]
fn the_running_product_column_closes_to_one() {
    let air = permutation_air();
    let values = [7u64, 2, 7, 2, 7, 2, 7, 2];
    let mut reversed = values;
    reversed.reverse();
    let base = filled(&values, &reversed);
    let challenges = [Fp3::from_base(Felt::new(173961102589770))];
    let aux = air.build_aux(&base, &challenges);
    assert_eq!(aux.len(), 1);
    assert_eq!(aux[0][0], Fp3::one());
    assert!(air.is_satisfied_with(&base, &challenges));
}

#[test]
fn a_permutation_takes_a_fresh_column_fixed_to_one() {
    let mut air = Air::new(3, 4);
    let gamma = air.add_challenge();
    let column = air.add_permutation(
        2,
        ExtExpr::challenge(gamma).sub(ExtExpr::base(Expr::cur(0))),
        ExtExpr::challenge(gamma).sub(ExtExpr::base(Expr::cur(1))),
    );
    assert_eq!(column, 3);
    assert_eq!(air.width(), 4);
    assert_eq!(air.max_degree(), 3);
    assert_eq!(air.boundaries().len(), 1);
    assert_eq!(air.boundaries()[0].column, 3);
    assert_eq!(air.boundaries()[0].value, Felt::one());
}

#[test]
fn a_permutation_adds_its_running_product_rule() {
    let mut air = Air::new(3, 4);
    air.add_transition(1, Expr::next(0).sub(Expr::cur(0)));
    let gamma = air.add_challenge();
    air.add_permutation(
        2,
        ExtExpr::challenge(gamma).sub(ExtExpr::base(Expr::cur(0))),
        ExtExpr::challenge(gamma).sub(ExtExpr::base(Expr::cur(1))),
    );
    assert_eq!(air.transitions().len(), 2);
    let rule = &air.transitions()[1];
    assert_eq!(rule.degree, 3);
    assert!(!rule.exclude_last);
    assert!(rule.uses_challenges);
    assert!(!air.transitions()[0].uses_challenges);
}

#[test]
fn a_base_check_skips_the_running_product_rule() {
    let mut air = Air::new(2, 4);
    let gamma = air.add_challenge();
    air.add_permutation(
        1,
        ExtExpr::challenge(gamma).sub(ExtExpr::base(Expr::cur(0))),
        ExtExpr::challenge(gamma).sub(ExtExpr::base(Expr::cur(1))),
    );
    let trace = TraceTable::new(2, 4);
    assert!(air.is_satisfied(&trace));
}

#[test]
fn an_expression_evaluates_on_two_rows() {
    let e = Expr::next(1).sub(Expr::cur(0).mul(Expr::constant(Felt::new(5)))).add(Expr::cur(1));
    let cur = [Felt::new(3), Felt::new(4)];
    let next = [Felt::new(100), Felt::new(20)];
    assert_eq!(e.eval(&cur, &next), Felt::new(20 - 15 + 4));
}
