use qtv_stark::field::{root_of_unity, Felt};
use qtv_stark::poly::{batch_inverse, eval_at, evaluate_coset, evaluate_subgroup, interpolate, ntt};

fn naive_eval_domain(coeffs: &[Felt], log_n: u32) -> Vec<Felt> {
    let n = 1usize << log_n;
    let omega = root_of_unity(log_n);
    let mut point = Felt::one();
    let mut out = Vec::with_capacity(n);
    for _ in 0..n {
        out.push(eval_at(coeffs, point));
        point = point.mul(omega);
    }
    out
}

#[test]
fn transform_matches_direct_evaluation() {
    let coeffs: Vec<Felt> = (1..=16u64).map(Felt::new).collect();
    let mut fast = coeffs.clone();
    ntt(&mut fast, root_of_unity(4));
    assert_eq!(fast, naive_eval_domain(&coeffs, 4));
}

#[test]
fn interpolate_inverts_evaluation() {
    let coeffs: Vec<Felt> = (0..32u64).map(|i| Felt::new(i.wrapping_mul(7) + 1)).collect();
    let evals = evaluate_subgroup(&coeffs, 5);
    let recovered = interpolate(&evals);
    assert_eq!(recovered, coeffs);
}

#[test]
fn coset_evaluation_matches_shifted_points() {
    let coeffs: Vec<Felt> = (1..=8u64).map(Felt::new).collect();
    let shift = Felt::new(7);
    let evals = evaluate_coset(&coeffs, 3, shift);
    let omega = root_of_unity(3);
    let mut point = shift;
    for value in evals {
        assert_eq!(value, eval_at(&coeffs, point));
        point = point.mul(omega);
    }
}

#[test]
fn batch_inverse_matches_pointwise_inverse() {
    let values: Vec<Felt> = (1..=20u64).map(Felt::new).collect();
    let inverses = batch_inverse(&values);
    for (v, i) in values.iter().zip(inverses.iter()) {
        assert_eq!(v.mul(*i), Felt::one());
        assert_eq!(*i, v.inv());
    }
}

#[test]
fn low_degree_extension_agrees_on_the_base_domain() {
    let base: Vec<Felt> = (0..8u64).map(|i| Felt::new(i * i + 3)).collect();
    let coeffs = interpolate(&base);
    let extended = evaluate_subgroup(&coeffs, 5);
    let blowup = 32 / 8;
    for (i, value) in base.iter().enumerate() {
        assert_eq!(extended[i * blowup], *value);
    }
}

#[test]
fn horner_evaluation_gives_an_exact_value() {
    let coeffs = [Felt::new(1), Felt::new(2), Felt::new(3)];
    assert_eq!(eval_at(&coeffs, Felt::new(10)), Felt::new(321));
    assert_eq!(eval_at(&[], Felt::new(10)), Felt::zero());
}

#[test]
fn a_single_value_interpolates_to_itself() {
    let evals = vec![Felt::new(123456789)];
    assert_eq!(interpolate(&evals), evals);
    assert_eq!(evaluate_subgroup(&evals, 0), evals);
}

#[test]
fn the_transform_under_an_order_eight_root_gives_each_power_evaluation() {
    let coeffs: Vec<Felt> = vec![3, 0, 5, 1, 0, 0, 9, 2].into_iter().map(Felt::new).collect();
    let omega = root_of_unity(3);
    let mut fast = coeffs.clone();
    ntt(&mut fast, omega);
    let mut point = Felt::one();
    for value in fast {
        assert_eq!(value, eval_at(&coeffs, point));
        point = point.mul(omega);
    }
}

#[test]
fn short_coefficients_evaluate_over_a_larger_subgroup() {
    let coeffs: Vec<Felt> = vec![1, 2, 3].into_iter().map(Felt::new).collect();
    let evals = evaluate_subgroup(&coeffs, 2);
    assert_eq!(evals.len(), 4);
    assert_eq!(evals[0], Felt::new(6));
    let omega = root_of_unity(2);
    let mut point = Felt::one();
    for value in evals {
        assert_eq!(value, eval_at(&coeffs, point));
        point = point.mul(omega);
    }
}
