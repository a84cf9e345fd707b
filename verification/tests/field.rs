use qtv_stark::field::{root_of_unity, Felt, MODULUS};

#[test]
fn add_is_commutative_and_has_zero_identity() {
    let a = Felt::new(1311768467463790320);
    let b = Felt::new(18369614221520256751);
    assert_eq!(a.add(b), b.add(a));
    assert_eq!(a.add(Felt::zero()), a);
}

#[test]
fn sub_is_the_inverse_of_add() {
    let a = Felt::new(1085102592571150095);
    let b = Felt::new(71777214294589695);
    assert_eq!(a.add(b).sub(b), a);
    assert_eq!(a.sub(a), Felt::zero());
}

#[test]
fn add_wraps_at_the_modulus() {
    let near = Felt::new(MODULUS - 1);
    assert_eq!(near.add(Felt::one()), Felt::zero());
    assert_eq!(Felt::zero().sub(Felt::one()), near);
}

#[test]
fn mul_is_commutative_associative_and_distributes() {
    let a = Felt::new(54324593195745281);
    let b = Felt::new(1229801703532086340);
    let c = Felt::new(11068027678940948070);
    assert_eq!(a.mul(b), b.mul(a));
    assert_eq!(a.mul(b).mul(c), a.mul(b.mul(c)));
    assert_eq!(a.mul(b.add(c)), a.mul(b).add(a.mul(c)));
    assert_eq!(a.mul(Felt::one()), a);
    assert_eq!(a.mul(Felt::zero()), Felt::zero());
}

#[test]
fn field_inverse_returns_the_multiplicative_unit() {
    for raw in [1u64, 2, 3, 7, 81985529216486895, MODULUS - 1] {
        let a = Felt::new(raw);
        assert_eq!(a.mul(a.inv()), Felt::one());
    }
}

#[test]
fn field_pow_matches_repeated_multiplication() {
    let a = Felt::new(5);
    let mut acc = Felt::one();
    for _ in 0..17 {
        acc = acc.mul(a);
    }
    assert_eq!(a.pow(17), acc);
    assert_eq!(a.pow(0), Felt::one());
}

#[test]
fn root_of_unity_has_the_requested_order() {
    for log_n in 1..=16u32 {
        let root = root_of_unity(log_n);
        assert_eq!(root.pow(1u64 << log_n), Felt::one());
        assert_ne!(root.pow(1u64 << (log_n - 1)), Felt::one());
    }
}

#[test]
fn root_of_unity_squares_toward_the_smaller_domain() {
    let big = root_of_unity(10);
    let small = root_of_unity(9);
    assert_eq!(big.mul(big), small);
}

#[test]
fn new_reduces_below_the_modulus() {
    assert_eq!(Felt::new(MODULUS).to_u64(), 0);
    assert_eq!(Felt::new(MODULUS + 5).to_u64(), 5);
    assert_eq!(Felt::new(u64::MAX).to_u64(), u64::MAX - MODULUS);
}

#[test]
fn the_inverse_of_zero_is_zero() {
    assert_eq!(Felt::zero().inv(), Felt::zero());
}

#[test]
fn every_root_of_unity_has_its_exact_order() {
    for log in 1..=32u32 {
        let w = root_of_unity(log);
        assert_eq!(w.pow(1u64 << log), Felt::new(1));
        assert_eq!(w.pow(1u64 << (log - 1)), Felt::new(MODULUS - 1));
    }
}

#[test]
fn the_root_of_log_size_zero_is_one_and_each_root_squares_down() {
    assert_eq!(root_of_unity(0), Felt::one());
    for log_n in 1..=32u32 {
        let root = root_of_unity(log_n);
        assert_eq!(root.mul(root), root_of_unity(log_n - 1));
    }
}
