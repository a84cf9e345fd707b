use qtv_stark::field::{Felt, MODULUS};
use qtv_stark::field_ext::{Fp3, NON_RESIDUE};

fn sample(seed: u64) -> Fp3 {
    let a = seed.wrapping_mul(2654435761).wrapping_add(1);
    let b = seed.wrapping_mul(40503).wrapping_add(7);
    let d = seed.wrapping_mul(2246822519).wrapping_add(13);
    Fp3::new(Felt::new(a), Felt::new(b), Felt::new(d))
}

#[test]
fn reduction_polynomial_is_irreducible() {
    let c = Felt::new(NON_RESIDUE);
    let e = (MODULUS - 1) / 3;
    assert_ne!(c.pow(e), Felt::one());
}

#[test]
fn addition_forms_a_group() {
    let a = sample(1);
    let b = sample(2);
    let zero = Fp3::zero();
    assert_eq!(a.add(b), b.add(a));
    assert_eq!(a.add(zero), a);
    assert_eq!(a.sub(a), zero);
    assert_eq!(a.add(b).sub(b), a);
    assert_eq!(a.neg().add(a), zero);
}

#[test]
fn multiplication_is_commutative_associative_and_distributes() {
    let a = sample(3);
    let b = sample(4);
    let d = sample(5);
    assert_eq!(a.mul(b), b.mul(a));
    assert_eq!(a.mul(b).mul(d), a.mul(b.mul(d)));
    assert_eq!(a.mul(b.add(d)), a.mul(b).add(a.mul(d)));
    assert_eq!(a.mul(Fp3::one()), a);
    assert_eq!(a.mul(Fp3::zero()), Fp3::zero());
}

#[test]
fn field_ext_inverse_returns_the_multiplicative_unit() {
    for seed in 1..200u64 {
        let a = sample(seed);
        if a == Fp3::zero() {
            continue;
        }
        assert_eq!(a.mul(a.inv()), Fp3::one());
    }
}

#[test]
fn the_base_field_embeds_as_a_subfield() {
    for raw in [0u64, 1, 2, 7, 12345, MODULUS - 1] {
        let x = Felt::new(raw);
        let y = Felt::new(raw.wrapping_mul(3).wrapping_add(9));
        let ex = Fp3::from_base(x);
        let ey = Fp3::from_base(y);
        assert_eq!(ex.add(ey), Fp3::from_base(x.add(y)));
        assert_eq!(ex.mul(ey), Fp3::from_base(x.mul(y)));
        assert!(ex.is_base());
    }
}

#[test]
fn scaling_agrees_with_embedded_multiplication() {
    let a = sample(11);
    let s = Felt::new(987654321);
    assert_eq!(a.scale(s), a.mul(Fp3::from_base(s)));
    assert_eq!(a.add_base(s), a.add(Fp3::from_base(s)));
    assert_eq!(a.sub_base(s), a.sub(Fp3::from_base(s)));
}

#[test]
fn a_non_base_element_generates_the_full_extension() {
    let x = Fp3::new(Felt::zero(), Felt::one(), Felt::zero());
    assert!(!x.is_base());
    assert_eq!(x.mul(x).mul(x), Fp3::from_base(Felt::new(NON_RESIDUE)));
}

#[test]
fn field_ext_pow_matches_repeated_multiplication() {
    let a = sample(17);
    let mut acc = Fp3::one();
    for _ in 0..23 {
        acc = acc.mul(a);
    }
    assert_eq!(a.pow(23), acc);
}

#[test]
fn coefficients_round_trip_through_words() {
    let a = sample(9);
    let words = a.to_u64s();
    assert_eq!(Fp3::from_u64s(words), a);
    let c = a.coefficients();
    assert_eq!(Fp3::new(c[0], c[1], c[2]), a);
}
