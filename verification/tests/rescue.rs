use qtv_stark::field::Felt;
use qtv_stark::rescue::{
    apply_mds, inverse_sbox, mds, mds_inverse, permute, round_constants, sbox, ALPHA, ALPHA_INV, CAPACITY, ROUNDS, WIDTH,
};

fn inverse_permute(state: &mut [Felt; WIDTH]) {
    let m_inv = mds_inverse();
    let rc = round_constants();
    for r in (0..ROUNDS).rev() {
        for (cell, c) in state.iter_mut().zip(rc[2 * r + 1].iter()) {
            *cell = cell.sub(*c);
        }
        *state = apply_mds(&m_inv, state);
        sbox(state);
        for (cell, c) in state.iter_mut().zip(rc[2 * r].iter()) {
            *cell = cell.sub(*c);
        }
        *state = apply_mds(&m_inv, state);
        inverse_sbox(state);
    }
}

fn sample(seed: u64) -> [Felt; WIDTH] {
    let mut state = [Felt::zero(); WIDTH];
    let mut x = seed | 1;
    for cell in state.iter_mut() {
        x ^= x << 13;
        x ^= x >> 7;
        x ^= x << 17;
        *cell = Felt::new(x);
    }
    state
}

fn log2_binom(a: u64, b: u64) -> f64 {
    let mut s = 0.0;
    for i in 0..b {
        s += ((a - i) as f64).log2() - ((i + 1) as f64).log2();
    }
    s
}

fn rescue_prime_rounds(m: u64, capacity: u64, alpha: u64, security: u64) -> usize {
    let rate = m - capacity;
    let mut l1 = 1u64;
    loop {
        let v = m * (l1 - 1) + rate;
        let dcon = ((alpha - 1) * m * (l1 - 1)) / 2 + 2;
        if log2_binom(v + dcon, v) > security as f64 / 2.0 {
            break;
        }
        l1 += 1;
    }
    let base = l1.max(5) as f64;
    (1.5 * base).ceil() as usize
}

#[test]
fn the_round_count_matches_the_rescue_prime_formula() {
    assert_eq!(
        ROUNDS,
        rescue_prime_rounds(WIDTH as u64, CAPACITY as u64, ALPHA, 128),
        "round count must equal the Rescue-Prime security formula"
    );
}

#[test]
fn the_sbox_exponents_are_inverse() {
    for raw in [2u64, 3, 7, 123456789, 81985529216486895] {
        let x = Felt::new(raw);
        assert_eq!(x.pow(ALPHA).pow(ALPHA_INV), x);
    }
}

#[test]
fn the_mds_is_invertible() {
    let m = mds();
    let inv = mds_inverse();
    let product = apply_mds(&m, &apply_mds(&inv, &sample(1)));
    assert_eq!(product, sample(1));
}

#[test]
fn the_permutation_round_trips_through_its_inverse() {
    let input = sample(42);
    let mut state = input;
    permute(&mut state);
    assert_ne!(state, input);
    inverse_permute(&mut state);
    assert_eq!(state, input);
}

#[test]
fn distinct_inputs_stay_distinct() {
    let mut a = sample(7);
    let mut b = sample(7);
    b[3] = b[3].add(Felt::one());
    permute(&mut a);
    permute(&mut b);
    assert_ne!(a, b);
}

#[test]
fn a_one_element_change_avalanches() {
    let mut a = sample(9);
    let mut b = a;
    b[0] = b[0].add(Felt::one());
    permute(&mut a);
    permute(&mut b);
    let differing = a.iter().zip(b.iter()).filter(|(x, y)| x != y).count();
    assert!(differing >= WIDTH - 1, "weak diffusion: {differing}");
}

#[test]
fn the_diffusion_matrix_entries_are_inverses() {
    let m = mds();
    assert_eq!(m[0][0].mul(Felt::new(12)), Felt::one());
    assert_eq!(m[3][5].mul(Felt::new(20)), Felt::one());
}

#[test]
fn the_permutation_of_zero_is_fixed_by_the_constants() {
    let mut a = [Felt::zero(); WIDTH];
    let mut b = [Felt::zero(); WIDTH];
    permute(&mut a);
    permute(&mut b);
    assert_eq!(a, b);
    assert_ne!(a, [Felt::zero(); WIDTH]);
}
