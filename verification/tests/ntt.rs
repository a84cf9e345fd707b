use qtv_stark::air::{fill_bits, TraceTable};
use qtv_stark::field::Felt;
use qtv_stark::field_ext::Fp3;
use qtv_stark::lattice::{Q, RESIDUE_BITS};
use qtv_stark::ntt::{
    identity, ntt_air, ntt_trace, pow_mod, root_of_unity_q, schedule, to_layer_zero, width, A, A_ID, B, B_ID, CD, CS, D,
    D_BITS, D_ID, D_SLACK, M, MQ, MQ_BITS, M_BITS, M_SLACK, S, SEL0, S_BITS, S_ID, S_SLACK, W,
};
use qtv_stark::stark::{prove, verify, StarkParams};

fn params() -> StarkParams {
    StarkParams { lde_blowup: 8, num_queries: 24 }
}

fn challenges() -> [Fp3; 2] {
    [
        Fp3::new(Felt::new(305419896), Felt::new(11), Felt::new(97)),
        Fp3::new(Felt::new(2596069104), Felt::new(23), Felt::new(131)),
    ]
}

fn naive_dft(coeffs: &[u64]) -> Vec<u64> {
    let n = coeffs.len();
    let omega = root_of_unity_q(n);
    (0..n)
        .map(|k| {
            let mut acc = 0u128;
            for (j, c) in coeffs.iter().enumerate() {
                let tw = pow_mod(omega, (j as u64) * (k as u64), Q);
                acc = (acc + (*c as u128) * (tw as u128)) % Q as u128;
            }
            acc as u64
        })
        .collect()
}

fn sample_coeffs(n: usize) -> Vec<u64> {
    (0..n as u64).map(|i| i.wrapping_mul(2654435769).wrapping_add(7) % Q).collect()
}

fn set_bits(trace: &mut TraceTable, base: usize, row: usize, value: u64) {
    fill_bits(trace, base, row, value, RESIDUE_BITS);
}

#[test]
fn the_schedule_computes_the_transform() {
    let n = 16;
    let coeffs = sample_coeffs(n);
    let instance = ntt_trace(&to_layer_zero(&coeffs));
    assert_eq!(instance.output, naive_dft(&coeffs));
}

#[test]
fn ntt_the_arithmetic_holds_on_every_row() {
    let instance = ntt_trace(&to_layer_zero(&sample_coeffs(16)));
    assert!(instance.air.is_satisfied(&instance.trace));
}

#[test]
fn the_whole_relation_holds_under_challenges() {
    let instance = ntt_trace(&to_layer_zero(&sample_coeffs(16)));
    assert!(instance.air.is_satisfied_with(&instance.trace, &challenges()));
}

#[test]
fn a_broken_butterfly_is_rejected() {
    let mut instance = ntt_trace(&to_layer_zero(&sample_coeffs(16)));
    let bumped = instance.trace.get(S, 5).add(Felt::one());
    instance.trace.set(S, 5, bumped);
    assert!(!instance.air.is_satisfied(&instance.trace));
}

#[test]
fn a_broken_wire_is_rejected() {
    let mut instance = ntt_trace(&to_layer_zero(&sample_coeffs(16)));
    assert!(instance.air.is_satisfied_with(&instance.trace, &challenges()));
    let s = instance.trace.get(S, 1);
    let d = instance.trace.get(D, 1);
    instance.trace.set(S, 1, d);
    instance.trace.set(D, 1, s);
    assert!(!instance.air.is_satisfied_with(&instance.trace, &challenges()));
}

#[test]
fn a_forged_butterfly_product_is_rejected() {
    let a = 1234u64;
    let b = 5678u64;
    let input = vec![a, b];
    let forged_m = b + 1;
    assert!(forged_m < Q);
    let mq = Felt::new(b).sub(Felt::new(forged_m)).mul(Felt::new(Q).inv());
    let (s, cs) = if a + forged_m >= Q { (a + forged_m - Q, 1u64) } else { (a + forged_m, 0) };
    let (d, cd) = if a >= forged_m { (a - forged_m, 0u64) } else { (a + Q - forged_m, 1) };
    let output = vec![s, d];
    assert_ne!(forged_m, (Felt::one().mul(Felt::new(b))).to_u64());
    let mut trace = TraceTable::new(width(1), 1);
    trace.set(A, 0, Felt::new(a));
    trace.set(B, 0, Felt::new(b));
    trace.set(W, 0, Felt::one());
    trace.set(M, 0, Felt::new(forged_m));
    trace.set(S, 0, Felt::new(s));
    trace.set(D, 0, Felt::new(d));
    trace.set(MQ, 0, mq);
    trace.set(CS, 0, Felt::new(cs));
    trace.set(CD, 0, Felt::new(cd));
    trace.set(A_ID, 0, Felt::new(identity(0, 0, 2)));
    trace.set(B_ID, 0, Felt::new(identity(0, 1, 2)));
    trace.set(S_ID, 0, Felt::new(identity(1, 0, 2)));
    trace.set(D_ID, 0, Felt::new(identity(1, 1, 2)));
    set_bits(&mut trace, M_BITS, 0, forged_m);
    set_bits(&mut trace, M_SLACK, 0, Q - 1 - forged_m);
    set_bits(&mut trace, S_BITS, 0, s);
    set_bits(&mut trace, S_SLACK, 0, Q - 1 - s);
    set_bits(&mut trace, D_BITS, 0, d);
    set_bits(&mut trace, D_SLACK, 0, Q - 1 - d);
    trace.set(SEL0, 0, Felt::one());
    let air = ntt_air(2, &input, &output);
    assert!(!air.is_satisfied(&trace));
}

#[test]
fn the_twiddle_column_is_pinned_on_every_row() {
    let n = 16usize;
    let layers = (n as u32).trailing_zeros();
    let omega = root_of_unity_q(n);
    let plan = schedule(n, layers, omega);
    let air = ntt_air(n, &to_layer_zero(&sample_coeffs(n)), &vec![0u64; n]);
    for bf in &plan {
        assert!(air
            .boundaries()
            .iter()
            .any(|b| b.column == W && b.row == bf.row && b.value == Felt::new(bf.twiddle)));
    }
}

#[test]
fn a_forged_twiddle_producing_a_false_output_is_rejected() {
    let coeffs = sample_coeffs(16);
    let instance = ntt_trace(&to_layer_zero(&coeffs));
    let n = 16usize;
    let layers = (n as u32).trailing_zeros();
    let last = layers as usize - 1;
    let victim_row = last;
    let input = instance.input.clone();
    let honest_output = instance.output.clone();
    let a_val = instance.trace.get(A, victim_row).to_u64();
    let b_val = instance.trace.get(B, victim_row).to_u64();
    let honest_w = instance.trace.get(W, victim_row).to_u64();
    let forged_w = 3u64;
    assert_ne!(forged_w, honest_w);
    let product = forged_w as u128 * b_val as u128;
    let mq = (product / Q as u128) as u64;
    let m = (product % Q as u128) as u64;
    let (s, cs) = {
        let sum = a_val + m;
        if sum >= Q { (sum - Q, 1u64) } else { (sum, 0) }
    };
    let (d, cd) = if a_val >= m { (a_val - m, 0u64) } else { (a_val + Q - m, 1) };
    let half = n / 2;
    let mut forged_output = honest_output.clone();
    forged_output[0] = s;
    forged_output[half] = d;
    assert_ne!(forged_output, honest_output);
    let mut trace = instance.trace;
    trace.set(W, victim_row, Felt::new(forged_w));
    trace.set(M, victim_row, Felt::new(m));
    trace.set(MQ, victim_row, Felt::new(mq));
    trace.set(S, victim_row, Felt::new(s));
    trace.set(D, victim_row, Felt::new(d));
    trace.set(CS, victim_row, Felt::new(cs));
    trace.set(CD, victim_row, Felt::new(cd));
    set_bits(&mut trace, M_BITS, victim_row, m);
    set_bits(&mut trace, M_SLACK, victim_row, Q - 1 - m);
    set_bits(&mut trace, S_BITS, victim_row, s);
    set_bits(&mut trace, S_SLACK, victim_row, Q - 1 - s);
    set_bits(&mut trace, D_BITS, victim_row, d);
    set_bits(&mut trace, D_SLACK, victim_row, Q - 1 - d);
    set_bits(&mut trace, MQ_BITS, victim_row, mq);
    let air = ntt_air(n, &input, &forged_output);
    assert!(!air.is_satisfied_with(&trace, &challenges()));
    let proof = prove(&air, &trace, &params());
    assert!(!verify(&air, &params(), &proof));
}

#[test]
fn the_transform_proves_and_verifies() {
    let instance = ntt_trace(&to_layer_zero(&sample_coeffs(16)));
    let proof = prove(&instance.air, &instance.trace, &params());
    assert!(verify(&instance.air, &params(), &proof));
}

#[test]
fn the_layer_zero_order_reverses_the_index_bits() {
    let coeffs: Vec<u64> = (0..8u64).collect();
    assert_eq!(to_layer_zero(&coeffs), vec![0, 4, 2, 6, 1, 5, 3, 7]);
}

#[test]
fn pow_mod_matches_repeated_multiplication() {
    assert_eq!(pow_mod(3, 5, 7), 243 % 7);
    assert_eq!(pow_mod(10, 0, 13), 1);
}

#[test]
fn the_root_has_exactly_the_requested_order() {
    let omega = root_of_unity_q(16);
    assert_eq!(pow_mod(omega, 16, Q), 1);
    assert_ne!(pow_mod(omega, 8, Q), 1);
}

#[test]
fn the_order_256_root_modulo_the_lattice_prime_is_primitive() {
    let w = root_of_unity_q(256);
    assert_eq!(pow_mod(w, 256, Q), 1);
    assert_eq!(pow_mod(w, 128, Q), Q - 1);
}
