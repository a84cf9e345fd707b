use qtv_stark::field::Felt;
use qtv_stark::rescue::{self, round_constants, ALPHA};
use qtv_stark::stark::{prove, verify, StarkParams};
use qtv_stark::zkvrf::{
    fill_segment, state_input, vrf_air, vrf_commit, vrf_output, vrf_trace, CARRIER_OFF, OUT_ELEMS, ROWS, SEG,
    SK_ELEMS, VRF_BLIND, VRF_BLOWUP, VRF_QUERIES, X_ELEMS,
};

fn sk() -> [Felt; SK_ELEMS] {
    [Felt::new(111111111), Felt::new(222222222), Felt::new(333333333), Felt::new(444444444)]
}

fn input() -> [Felt; X_ELEMS] {
    [Felt::new(9001), Felt::new(9002), Felt::new(9003), Felt::new(9004)]
}

fn sound_params() -> StarkParams {
    StarkParams { lde_blowup: 16, num_queries: 32 }
}

#[test]
fn the_reference_output_matches_the_permutation() {
    let s = sk();
    let x = input();
    let mut state = state_input(&s, &x);
    rescue::permute(&mut state);
    assert_eq!(&vrf_output(&s, &x)[..], &state[..OUT_ELEMS]);
}

#[test]
fn zkvrf_the_arithmetic_holds_on_every_row() {
    let instance = vrf_trace(&sk(), &input());
    assert!(instance.air.is_satisfied(&instance.trace));
}

#[test]
fn a_valid_draw_proves_and_verifies() {
    let instance = vrf_trace(&sk(), &input());
    let proof = prove(&instance.air, &instance.trace, &sound_params());
    let air = vrf_air(&input(), &instance.output, &instance.commit);
    assert!(verify(&air, &sound_params(), &proof));
}

#[test]
fn a_forged_output_is_rejected() {
    let instance = vrf_trace(&sk(), &input());
    let proof = prove(&instance.air, &instance.trace, &sound_params());
    let mut wrong = instance.output;
    wrong[0] = wrong[0].add(Felt::one());
    let air = vrf_air(&input(), &wrong, &instance.commit);
    assert!(!verify(&air, &sound_params(), &proof));
}

#[test]
fn a_wrong_commitment_is_rejected() {
    let instance = vrf_trace(&sk(), &input());
    let proof = prove(&instance.air, &instance.trace, &sound_params());
    let mut wrong = instance.commit;
    wrong[2] = wrong[2].add(Felt::one());
    let air = vrf_air(&input(), &instance.output, &wrong);
    assert!(!verify(&air, &sound_params(), &proof));
}

#[test]
fn a_different_input_is_rejected() {
    let instance = vrf_trace(&sk(), &input());
    let proof = prove(&instance.air, &instance.trace, &sound_params());
    let mut other = input();
    other[0] = other[0].add(Felt::one());
    let air = vrf_air(&other, &instance.output, &instance.commit);
    assert!(!verify(&air, &sound_params(), &proof));
}

#[test]
fn a_key_split_between_the_two_sponges_is_rejected() {
    let mut instance = vrf_trace(&sk(), &input());
    let mut other = sk();
    other[0] = other[0].add(Felt::one());
    let rc = round_constants();
    fill_segment(&mut instance.trace, SEG, &state_input(&other, &[Felt::zero(); X_ELEMS]), &rc);
    assert!(!instance.air.is_satisfied(&instance.trace));
}

#[test]
fn a_tampered_carrier_is_rejected() {
    let mut instance = vrf_trace(&sk(), &input());
    let cell = instance.trace.get(CARRIER_OFF, 0);
    instance.trace.set(CARRIER_OFF, 0, cell.add(Felt::one()));
    assert!(!instance.air.is_satisfied(&instance.trace));
}

#[test]
fn the_parameters_meet_the_target_soundness() {
    let n = ROWS;
    let max_degree = ALPHA as usize + 1;
    let size = n * VRF_BLOWUP;
    let comp_bound = (max_degree * (n + VRF_BLIND)).next_power_of_two();
    let comp_fri_blowup = size / comp_bound;
    let bits = VRF_QUERIES as f64 * 0.5 * (comp_fri_blowup as f64).log2();
    assert!(bits >= 128.0, "composition soundness {bits} bits below target");
    let openings = 6 * VRF_QUERIES;
    assert!(VRF_BLIND >= openings, "blinding {VRF_BLIND} below the {openings} openings");
}

#[test]
fn the_commitment_is_the_output_on_the_zero_input() {
    let zero = [Felt::zero(); X_ELEMS];
    assert_eq!(vrf_commit(&sk()), vrf_output(&sk(), &zero));
    assert_ne!(vrf_commit(&sk()), vrf_output(&sk(), &input()));
}
