//! The proving jobs of one signing attempt: each piece of the signer's
//! arithmetic laid out over representative inputs with the description its
//! verifier checks, the proof parameters, and how often the piece runs per
//! rejection loop iteration and per signature.
use vstd::prelude::*;
use crate::air::{Air, TraceTable};
use crate::crypto::{shake256, spec_shake256};
use crate::lattice::{Q, RING_DEGREE};
use crate::util::{is_pow2, next_pow2, padded_len, two_pow};

verus! {

/// The ring degree.
pub const N: usize = RING_DEGREE;
/// The rows of the public matrix.
pub const MATRIX_K: usize = crate::lattice::MATRIX_ROWS;
/// The columns of the public matrix.
pub const MATRIX_L: usize = crate::lattice::MATRIX_COLS;
/// The bytes of the private key seed.
pub const KEY_BYTES: usize = 32;
/// The bytes of the signing randomizer.
pub const RANDOMIZER_BYTES: usize = 32;
/// The bytes of the message representative.
pub const MU_BYTES: usize = 64;
/// The transforms one rejection loop iteration runs.
pub const TRANSFORMS_PER_ITERATION: usize = MATRIX_L + 1 + MATRIX_K + MATRIX_L + MATRIX_K;
/// The pointwise products one iteration runs.
pub const POINTWISE_PER_ITERATION: usize = MATRIX_K * MATRIX_L * N + MATRIX_L * N + MATRIX_K * N;
/// The coefficients of a response.
#[verifier::nonlinear]
pub const RESPONSE_COEFFS: usize = MATRIX_L * N;
/// The coefficients of a commitment.
#[verifier::nonlinear]
pub const COMMITMENT_COEFFS: usize = MATRIX_K * N;
/// The expected iterations per signature, in thousandths.
pub const AVG_ITERATIONS_MILLI: u64 = 5100;

/// A proving job: its name, the description and trace the prover uses, the
/// description the verifier checks, the proof parameters, the runs per
/// iteration and per signature, and the trace size.
pub struct Job {
    pub name: &'static str,
    pub prover: Air,
    pub trace: TraceTable,
    pub verifier: Air,
    pub blowup: usize,
    pub queries: usize,
    pub per_iteration: usize,
    pub per_draw: usize,
    pub rows: usize,
    pub columns: usize,
}

/// Byte i of the representative key seed.
pub open spec fn key_byte(i: nat) -> u8 {
    ((i * 101 + 7) % 256) as u8
}

/// Byte i of the representative message.
pub open spec fn mu_byte(i: nat) -> u8 {
    ((i * 59 + 3) % 256) as u8
}

fn affine_bytes(count: usize, mul: usize, add: usize) -> (r: Vec<u8>)
    requires
        mul < 256,
        add < 256,
        count < 256,
    ensures
        r@.len() == count,
        forall|i: int| 0 <= i < count ==> #[trigger] r@[i] == ((i * mul + add) % 256) as u8,
{
    let mut r: Vec<u8> = Vec::new();
    let mut i: usize = 0;
    while i < count
        invariant
            i <= count,
            count < 256,
            mul < 256,
            add < 256,
            r@.len() == i,
            forall|j: int| 0 <= j < i ==> #[trigger] r@[j] == ((j * mul + add) % 256) as u8,
        decreases count - i,
    {
        proof {
            assert(i * mul <= 255 * 255) by (nonlinear_arith)
                requires i < 256, mul < 256;
        }
        r.push(((i * mul + add) % 256) as u8);
        i = i + 1;
    }
    r
}

/// The input of the seed derivation: the key seed, a zero randomizer and
/// the message representative.
pub open spec fn spec_seed_input() -> Seq<u8> {
    Seq::new(KEY_BYTES as nat, |i: int| key_byte(i as nat))
        + Seq::new(RANDOMIZER_BYTES as nat, |i: int| 0u8)
        + Seq::new(MU_BYTES as nat, |i: int| mu_byte(i as nat))
}

/// The input of the seed derivation with the zero randomizer pinned.
pub fn seed_derivation_input() -> (input: Vec<u8>)
    ensures
        input@ == spec_seed_input(),
{
    let key = affine_bytes(KEY_BYTES, 101, 7);
    let mu = affine_bytes(MU_BYTES, 59, 3);
    let mut input: Vec<u8> = Vec::new();
    let mut i: usize = 0;
    while i < KEY_BYTES + RANDOMIZER_BYTES + MU_BYTES
        invariant
            i <= KEY_BYTES + RANDOMIZER_BYTES + MU_BYTES,
            key@.len() == KEY_BYTES,
            mu@.len() == MU_BYTES,
            forall|j: int| 0 <= j < KEY_BYTES ==> #[trigger] key@[j] == key_byte(j as nat),
            forall|j: int| 0 <= j < MU_BYTES ==> #[trigger] mu@[j] == mu_byte(j as nat),
            input@ == spec_seed_input().take(i as int),
        decreases KEY_BYTES + RANDOMIZER_BYTES + MU_BYTES - i,
    {
        let b = if i < KEY_BYTES { key[i] } else if i < KEY_BYTES + RANDOMIZER_BYTES { 0u8 } else { mu[i - KEY_BYTES - RANDOMIZER_BYTES] };
        input.push(b);
        i = i + 1;
        assert(input@ =~= spec_seed_input().take(i as int));
    }
    assert(spec_seed_input().take(i as int) =~= spec_seed_input());
    input
}

/// The private seed of the signing attempt: SHAKE256 of the seed derivation
/// input, sixty four bytes.
pub fn rho_pp() -> (out: Vec<u8>)
    ensures
        out@ == spec_shake256(spec_seed_input(), 64),
        out@.len() == 64,
{
    let input = seed_derivation_input();
    shake256(&input, 64)
}

/// One xorshift step on a word.
pub open spec fn xorshift(s: u64) -> u64 {
    let a = s ^ (s << 13u64);
    let b = a ^ (a >> 7u64);
    b ^ (b << 17u64)
}

/// The xorshift state after k steps from a seed with its low bit set.
pub open spec fn xs_state(seed: u64, k: nat) -> u64
    decreases k,
{
    if k == 0 { seed | 1 } else { xorshift(xs_state(seed, (k - 1) as nat)) }
}

fn xorshift_step(s: u64) -> (r: u64)
    ensures
        r == xorshift(s),
{
    let a = s ^ (s << 13u64);
    let b = a ^ (a >> 7u64);
    b ^ (b << 17u64)
}

/// A sequence of xorshift draws reduced below the modulus.
pub fn reduced_sequence(count: usize, seed: u64) -> (out: Vec<u64>)
    ensures
        out@.len() == count,
        forall|k: int| 0 <= k < count ==> #[trigger] out@[k] == xs_state(seed, (k + 1) as nat) % Q,
{
    let mut state = seed | 1;
    let mut out: Vec<u64> = Vec::new();
    let mut k: usize = 0;
    while k < count
        invariant
            k <= count,
            state == xs_state(seed, k as nat),
            out@.len() == k,
            forall|j: int| 0 <= j < k ==> #[trigger] out@[j] == xs_state(seed, (j + 1) as nat) % Q,
        decreases count - k,
    {
        state = xorshift_step(state);
        out.push(state % Q);
        k = k + 1;
    }
    out
}

/// A sequence of pairs of consecutive xorshift draws reduced below the
/// modulus.
pub fn reduced_pairs(count: usize, seed: u64) -> (out: Vec<(u64, u64)>)
    requires
        2 * count <= usize::MAX,
    ensures
        out@.len() == count,
        forall|k: int| 0 <= k < count ==> #[trigger] out@[k]
            == (xs_state(seed, (2 * k + 1) as nat) % Q, xs_state(seed, (2 * k + 2) as nat) % Q),
{
    let mut state = seed | 1;
    let mut out: Vec<(u64, u64)> = Vec::new();
    let mut k: usize = 0;
    while k < count
        invariant
            k <= count,
            state == xs_state(seed, (2 * k) as nat),
            out@.len() == k,
            forall|j: int| 0 <= j < k ==> #[trigger] out@[j]
                == (xs_state(seed, (2 * j + 1) as nat) % Q, xs_state(seed, (2 * j + 2) as nat) % Q),
        decreases count - k,
    {
        state = xorshift_step(state);
        let first = state % Q;
        state = xorshift_step(state);
        let second = state % Q;
        proof {
            assert(xs_state(seed, (2 * k + 1) as nat) == xorshift(xs_state(seed, (2 * k) as nat)));
            assert(xs_state(seed, (2 * k + 2) as nat) == xorshift(xs_state(seed, (2 * k + 1) as nat)));
        }
        out.push((first, second));
        k = k + 1;
    }
    out
}


/// The job fields every job fixes: the proof parameters, the runs per
/// iteration and per signature, and the trace size.
pub open spec fn job_shape(job: Job, blowup: nat, queries: nat, per_iteration: nat, per_draw: nat) -> bool {
    &&& job.blowup == blowup
    &&& job.queries == queries
    &&& job.per_iteration == per_iteration
    &&& job.per_draw == per_draw
    &&& job.rows == job.trace.spec_length()
    &&& job.columns == job.trace.spec_width()
}

/// The output of a one block SHAKE256 squeeze of a message over some
/// permutations.
pub open spec fn shake256_stream(message: Seq<u8>, perms: nat) -> Seq<u8> {
    crate::sponge::squeeze_bytes(crate::sponge::sponge_start(crate::sponge::SHAKE256_RATE as nat, message),
        (crate::sponge::SHAKE256_RATE / 8) as nat, perms)
}

fn sponge_job(name: &'static str, message: &[u8], perms: usize, per_iteration: usize, per_draw: usize) -> (job: Job)
    requires
        message@.len() < crate::sponge::SHAKE256_RATE,
        perms == 1 || perms == 8,
    ensures
        job_shape(job, 32, 32, per_iteration as nat, per_draw as nat),
        job.name == name,
        crate::sponge::describes_sponge(job.prover, crate::sponge::SHAKE256_RATE as nat, perms as nat, message@,
            shake256_stream(message@, perms as nat)),
        crate::sponge::describes_sponge(job.verifier, crate::sponge::SHAKE256_RATE as nat, perms as nat, message@,
            shake256_stream(message@, perms as nat)),
{
    proof {
        assert(is_pow2((perms * 32) as nat)) by {
            reveal_with_fuel(is_pow2, 9);
        }
        assert(perms > 0 ==> (perms - 1) * 136 + 136 <= perms * 136) by (nonlinear_arith)
            requires perms == 1 || perms == 8;
        crate::sponge::lemma_squeeze_len(crate::sponge::sponge_start(136, message@), 17, perms as nat);
        assert(perms * (8 * 17) == perms * 136);
    }
    let instance = crate::sponge::shake_trace(crate::sponge::SHAKE256_RATE, perms, message);
    let verifier = crate::sponge::shake_air(crate::sponge::SHAKE256_RATE, perms, message, &instance.output);
    let rows = instance.trace.length();
    let columns = instance.trace.width();
    Job {
        name,
        prover: instance.air,
        trace: instance.trace,
        verifier,
        blowup: 32,
        queries: 32,
        per_iteration,
        per_draw,
        rows,
        columns,
    }
}

/// The seed derivation job: one SHAKE256 block over the seed derivation
/// input with the zero randomizer, once per signature.
pub fn seed_derivation_job() -> (job: Job)
    ensures
        job_shape(job, 32, 32, 0, 1),
        crate::sponge::describes_sponge(job.prover, crate::sponge::SHAKE256_RATE as nat, 1, spec_seed_input(),
            shake256_stream(spec_seed_input(), 1)),
        crate::sponge::describes_sponge(job.verifier, crate::sponge::SHAKE256_RATE as nat, 1, spec_seed_input(),
            shake256_stream(spec_seed_input(), 1)),
{
    let input = seed_derivation_input();
    sponge_job("seed derivation rho_pp, zero randomizer pinned", &input, 1, 0, 1)
}

/// The input of the mask expansion: the private seed and a zero counter.
pub open spec fn spec_mask_seed() -> Seq<u8> {
    spec_shake256(spec_seed_input(), 64) + seq![0u8, 0u8]
}

/// The mask expansion job: SHAKE256 squeezed over the permutations the
/// mask bytes of a response polynomial need, rounded up to a power of two,
/// once per response polynomial of an iteration.
pub fn mask_expansion_job() -> (job: Job)
    ensures
        job_shape(job, 32, 32, MATRIX_L as nat, 0),
        crate::sponge::describes_sponge(job.prover, crate::sponge::SHAKE256_RATE as nat, 8, spec_mask_seed(),
            shake256_stream(spec_mask_seed(), 8)),
        crate::sponge::describes_sponge(job.verifier, crate::sponge::SHAKE256_RATE as nat, 8, spec_mask_seed(),
            shake256_stream(spec_mask_seed(), 8)),
{
    let mut seed = rho_pp();
    seed.push(0);
    seed.push(0);
    assert(seed@ =~= spec_mask_seed());
    let blocks = (N * 20 / 8 + crate::sponge::SHAKE256_RATE - 1) / crate::sponge::SHAKE256_RATE;
    assert(blocks == 5);
    proof {
        reveal_with_fuel(next_pow2, 5);
    }
    let perms = crate::util::next_power_of_two(blocks);
    assert(perms == 8);
    sponge_job("mask expansion ExpandMask stream", &seed, perms, MATRIX_L, 0)
}


/// The representative coefficients of the transform job.
pub open spec fn transform_coeffs() -> Seq<u64> {
    Seq::new(N as nat, |k: int| xs_state(1364660645, (k + 1) as nat) % Q)
}

/// The transform job: the degree 256 transform of representative
/// coefficients, in bit reversed order, as often as an iteration runs
/// transforms. It needs a root of unity of order 256 from the search.
#[verifier::rlimit(30)]
pub fn transform_job() -> (job: Job)
    requires
        crate::ntt::has_root_q(N as nat),
    ensures
        job_shape(job, 8, 32, TRANSFORMS_PER_ITERATION as nat, 0),
        crate::ntt::describes_ntt(job.prover, N as nat, crate::ntt::spec_root_q(N as nat),
            crate::ntt::spec_layer_zero(transform_coeffs()),
            crate::ntt::ntt_output(crate::ntt::spec_layer_zero(transform_coeffs()), N as nat)),
        crate::ntt::describes_ntt(job.verifier, N as nat, crate::ntt::spec_root_q(N as nat),
            crate::ntt::spec_layer_zero(transform_coeffs()),
            crate::ntt::ntt_output(crate::ntt::spec_layer_zero(transform_coeffs()), N as nat)),
{
    let coeffs = reduced_sequence(N, 1364660645);
    assert(coeffs@ =~= transform_coeffs());
    let layer0 = crate::ntt::to_layer_zero(&coeffs);
    proof {
        reveal_with_fuel(is_pow2, 12);
        reveal_with_fuel(crate::util::log2, 10);
        assert(is_pow2(256));
        assert(crate::util::log2(256) == 8);
        assert(is_pow2(1024));
        crate::ntt::lemma_trailing_zeros_pow2(256);
        assert(crate::ntt::trailing_zeros(256) == 8);
        assert(two_pow(8) == 256) by { reveal_with_fuel(two_pow, 9); }
        assert forall|i: int| 0 <= i < 256 implies layer0@[i] < Q by {
            crate::ntt::lemma_bit_rev_bound(i as nat, 8);
        }
        assert(crate::ntt::ntt_fits(256));
    }
    let instance = crate::ntt::ntt_trace(&layer0);
    let verifier = crate::ntt::ntt_air(N, &instance.input, &instance.output);
    let rows = instance.trace.length();
    let columns = instance.trace.width();
    Job {
        name: "number theoretic transform, degree 256",
        prover: instance.air,
        trace: instance.trace,
        verifier,
        blowup: 8,
        queries: 32,
        per_iteration: TRANSFORMS_PER_ITERATION,
        per_draw: 0,
        rows,
        columns,
    }
}


proof fn lemma_padded_pow2(n: nat)
    ensures
        is_pow2(padded_len(n)),
{
    crate::util::lemma_next_pow2(n);
    assert(is_pow2(2)) by {
        reveal_with_fuel(is_pow2, 3);
    }
}

/// The verifier's description has the trace's shape.
pub open spec fn verifier_fits(job: Job) -> bool {
    &&& job.verifier.wf()
    &&& job.verifier.spec_base_width() == job.trace.spec_width()
    &&& job.verifier.spec_length() == job.trace.spec_length()
}

/// Representative pair k of the pointwise products job.
pub open spec fn pointwise_pair(k: nat) -> (u64, u64) {
    (xs_state(2654435769, 2 * k + 1) % Q, xs_state(2654435769, 2 * k + 2) % Q)
}

/// The pointwise products job: representative pairs of reduced values
/// multiplied modulo the lattice prime, as many as one iteration
/// multiplies, once per iteration. Both descriptions are the products
/// piece's, the trace holds the filled rows and meets them.
pub fn pointwise_products_job() -> (job: Job)
    ensures
        job_shape(job, 8, 32, 1, 0),
        verifier_fits(job),
        job.rows == padded_len(POINTWISE_PER_ITERATION as nat),
        crate::lattice::describes_modmul(job.prover, job.rows as nat),
        crate::lattice::describes_modmul(job.verifier, job.rows as nat),
        forall|r: int| 0 <= r < POINTWISE_PER_ITERATION ==> crate::lattice::modmul_row_filled(
            #[trigger] job.trace.spec_row(r), 0, pointwise_pair(r as nat).0 % Q, pointwise_pair(r as nat).1 % Q),
        forall|r: int| POINTWISE_PER_ITERATION <= r < job.rows ==> crate::lattice::modmul_row_filled(
            #[trigger] job.trace.spec_row(r), 0, 0, 0),
        job.prover.spec_satisfied(&job.trace),
        job.verifier.spec_satisfied(&job.trace),
{
    let inputs = reduced_pairs(POINTWISE_PER_ITERATION, 2654435769);
    proof {
        assert(two_pow(14) == 16384) by { reveal_with_fuel(two_pow, 15); }
        crate::util::lemma_next_pow2_bound(POINTWISE_PER_ITERATION as nat, 14);
        lemma_padded_pow2(POINTWISE_PER_ITERATION as nat);
        let w = crate::lattice::WIDTH as nat;
        let np = next_pow2(POINTWISE_PER_ITERATION as nat);
        assert(w * np <= w * 16384) by (nonlinear_arith)
            requires np <= 16384;
    }
    let batch = crate::lattice::modmul_batch(&inputs);
    let length = batch.trace.length();
    let verifier = crate::lattice::modmul_air(length);
    let columns = batch.trace.width();
    proof {
        assert forall|r: int| 0 <= r < POINTWISE_PER_ITERATION implies inputs@[r] == #[trigger] pointwise_pair(r as nat) by {}
        crate::air::lemma_same_rules_satisfied(&batch.air, &verifier, &batch.trace, crate::lattice::RULES as nat,
            |k: nat| crate::lattice::modmul_degree(k), |k: nat, row: Seq<crate::field::Felt>| crate::lattice::modmul_rule(0, k, row));
    }
    Job {
        name: "transform domain pointwise products, A y and c s1 and c s2",
        prover: batch.air,
        trace: batch.trace,
        verifier,
        blowup: 8,
        queries: 32,
        per_iteration: 1,
        per_draw: 0,
        rows: length,
        columns,
    }
}

fn decompose_job(name: &'static str, seed: u64) -> (job: Job)
    ensures
        job_shape(job, 8, 32, 1, 0),
        verifier_fits(job),
        job.rows == padded_len(COMMITMENT_COEFFS as nat),
        job.name == name,
        decompose_job_holds(job, seed),
{
    let coeffs = reduced_sequence(COMMITMENT_COEFFS, seed);
    proof {
        assert(two_pow(11) == 2048) by { reveal_with_fuel(two_pow, 12); }
        crate::util::lemma_next_pow2_bound(COMMITMENT_COEFFS as nat, 11);
        lemma_padded_pow2(COMMITMENT_COEFFS as nat);
        let w = crate::decompose::WIDTH as nat;
        let np = next_pow2(COMMITMENT_COEFFS as nat);
        assert(w * np <= w * 2048) by (nonlinear_arith)
            requires np <= 2048;
    }
    let batch = crate::decompose::decompose_batch(&coeffs);
    let length = batch.trace.length();
    let verifier = crate::decompose::decompose_air(length);
    let columns = batch.trace.width();
    proof {
        crate::air::lemma_same_rules_satisfied(&batch.air, &verifier, &batch.trace, crate::decompose::RULES as nat,
            |k: nat| crate::decompose::decompose_degree(k), |k: nat, row: Seq<crate::field::Felt>| crate::decompose::decompose_rule(0, k, row));
    }
    Job {
        name,
        prover: batch.air,
        trace: batch.trace,
        verifier,
        blowup: 8,
        queries: 32,
        per_iteration: 1,
        per_draw: 0,
        rows: length,
        columns,
    }
}

/// What a decomposition job over representative coefficients from a seed
/// holds: both descriptions are the decomposition piece's, the trace holds
/// the filled rows, and the verifier's description is met exactly when the
/// prover's is.
pub open spec fn decompose_job_holds(job: Job, seed: u64) -> bool {
    &&& crate::decompose::describes_decompose(job.prover, job.rows as nat)
    &&& crate::decompose::describes_decompose(job.verifier, job.rows as nat)
    &&& forall|r: int| 0 <= r < COMMITMENT_COEFFS ==> crate::decompose::decompose_row_filled(
        #[trigger] job.trace.spec_row(r), 0, ((xs_state(seed, (r + 1) as nat) % Q) % Q) as nat)
    &&& forall|r: int| COMMITMENT_COEFFS <= r < job.rows ==> crate::decompose::decompose_row_filled(
        #[trigger] job.trace.spec_row(r), 0, 0)
    &&& job.verifier.spec_satisfied(&job.trace) == job.prover.spec_satisfied(&job.trace)
}

/// The commitment high bits job: the high parts of representative
/// commitment coefficients, once per iteration.
pub fn high_bits_job() -> (job: Job)
    ensures
        job_shape(job, 8, 32, 1, 0),
        verifier_fits(job),
        job.rows == padded_len(COMMITMENT_COEFFS as nat),
        decompose_job_holds(job, 12648430),
{
    decompose_job("commitment high bits w1 = HighBits(w)", 12648430)
}

/// The low bits job: the low parts of representative coefficients, once per
/// iteration.
pub fn low_bits_job() -> (job: Job)
    ensures
        job_shape(job, 8, 32, 1, 0),
        verifier_fits(job),
        job.rows == padded_len(COMMITMENT_COEFFS as nat),
        decompose_job_holds(job, 305419896),
{
    decompose_job("low bits r0 = LowBits(w - c s2)", 305419896)
}

/// The representative high parts: seven times the index, cut to four bits.
pub open spec fn spec_highs() -> Seq<u8> {
    Seq::new(COMMITMENT_COEFFS as nat, |i: int| (((i * 7) % 256) as u8) & 15)
}

fn highs() -> (r: Vec<u8>)
    ensures
        r@ == spec_highs(),
{
    let mut r: Vec<u8> = Vec::new();
    let mut i: usize = 0;
    while i < COMMITMENT_COEFFS
        invariant
            i <= COMMITMENT_COEFFS,
            r@ == spec_highs().take(i as int),
        decreases COMMITMENT_COEFFS - i,
    {
        r.push((((i * 7) % 256) as u8) & 15);
        i = i + 1;
        assert(r@ =~= spec_highs().take(i as int));
    }
    assert(spec_highs().take(i as int) =~= spec_highs());
    r
}

/// The packing job: the representative high parts packed two to a byte,
/// once per iteration.
pub fn w1_encode_job() -> (job: Job)
    ensures
        job_shape(job, 8, 32, 1, 0),
        verifier_fits(job),
        job.rows == padded_len((COMMITMENT_COEFFS / 2) as nat),
        crate::encode::describes_encode(job.prover, job.rows as nat),
        crate::encode::describes_encode(job.verifier, job.rows as nat),
        forall|r: int| 0 <= r < COMMITMENT_COEFFS / 2 ==> crate::encode::encode_row_filled(
            #[trigger] job.trace.spec_row(r), 0, spec_highs()[2 * r], spec_highs()[2 * r + 1]),
        forall|r: int| COMMITMENT_COEFFS / 2 <= r < job.rows ==> crate::encode::encode_row_filled(
            #[trigger] job.trace.spec_row(r), 0, 0, 0),
        job.prover.spec_satisfied(&job.trace),
        job.verifier.spec_satisfied(&job.trace),
{
    let h = highs();
    proof {
        assert(two_pow(10) == 1024) by { reveal_with_fuel(two_pow, 11); }
        crate::util::lemma_next_pow2_bound(((COMMITMENT_COEFFS + 1) / 2) as nat, 10);
        lemma_padded_pow2((COMMITMENT_COEFFS / 2) as nat);
    }
    let batch = crate::encode::encode_batch(&h);
    let length = batch.trace.length();
    let verifier = crate::encode::encode_air(length);
    let columns = batch.trace.width();
    proof {
        assert(crate::encode::padded_highs(h@) == h@);
        crate::air::lemma_same_rules_satisfied(&batch.air, &verifier, &batch.trace, crate::encode::RULES as nat,
            |k: nat| crate::encode::encode_degree(k), |k: nat, row: Seq<crate::field::Felt>| crate::encode::encode_rule(0, k, row));
    }
    Job {
        name: "commitment high bit packing w1Encode",
        prover: batch.air,
        trace: batch.trace,
        verifier,
        blowup: 8,
        queries: 32,
        per_iteration: 1,
        per_draw: 0,
        rows: length,
        columns,
    }
}

/// Representative centered coefficients below a bound: the index times a
/// factor reduced by the bound, negated modulo the prime at odd indices.
pub open spec fn centered(count: nat, factor: nat, bound: nat) -> Seq<u64> {
    Seq::new(count, |i: int| {
        let m = ((i * factor) % (bound as int)) as u64;
        if i % 2 == 0 { m } else { (Q - m) as u64 }
    })
}

fn centered_values(count: usize, factor: u64, bound: u64) -> (r: Vec<u64>)
    requires
        0 < bound <= Q,
        count <= 4096,
        factor < 4096,
    ensures
        r@ == centered(count as nat, factor as nat, bound as nat),
{
    let mut r: Vec<u64> = Vec::new();
    let mut i: usize = 0;
    while i < count
        invariant
            i <= count,
            count <= 4096,
            factor < 4096,
            0 < bound <= Q,
            r@ == centered(count as nat, factor as nat, bound as nat).take(i as int),
        decreases count - i,
    {
        proof {
            assert(i * factor <= 4096 * 4096) by (nonlinear_arith)
                requires i < 4096, factor < 4096;
        }
        let m = (i as u64 * factor) % bound;
        let v = if i % 2 == 0 { m } else { Q - m };
        r.push(v);
        i = i + 1;
        assert(r@ =~= centered(count as nat, factor as nat, bound as nat).take(i as int));
    }
    assert(centered(count as nat, factor as nat, bound as nat).take(i as int) =~= centered(count as nat, factor as nat, bound as nat));
    r
}

/// What a norm job over representative centered coefficients holds: both
/// descriptions are the norm piece's, the trace holds the filled rows, and
/// it meets both descriptions.
pub open spec fn norm_job_holds(job: Job, count: nat, factor: nat, bound: nat) -> bool {
    &&& crate::norm::describes_norm(job.prover, job.rows as nat)
    &&& crate::norm::describes_norm(job.verifier, job.rows as nat)
    &&& forall|r: int| 0 <= r < count ==> crate::norm::norm_row_filled(
        #[trigger] job.trace.spec_row(r), 0, (centered(count, factor, bound)[r] % Q) as nat)
    &&& forall|r: int| count <= r < job.rows ==> crate::norm::norm_row_filled(#[trigger] job.trace.spec_row(r), 0, 0)
    &&& job.prover.spec_satisfied(&job.trace)
    &&& job.verifier.spec_satisfied(&job.trace)
}

fn norm_job(name: &'static str, count: usize, factor: u64, bound: u64) -> (job: Job)
    requires
        0 < bound <= crate::norm::NORM_BOUND,
        count == RESPONSE_COEFFS || count == COMMITMENT_COEFFS,
        factor < 4096,
    ensures
        job_shape(job, 8, 32, 1, 0),
        verifier_fits(job),
        job.rows == padded_len(count as nat),
        job.name == name,
        norm_job_holds(job, count as nat, factor as nat, bound as nat),
{
    let coeffs = centered_values(count, factor, bound);
    proof {
        assert(two_pow(11) == 2048) by { reveal_with_fuel(two_pow, 12); }
        crate::util::lemma_next_pow2_bound(count as nat, 11);
        lemma_padded_pow2(count as nat);
        let w = crate::norm::WIDTH as nat;
        let np = next_pow2(count as nat);
        assert(w * np <= w * 2048) by (nonlinear_arith)
            requires np <= 2048;
    }
    let batch = crate::norm::norm_batch(&coeffs);
    let length = batch.trace.length();
    let verifier = crate::norm::norm_air(length);
    let columns = batch.trace.width();
    proof {
        assert forall|r: int| 0 <= r < count implies crate::norm::centered_magnitude(
            #[trigger] (coeffs@[r] % Q) as nat) < crate::norm::NORM_BOUND by {
            let m = ((r * factor) % (bound as int)) as u64;
            if r % 2 == 0 {
                vstd::arithmetic::div_mod::lemma_small_mod(m as nat, Q as nat);
            } else if m == 0 {
            } else {
                vstd::arithmetic::div_mod::lemma_small_mod((Q - m) as nat, Q as nat);
            }
        }
        crate::air::lemma_same_rules_satisfied(&batch.air, &verifier, &batch.trace, crate::norm::RULES as nat,
            |k: nat| crate::norm::norm_degree(k), |k: nat, row: Seq<crate::field::Felt>| crate::norm::norm_rule(0, k, row));
    }
    Job {
        name,
        prover: batch.air,
        trace: batch.trace,
        verifier,
        blowup: 8,
        queries: 32,
        per_iteration: 1,
        per_draw: 0,
        rows: length,
        columns,
    }
}

/// The response norm job: representative response coefficients below the
/// norm bound, once per iteration.
pub fn response_norm_job() -> (job: Job)
    ensures
        job_shape(job, 8, 32, 1, 0),
        verifier_fits(job),
        job.rows == padded_len(RESPONSE_COEFFS as nat),
        norm_job_holds(job, RESPONSE_COEFFS as nat, 37, crate::norm::NORM_BOUND as nat),
{
    norm_job("response infinity norm on z", RESPONSE_COEFFS, 37, crate::norm::NORM_BOUND)
}

/// The low bits norm job: representative low parts below the low part
/// bound, once per iteration.
pub fn low_bits_norm_job() -> (job: Job)
    ensures
        job_shape(job, 8, 32, 1, 0),
        verifier_fits(job),
        job.rows == padded_len(COMMITMENT_COEFFS as nat),
        norm_job_holds(job, COMMITMENT_COEFFS as nat, 29, (crate::decompose::GAMMA2 - crate::norm::BETA) as nat),
{
    norm_job("low bits magnitude bound on r0", COMMITMENT_COEFFS, 29, crate::decompose::GAMMA2 - crate::norm::BETA)
}


/// The input of the challenge hash: the message representative joined
/// with the packed representative high parts.
pub open spec fn spec_challenge_input() -> Seq<u8> {
    Seq::new(MU_BYTES as nat, |i: int| mu_byte(i as nat))
        + Seq::new((COMMITMENT_COEFFS / 2) as nat, |i: int| crate::encode::packed_byte(spec_highs()[2 * i], spec_highs()[2 * i + 1]))
}

/// The challenge absorb job: SHAKE256 absorbing the message representative
/// joined with the packed high parts, once per iteration.
pub fn challenge_absorb_job() -> (job: Job)
    ensures
        job_shape(job, 32, 32, 1, 0),
        crate::sponge::describes_absorb(job.prover, crate::sponge::SHAKE256_RATE as nat, spec_challenge_input(),
            crate::sponge::absorb_output_spec(crate::sponge::SHAKE256_RATE as nat, spec_challenge_input())),
        crate::sponge::describes_absorb(job.verifier, crate::sponge::SHAKE256_RATE as nat, spec_challenge_input(),
            crate::sponge::absorb_output_spec(crate::sponge::SHAKE256_RATE as nat, spec_challenge_input())),
{
    let mu = affine_bytes(MU_BYTES, 59, 3);
    let h = highs();
    let w1 = crate::encode::w1_encode(&h);
    let mut input = mu;
    let mut i: usize = 0;
    while i < w1.len()
        invariant
            i <= w1@.len(),
            w1@.len() == COMMITMENT_COEFFS / 2,
            h@ == spec_highs(),
            forall|j: int| 0 <= j < w1@.len() ==> #[trigger] w1@[j] == crate::encode::packed_byte(h@[2 * j], h@[2 * j + 1]),
            input@ == spec_challenge_input().take(MU_BYTES + i),
        decreases w1@.len() - i,
    {
        input.push(w1[i]);
        i = i + 1;
        assert(input@ =~= spec_challenge_input().take(MU_BYTES + i));
    }
    assert(spec_challenge_input().take(MU_BYTES + i) =~= spec_challenge_input());
    proof {
        reveal_with_fuel(next_pow2, 5);
        assert(crate::sponge::block_count(136, input@) == 7);
        assert(next_pow2(7) == 8);
        crate::sponge::lemma_lane_bytes_len(crate::sponge::perm(crate::sponge::absorb_state(136, input@, 6)), 17);
    }
    let instance = crate::sponge::absorb_trace(crate::sponge::SHAKE256_RATE, &input);
    let verifier = crate::sponge::absorb_air(crate::sponge::SHAKE256_RATE, &input, &instance.output);
    let rows = instance.trace.length();
    let columns = instance.trace.width();
    Job {
        name: "challenge hash absorb, mu joined with w1 encode",
        prover: instance.air,
        trace: instance.trace,
        verifier,
        blowup: 32,
        queries: 32,
        per_iteration: 1,
        per_draw: 0,
        rows,
        columns,
    }
}

/// The representative challenge seed.
pub open spec fn spec_ctilde() -> Seq<u8> {
    Seq::new(48, |i: int| ((i * 53 + 11) % 256) as u8)
}

/// The stream the challenge sampling job reads: SHAKE256 of the challenge
/// seed, two rate blocks.
pub open spec fn spec_ball_stream() -> Seq<u8> {
    spec_shake256(spec_ctilde(), crate::challenge_ball::BALL_BUFFER_BYTES as nat)
}

fn ball_stream() -> (r: Vec<u8>)
    ensures
        r@ == spec_ball_stream(),
        r@.len() == crate::challenge_ball::BALL_BUFFER_BYTES,
{
    let c = affine_bytes(48, 53, 11);
    assert(c@ =~= spec_ctilde());
    shake256(&c, crate::challenge_ball::BALL_BUFFER_BYTES)
}

/// The challenge sampling job over the stream of the representative seed,
/// once per iteration. The stream must be long enough for the sampling.
pub fn sample_in_ball_job() -> (job: Job)
    requires
        crate::challenge_ball::ball_completes(spec_ball_stream()),
    ensures
        job_shape(job, 8, 32, 1, 0),
        crate::challenge_ball::describes_ball(job.prover, job.trace.spec_length()),
        crate::challenge_ball::describes_ball(job.verifier, job.trace.spec_length()),
{
    let stream = ball_stream();
    proof {
        crate::challenge_ball::lemma_ball_scan_bound(stream@, 8, crate::challenge_ball::START as nat);
        let e = crate::challenge_ball::ball_scan(stream@, 8, crate::challenge_ball::START as nat)->0;
        assert(two_pow(9) == 512) by { reveal_with_fuel(two_pow, 10); }
        crate::util::lemma_next_pow2_bound((e - 8 + 1) as nat, 9);
        lemma_padded_pow2((e - 8 + 1) as nat);
    }
    let batch = crate::challenge_ball::ball_batch(&stream);
    let length = batch.trace.length();
    let verifier = crate::challenge_ball::ball_air(length);
    let columns = batch.trace.width();
    Job {
        name: "challenge ball sampling SampleInBall",
        prover: batch.air,
        trace: batch.trace,
        verifier,
        blowup: 8,
        queries: 32,
        per_iteration: 1,
        per_draw: 0,
        rows: length,
        columns,
    }
}

fn first_jobs() -> (jobs: Vec<Job>)
    ensures
        jobs@.len() == 2 + (if crate::ntt::has_root_q(N as nat) { 1nat } else { 0nat }),
        forall|k: int| 0 <= k < jobs@.len() ==> #[trigger] jobs@[k].per_draw == if k == 0 { 1nat } else { 0nat },
        jobs@[1].per_iteration == MATRIX_L,
        crate::ntt::has_root_q(N as nat) ==> jobs@[2].per_iteration == TRANSFORMS_PER_ITERATION,
{
    let mut jobs: Vec<Job> = Vec::new();
    jobs.push(seed_derivation_job());
    jobs.push(mask_expansion_job());
    if crate::ntt::has_root(N) {
        jobs.push(transform_job());
    }
    jobs
}

fn middle_jobs() -> (jobs: Vec<Job>)
    ensures
        jobs@.len() == 4,
        forall|k: int| 0 <= k < jobs@.len() ==> #[trigger] jobs@[k].per_draw == 0,
{
    let mut jobs: Vec<Job> = Vec::new();
    jobs.push(pointwise_products_job());
    jobs.push(high_bits_job());
    jobs.push(challenge_absorb_job());
    jobs.push(w1_encode_job());
    jobs
}

fn last_jobs() -> (jobs: Vec<Job>)
    ensures
        jobs@.len() == 3 + (if crate::challenge_ball::ball_completes(spec_ball_stream()) { 1nat } else { 0nat }),
        forall|k: int| 0 <= k < jobs@.len() ==> #[trigger] jobs@[k].per_draw == 0,
{
    let mut jobs: Vec<Job> = Vec::new();
    let stream = ball_stream();
    if crate::challenge_ball::ball_check(&stream) {
        jobs.push(sample_in_ball_job());
    }
    jobs.push(response_norm_job());
    jobs.push(low_bits_job());
    jobs.push(low_bits_norm_job());
    jobs
}

/// The jobs of one signing attempt, in order: the seed derivation, the mask
/// expansion, the transform where the root search finds a root of order 256,
/// the pointwise products, the high bits, the challenge absorb, the
/// packing, the challenge sampling where the stream lasts, the response
/// norm, the low bits and the low bits norm. Only the seed derivation runs
/// once per signature; every other job runs per iteration.
pub fn signing_jobs() -> (jobs: Vec<Job>)
    ensures
        jobs@.len() == 10 + (if crate::challenge_ball::ball_completes(spec_ball_stream()) { 1nat } else { 0nat }),
        forall|k: int| 0 <= k < jobs@.len() ==> #[trigger] jobs@[k].per_draw == if k == 0 { 1nat } else { 0nat },
        jobs@[1].per_iteration == MATRIX_L,
        jobs@[2].per_iteration == TRANSFORMS_PER_ITERATION,
{
    proof {
        crate::ntt::law_root_q_256_exists();
    }
    let mut jobs = first_jobs();
    let ghost a = jobs@;
    let mut middle = middle_jobs();
    let ghost b = middle@;
    jobs.append(&mut middle);
    let mut last = last_jobs();
    let ghost c = last@;
    jobs.append(&mut last);
    proof {
        assert(jobs@ =~= a + b + c);
        assert forall|k: int| 0 <= k < jobs@.len() implies #[trigger] jobs@[k].per_draw == if k == 0 { 1nat } else { 0nat } by {
            if k < a.len() {
                assert(jobs@[k] == a[k]);
            } else if k < a.len() + b.len() {
                assert(jobs@[k] == b[k - a.len()]);
            } else {
                assert(jobs@[k] == c[k - a.len() - b.len()]);
            }
        }
        assert(jobs@[1] == a[1]);
        if crate::ntt::has_root_q(N as nat) {
            assert(jobs@[2] == a[2]);
        }
    }
    jobs
}

} // verus!
