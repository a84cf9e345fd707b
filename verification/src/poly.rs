//! Polynomial transforms over the Goldilocks subgroups.
use vstd::prelude::*;
use crate::field::{Felt, root_of_unity, fadd, fmul, finv, fpow, p, TWO_ADICITY};
use crate::util::{is_pow2, log2, two_pow, log2_exact, lemma_two_pow_is_pow2, lemma_pow2_log2, lemma_shift_is_pow, lemma_log2_bound};

verus! {

/// The value of a coefficient vector at a point, constant term first.
pub open spec fn poly_eval(coeffs: Seq<Felt>, x: nat) -> nat
    decreases coeffs.len(),
{
    if coeffs.len() == 0 {
        0
    } else {
        fadd(fmul(poly_eval(coeffs.skip(1), x), x), coeffs[0].val())
    }
}

/// The product of the first values of a sequence.
pub open spec fn prefix_product(values: Seq<Felt>, i: nat) -> nat
    decreases i,
{
    if i == 0 || i > values.len() {
        1
    } else {
        fmul(prefix_product(values, (i - 1) as nat), values[i - 1].val())
    }
}

/// A starting value multiplied in turn by the values after position i, from the
/// last back to position i plus one.
pub open spec fn suffix_scaled(values: Seq<Felt>, init: nat, i: nat) -> nat
    decreases values.len() - i,
{
    if i + 1 >= values.len() {
        init
    } else {
        fmul(suffix_scaled(values, init, i + 1), values[(i + 1) as int].val())
    }
}

/// The generator of the subgroup of order two to the log.
pub open spec fn subgroup_root(log: u32) -> nat {
    fpow(crate::field::GENERATOR as nat, (((crate::field::MODULUS - 1) as u64) >> log) as nat)
}

/// The coefficients followed by zeros up to a length.
pub open spec fn padded_coeffs(coeffs: Seq<Felt>, size: nat) -> Seq<Felt> {
    Seq::new(size, |i: int| if i < coeffs.len() { coeffs[i] } else { Felt::from_val(0) })
}

/// Each coefficient times the matching power of the shift.
pub open spec fn shifted_coeffs(coeffs: Seq<Felt>, shift: nat) -> Seq<Felt> {
    Seq::new(coeffs.len(), |i: int| Felt::from_val(fmul(coeffs[i].val(), fpow(shift, i as nat))))
}

/// The coefficients interpolated from evaluations over the subgroup of their
/// length: the transform under the inverse root, scaled by the inverse length.
pub open spec fn spec_interpolate(evals: Seq<Felt>) -> Seq<Felt> {
    let n = evals.len();
    let t = spec_ntt(evals, finv(subgroup_root(log2(n) as u32)));
    Seq::new(n, |i: int| Felt::from_val(fmul(t[i].val(), finv(n % p()))))
}

/// The evaluations of coefficients over the subgroup of the given log size:
/// the transform of the zero padded coefficients.
pub open spec fn spec_evaluate_subgroup(coeffs: Seq<Felt>, log_size: u32) -> Seq<Felt> {
    spec_ntt(padded_coeffs(coeffs, two_pow(log_size as nat)), subgroup_root(log_size))
}

/// The evaluations of coefficients over the shifted subgroup: the transform of
/// the zero padded coefficients each scaled by the power of the shift.
pub open spec fn spec_evaluate_coset(coeffs: Seq<Felt>, log_size: u32, shift: nat) -> Seq<Felt> {
    spec_ntt(shifted_coeffs(padded_coeffs(coeffs, two_pow(log_size as nat)), shift), subgroup_root(log_size))
}

/// The low bits of an index in reverse order: bit t of the index becomes
/// bit bits less one less t of the result.
pub open spec fn rev_bits(i: nat, bits: nat) -> nat
    decreases bits,
{
    if bits == 0 {
        0
    } else {
        (i % 2) * two_pow((bits - 1) as nat) + rev_bits(i / 2, (bits - 1) as nat)
    }
}

/// The values reordered by bit reversed index over the logarithm of their
/// length.
pub open spec fn bitrev_perm(v: Seq<Felt>) -> Seq<Felt> {
    Seq::new(v.len(), |i: int| v[rev_bits(i as nat, log2(v.len())) as int])
}

/// A reversed index stays below two to the number of bits.
pub proof fn lemma_rev_bits_bound(i: nat, bits: nat)
    ensures
        rev_bits(i, bits) < two_pow(bits),
    decreases bits,
{
    if bits > 0 {
        lemma_rev_bits_bound(i / 2, (bits - 1) as nat);
        let h = two_pow((bits - 1) as nat);
        assert((i % 2) * h <= h) by (nonlinear_arith)
            requires i % 2 <= 1;
    }
}

/// The twiddle of position k of a block: the step raised to k, multiplied
/// up from one.
pub open spec fn twiddle_at(step: nat, k: nat) -> nat
    decreases k,
{
    if k == 0 { 1 } else { fmul(twiddle_at(step, (k - 1) as nat), step) }
}

/// One butterfly stage over blocks of the given length: in each block the
/// lower half gets its value plus the twiddled upper value, the upper half
/// the lower value less the twiddled upper value.
pub open spec fn butterfly_stage(v: Seq<Felt>, len: nat, step: nat) -> Seq<Felt> {
    let half = len / 2;
    Seq::new(v.len(), |i: int| {
        let k = (i % (len as int)) as nat;
        if k < half {
            Felt::from_val(fadd(v[i].val(), fmul(v[i + half].val(), twiddle_at(step, k))))
        } else {
            Felt::from_val(crate::field::fsub(v[i - half].val(), fmul(v[i].val(), twiddle_at(step, (k - half) as nat))))
        }
    })
}

/// The values after the first s butterfly stages, stage t over blocks of
/// two to the t with the step omega to the size over the block length.
pub open spec fn ntt_stages(v: Seq<Felt>, omega: nat, n: nat, s: nat) -> Seq<Felt>
    decreases s,
{
    if s == 0 {
        v
    } else {
        let len = two_pow(s);
        butterfly_stage(ntt_stages(v, omega, n, (s - 1) as nat), len, fpow(omega, n / len))
    }
}

/// The transform of a vector of power of two length: the bit reversal
/// reordering, then every butterfly stage.
pub open spec fn spec_ntt(v: Seq<Felt>, omega: nat) -> Seq<Felt> {
    ntt_stages(bitrev_perm(v), omega, v.len(), log2(v.len()))
}

/// The index with its low log_n bits reversed, built up bit by bit from
/// the lowest.
fn reverse_index(i: usize, log_n: usize, n: usize) -> (r: usize)
    requires
        n as nat == two_pow(log_n as nat),
    ensures
        r as nat == rev_bits(i as nat, log_n as nat),
        r < n,
{
    let mut r: usize = 0;
    let mut x: usize = i;
    let mut t: usize = 0;
    while t < log_n
        invariant
            t <= log_n,
            n as nat == two_pow(log_n as nat),
            r < two_pow(t as nat),
            r * two_pow((log_n - t) as nat) + rev_bits(x as nat, (log_n - t) as nat) == rev_bits(i as nat, log_n as nat),
        decreases log_n - t,
    {
        let ghost k = (log_n - t) as nat;
        proof {
            crate::util::lemma_two_pow_monotone((t + 1) as nat, log_n as nat);
            assert(two_pow(k) == 2 * two_pow((k - 1) as nat));
            assert(r * two_pow(k) == (2 * r) * two_pow((k - 1) as nat)) by (nonlinear_arith)
                requires two_pow(k) == 2 * two_pow((k - 1) as nat);
            assert(((2 * r + x % 2) * two_pow((k - 1) as nat)) == (2 * r) * two_pow((k - 1) as nat) + (x % 2) * two_pow((k - 1) as nat)) by (nonlinear_arith);
        }
        r = 2 * r + x % 2;
        x = x / 2;
        t = t + 1;
    }
    proof {
        assert(two_pow(0) == 1);
        assert(log_n - t == 0);
        assert(rev_bits(x as nat, 0) == 0);
        assert(r * two_pow(0) == r);
        crate::util::lemma_two_pow_monotone(t as nat, log_n as nat);
    }
    r
}

/// The values reordered by bit reversed index.
fn bit_reverse(values: &Vec<Felt>, n: usize, log_n: usize) -> (out: Vec<Felt>)
    requires
        values@.len() == n,
        n as nat == two_pow(log_n as nat),
    ensures
        out@ == bitrev_perm(values@),
        forall|i: int| 0 <= i < n ==> #[trigger] out@[i].val() < p(),
{
    proof {
        crate::util::lemma_two_pow_is_pow2(log_n as nat);
    }
    let mut out: Vec<Felt> = Vec::new();
    let mut i: usize = 0;
    while i < n
        invariant
            i <= n,
            values@.len() == n,
            n as nat == two_pow(log_n as nat),
            log2(n as nat) == log_n,
            out@.len() == i,
            forall|k: int| 0 <= k < i ==> #[trigger] out@[k] == bitrev_perm(values@)[k],
            forall|k: int| 0 <= k < i ==> #[trigger] out@[k].val() < p(),
        decreases n - i,
    {
        let j = reverse_index(i, log_n, n);
        let v = values[j];
        // reading the word shows that the element is below the modulus
        let _word = v.to_u64();
        out.push(v);
        i = i + 1;
    }
    assert(out@ =~= bitrev_perm(values@));
    out
}

/// Runs the butterflies of one stage, block by block.
fn butterfly_pass(values: &mut Vec<Felt>, n: usize, len: usize, step: Felt)
    requires
        old(values)@.len() == n,
        len >= 2,
        len % 2 == 0,
        len <= n,
        n % len == 0,
    ensures
        final(values)@ == butterfly_stage(old(values)@, len as nat, step.val()),
{
    let ghost start = values@;
    let ghost target = butterfly_stage(start, len as nat, step.val());
    let half = len / 2;
    let mut base: usize = 0;
    let ghost mut m: int = 0;
    while base < n && len <= n - base
        invariant
            values@.len() == n,
            half == len / 2,
            len >= 2,
            len % 2 == 0,
            len <= n,
            n % len == 0,
            base == m * len,
            0 <= m,
            base <= n,
            target == butterfly_stage(start, len as nat, step.val()),
            start.len() == n,
            forall|i: int| 0 <= i < base ==> #[trigger] values@[i] == target[i],
            forall|i: int| base <= i < n ==> #[trigger] values@[i] == start[i],
        decreases n - base,
    {
        let mut twiddle = Felt::one();
        let mut k: usize = 0;
        while k < half
            invariant
                values@.len() == n,
                half == len / 2,
                len >= 2,
                len % 2 == 0,
                base + len <= n,
                base == m * len,
                0 <= m,
                k <= half,
                twiddle.val() == twiddle_at(step.val(), k as nat),
                target == butterfly_stage(start, len as nat, step.val()),
                start.len() == n,
                forall|i: int| 0 <= i < base ==> #[trigger] values@[i] == target[i],
                forall|i: int| base <= i < base + k ==> #[trigger] values@[i] == target[i],
                forall|i: int| base + half <= i < base + half + k ==> #[trigger] values@[i] == target[i],
                forall|i: int| base + k <= i < base + half ==> #[trigger] values@[i] == start[i],
                forall|i: int| base + half + k <= i < n ==> #[trigger] values@[i] == start[i],
            decreases half - k,
        {
            let low = values[base + k];
            let high = values[base + k + half].mul(twiddle);
            let s0 = low.add(high);
            let s1 = low.sub(high);
            proof {
                let i0 = (base + k) as int;
                let i1 = (base + k + half) as int;
                vstd::arithmetic::div_mod::lemma_mod_multiples_vanish(m, k as int, len as int);
                vstd::arithmetic::div_mod::lemma_mod_multiples_vanish(m, (k + half) as int, len as int);
                vstd::arithmetic::div_mod::lemma_small_mod(k as nat, len as nat);
                vstd::arithmetic::div_mod::lemma_small_mod((k + half) as nat, len as nat);
                assert(m * len + k == i0);
                assert(i0 % (len as int) == k);
                assert(i1 % (len as int) == k + half);
                let e0 = target[i0];
                let e1 = target[i1];
                assert(e0 == Felt::from_val(fadd(start[i0].val(), fmul(start[i0 + half].val(), twiddle_at(step.val(), k as nat)))));
                assert(e1 == Felt::from_val(crate::field::fsub(start[i1 - half].val(), fmul(start[i1].val(), twiddle_at(step.val(), k as nat)))));
                Felt::lemma_from_val(fadd(start[i0].val(), fmul(start[i0 + half].val(), twiddle_at(step.val(), k as nat))));
                Felt::lemma_from_val(crate::field::fsub(start[i1 - half].val(), fmul(start[i1].val(), twiddle_at(step.val(), k as nat))));
                assert(low == start[i0]);
                assert(values@[i1] == start[i1]);
                assert(e0.val() == s0.val());
                assert(e1.val() == s1.val());
                Felt::lemma_val_injective(e0, s0);
                Felt::lemma_val_injective(e1, s1);
            }
            let ghost before = values@;
            values.set(base + k, s0);
            values.set(base + k + half, s1);
            proof {
                assert(values@[(base + k) as int] == target[(base + k) as int]);
                assert(values@[(base + k + half) as int] == target[(base + k + half) as int]);
                assert forall|i: int| base <= i < base + k + 1 implies #[trigger] values@[i] == target[i] by {
                    if i < base + k {
                        assert(values@[i] == before[i]);
                    }
                }
                assert forall|i: int| base + half <= i < base + half + k + 1 implies #[trigger] values@[i] == target[i] by {
                    if i < base + half + k {
                        assert(values@[i] == before[i]);
                    }
                }
            }
            twiddle = twiddle.mul(step);
            k = k + 1;
        }
        proof {
            assert forall|i: int| 0 <= i < base + len implies #[trigger] values@[i] == target[i] by {
                if i >= base && i < base + half {
                } else if i >= base + half {
                }
            }
        }
        base = base + len;
        proof {
            m = m + 1;
            assert(base == m * len) by (nonlinear_arith)
                requires base == (m - 1) * len + len;
        }
    }
    proof {
        if base < n {
            assert(n - base < len);
            assert(false) by (nonlinear_arith)
                requires base == m * len, n % len == 0, base < n, n - base < len, len > 0, m >= 0;
        }
        assert(values@ =~= target);
    }
}

/// In place radix two transform: the values are reordered by bit reversed
/// index, then each stage runs butterflies over blocks of twice the length
/// of the one before, with the twiddles powers of omega to the size over
/// the block length.
pub fn ntt(values: &mut Vec<Felt>, omega: Felt)
    requires
        is_pow2(old(values)@.len()),
    ensures
        final(values)@.len() == old(values)@.len(),
        final(values)@ == spec_ntt(old(values)@, omega.val()),
        old(values)@.len() == 1 || fpow(omega.val(), old(values)@.len() / 2) == p() - 1 ==> forall|k: int|
            0 <= k < old(values)@.len() ==> #[trigger] final(values)@[k].val() == poly_eval(old(values)@, fpow(omega.val(), k as nat)),
{
    let n = values.len();
    let log_n = log2_exact(n) as usize;
    proof {
        lemma_log2_bound(n as nat);
        lemma_shift_is_pow(log_n);
    }
    proof {
        crate::util::lemma_two_pow_is_pow2(log_n as nat);
    }
    let reordered_values = bit_reverse(values, n, log_n);
    *values = reordered_values;
    let ghost reordered = values@;
    let mut s: usize = 1;
    while s <= log_n
        invariant
            values@.len() == n,
            n == (1usize << log_n),
            n as nat == two_pow(log_n as nat),
            log_n < 64,
            log_n == log2(n as nat),
            n > 0,
            s >= 1,
            s <= log_n + 1,
            values@ == ntt_stages(reordered, omega.val(), n as nat, (s - 1) as nat),
        decreases log_n + 1 - s,
    {
        assert(s < usize::BITS) by (bit_vector)
            requires n == (1usize << log_n), n > 0, 1 <= s <= log_n;
        let len: usize = 1usize << s;
        assert(len <= n && len >= 2 && len % 2 == 0) by (bit_vector)
            requires n == (1usize << log_n), n > 0, len == 1usize << s, 1 <= s <= log_n, s < usize::BITS;
        proof {
            crate::util::lemma_two_pow_monotone(s as nat, log_n as nat);
            lemma_shift_is_pow(s);
            crate::util::lemma_two_pow_quotient(s as nat, log_n as nat);
            crate::util::lemma_two_pow_add(s as nat, (log_n - s) as nat);
            assert(n % len == 0) by {
                vstd::arithmetic::div_mod::lemma_mod_multiples_basic(two_pow((log_n - s) as nat) as int, len as int);
                vstd::arithmetic::mul::lemma_mul_is_commutative(two_pow((log_n - s) as nat) as int, len as int);
            }
        }
        let step = omega.pow((n / len) as u64);
        butterfly_pass(values, n, len, step);
        s = s + 1;
    }
    proof {
        assert(reordered == bitrev_perm(old(values)@));
        if old(values)@.len() == 1 || fpow(omega.val(), old(values)@.len() / 2) == p() - 1 {
            crate::transform::lemma_ntt_evaluates(old(values)@, omega.val());
        }
    }
}

/// Interpolates evaluations sampled over the subgroup of their own length and
/// returns the coefficients: the inverse transform scaled by the inverse length.
pub fn interpolate(evaluations: &[Felt]) -> (coeffs: Vec<Felt>)
    requires
        is_pow2(evaluations@.len()),
        log2(evaluations@.len()) <= TWO_ADICITY,
    ensures
        coeffs@.len() == evaluations@.len(),
        coeffs@ == spec_interpolate(evaluations@),
        forall|i: int| 0 <= i < evaluations@.len() ==> #[trigger] coeffs@[i].val() == fmul(
            poly_eval(evaluations@, fpow(finv(subgroup_root(log2(evaluations@.len()) as u32)), i as nat)),
            finv(evaluations@.len() % p()),
        ),
{
    let n = evaluations.len();
    let log_n = log2_exact(n);
    let omega = root_of_unity(log_n);
    let mut coeffs = crate::crypto::copy_slice(evaluations);
    proof {
        if log_n >= 1 {
            lemma_inverse_root_half(log_n);
            assert(two_pow(log_n as nat) == 2 * two_pow((log_n - 1) as nat));
        }
    }
    ntt(&mut coeffs, omega.inv());
    let ghost t = coeffs@;
    let scale = Felt::new(n as u64).inv();
    let mut i: usize = 0;
    while i < n
        invariant
            coeffs@.len() == n,
            i <= n,
            n == evaluations@.len(),
            t == spec_ntt(evaluations@, finv(subgroup_root(log2(n as nat) as u32))),
            scale.val() == finv(n as nat % p()),
            forall|k: int| i <= k < n ==> #[trigger] coeffs@[k] == t[k],
            forall|k: int| 0 <= k < i ==> #[trigger] coeffs@[k] == spec_interpolate(evaluations@)[k],
        decreases n - i,
    {
        let c = coeffs[i].mul(scale);
        proof {
            Felt::lemma_from_val(c.val());
            Felt::lemma_val_injective(c, spec_interpolate(evaluations@)[i as int]);
        }
        coeffs.set(i, c);
        i = i + 1;
    }
    assert(coeffs@ =~= spec_interpolate(evaluations@));
    proof {
        assert(p() - 1 > 0);
        assert forall|i: int| 0 <= i < n implies #[trigger] coeffs@[i].val() == fmul(
            poly_eval(evaluations@, fpow(finv(subgroup_root(log2(n as nat) as u32)), i as nat)),
            finv(n as nat % p()),
        ) by {
            assert(t[i].val() == poly_eval(evaluations@, fpow(finv(subgroup_root(log2(n as nat) as u32)), i as nat)));
            let v = fmul(t[i].val(), finv(n as nat % p()));
            vstd::arithmetic::div_mod::lemma_mod_bound((t[i].val() * finv(n as nat % p())) as int, p() as int);
            Felt::lemma_from_val(v);
            assert(coeffs@[i] == spec_interpolate(evaluations@)[i]);
        }
    }
    coeffs
}

/// The subgroup root of a log size has the order the transform needs: the
/// size is one, or the root to half the size is minus one.
proof fn lemma_root_half_order(log_size: u32)
    requires
        log_size <= TWO_ADICITY,
    ensures
        two_pow(log_size as nat) == 1
            || fpow(subgroup_root(log_size), two_pow(log_size as nat) / 2) == p() - 1,
{
    if log_size >= 1 {
        crate::field::law_root_of_unity_order(log_size);
        assert(two_pow(log_size as nat) == 2 * two_pow((log_size - 1) as nat));
    }
}

/// A subgroup order of two to a log up to the two adicity divides the
/// multiplicative group order: the modulus less one is the order times a
/// positive cofactor.
#[verifier::spinoff_prover]
#[verifier::rlimit(60)]
proof fn lemma_order_cofactor(log: u32) -> (q: nat)
    requires
        log <= TWO_ADICITY,
    ensures
        two_pow(log as nat) * q == p() - 1,
        q >= 1,
{
    let n = two_pow(log as nat);
    crate::util::lemma_two_pow_add(log as nat, (32 - log) as nat);
    assert((log + (32 - log)) as nat == 32nat);
    assert(two_pow(32) == 0x1_0000_0000) by {
        reveal_with_fuel(two_pow, 33);
    }
    let e = two_pow((32 - log) as nat);
    lemma_two_pow_is_pow2((32 - log) as nat);
    let q = (0xffff_ffff * e) as nat;
    assert(n * q == p() - 1) by (nonlinear_arith)
        requires q == 0xffff_ffff * e, 0x1_0000_0000 == n * e, p() == 18446744069414584321nat;
    assert(q >= 1) by (nonlinear_arith)
        requires q == 0xffff_ffff * e, e >= 1;
    q
}

/// The exponent arithmetic behind the inverse root: the modulus less two
/// times half a power of two size is half the size plus a multiple of the
/// size.
proof fn lemma_inverse_exponent(log: u32) -> (t: nat)
    requires
        1 <= log <= TWO_ADICITY,
    ensures
        (p() - 2) as nat * two_pow((log - 1) as nat) == two_pow((log - 1) as nat) + two_pow(log as nat) * t,
{
    let n = two_pow(log as nat);
    let h = two_pow((log - 1) as nat);
    assert(n == 2 * h);
    let q = lemma_order_cofactor(log);
    lemma_two_pow_is_pow2((log - 1) as nat);
    assert(q * h >= 1) by (nonlinear_arith)
        requires q >= 1, h >= 1;
    let t = (q * h - 1) as nat;
    assert((p() - 2) as nat * h == h + n * t) by (nonlinear_arith)
        requires n * q == p() - 1, n == 2 * h, t == q * h - 1, q * h >= 1;
    t
}

/// The inverse of the subgroup root of a log size up to the two adicity is
/// the root to the size less one.
pub proof fn lemma_root_inverse_power(log: u32)
    requires
        1 <= log <= TWO_ADICITY,
    ensures
        finv(subgroup_root(log)) == fpow(subgroup_root(log), (two_pow(log as nat) - 1) as nat),
{
    let r = subgroup_root(log);
    let n = two_pow(log as nat);
    crate::field::law_root_of_unity_order(log);
    let q = lemma_order_cofactor(log);
    let b = (q - 1) as nat;
    assert((p() - 2) as nat == (n - 1) as nat + n * b) by (nonlinear_arith)
        requires n * q == p() - 1, q >= 1, b == q - 1, n >= 1;
    crate::field::lemma_fpow_add(r, (n - 1) as nat, n * b);
    crate::field::lemma_fpow_mul(r, n, b);
    crate::transform::lemma_fpow_one(b);
    crate::field::lemma_fpow_mod(r, (n - 1) as nat);
    vstd::arithmetic::mul::lemma_mul_basics(fpow(r, (n - 1) as nat) as int);
}

proof fn lemma_fpow_two(k: nat)
    ensures
        fpow(2, k) == two_pow(k) % p(),
    decreases k,
{
    if k == 0 {
        vstd::arithmetic::div_mod::lemma_small_mod(1, p());
    } else {
        lemma_fpow_two((k - 1) as nat);
        vstd::arithmetic::div_mod::lemma_mul_mod_noop_right(2, two_pow((k - 1) as nat) as int, p() as int);
    }
}

/// A power of two size up to the two adicity times its inverse is one.
#[verifier::spinoff_prover]
#[verifier::rlimit(60)]
pub proof fn lemma_size_inverse(log: u32)
    requires
        log <= TWO_ADICITY,
    ensures
        fmul(two_pow(log as nat) % p(), finv(two_pow(log as nat) % p())) == 1,
{
    let n = two_pow(log as nat);
    crate::util::lemma_two_pow_monotone(log as nat, 32);
    assert(two_pow(32) == 0x1_0000_0000) by {
        reveal_with_fuel(two_pow, 33);
    }
    vstd::arithmetic::div_mod::lemma_small_mod(n, p());
    lemma_fpow_two(log as nat);
    crate::util::lemma_two_pow_add(32, 32);
    crate::util::lemma_two_pow_add(64, 32);
    assert(two_pow(96) == 79228162514264337593543950336nat) by (nonlinear_arith)
        requires two_pow(96) == two_pow(64) * two_pow(32), two_pow(64) == two_pow(32) * two_pow(32),
            two_pow(32) == 0x1_0000_0000;
    lemma_fpow_two(96);
    assert(79228162514264337593543950336int % 18446744069414584321int == 18446744069414584320int) by (nonlinear_arith);
    assert(fpow(2, 96) == p() - 1);
    crate::field::lemma_fpow_mul(2, 96, 2);
    crate::transform::lemma_minus_one_squared();
    let cof = 96076792028200960nat;
    assert(192 * cof == p() - 1);
    crate::field::lemma_fpow_mul(2, 192, cof);
    crate::transform::lemma_fpow_one(cof);
    assert(fpow(2, (p() - 1) as nat) == 1);
    crate::field::lemma_fpow_mul(2, log as nat, (p() - 1) as nat);
    crate::field::lemma_fpow_mul(2, (p() - 1) as nat, log as nat);
    assert((log as nat) * (p() - 1) as nat == ((p() - 1) as nat) * (log as nat)) by (nonlinear_arith);
    crate::transform::lemma_fpow_one(log as nat);
    assert(fpow(n, (p() - 1) as nat) == 1);
    assert(fpow(n, (p() - 1) as nat) == fmul(n, fpow(n, (p() - 2) as nat)));
}

/// The inverse of the subgroup root of a log size from one up to the two
/// adicity, raised to half the size, is minus one.
#[verifier::spinoff_prover]
proof fn lemma_inverse_root_half(log: u32)
    requires
        1 <= log <= TWO_ADICITY,
    ensures
        fpow(finv(subgroup_root(log)), two_pow((log - 1) as nat)) == p() - 1,
{
    let r = subgroup_root(log);
    let n = two_pow(log as nat);
    let h = two_pow((log - 1) as nat);
    crate::field::law_root_of_unity_order(log);
    let t = lemma_inverse_exponent(log);
    let e = (p() - 2) as nat;
    assert(finv(r) == fpow(r, e));
    crate::field::lemma_fpow_mul(r, e, h);
    crate::field::lemma_fpow_add(r, h, n * t);
    crate::field::lemma_fpow_mul(r, n, t);
    crate::transform::lemma_fpow_one(t);
    vstd::arithmetic::div_mod::lemma_small_mod((p() - 1) as nat, p());
    assert(fpow(r, h) == p() - 1);
    assert(fpow(r, n * t) == 1);
    assert(fpow(r, h + n * t) == fmul((p() - 1) as nat, 1));
}

/// Interpolating the evaluations of a coefficient vector over the subgroup
/// of its own power of two length gives the coefficients back.
#[verifier::spinoff_prover]
#[verifier::rlimit(40)]
pub proof fn law_interpolation_inverts_evaluation(c: Seq<Felt>, log: u32)
    requires
        log <= TWO_ADICITY,
        c.len() == two_pow(log as nat),
        forall|i: int| 0 <= i < c.len() ==> #[trigger] c[i].val() < p(),
    ensures
        spec_interpolate(spec_evaluate_subgroup(c, log)) == c,
{
    let n = two_pow(log as nat);
    let r = subgroup_root(log);
    lemma_two_pow_is_pow2(log as nat);
    assert(padded_coeffs(c, n) =~= c);
    let e = spec_evaluate_subgroup(c, log);
    assert(e == spec_ntt(c, r));
    let out = spec_interpolate(e);
    if log == 0 {
        assert(n == 1);
        assert(bitrev_perm(c) =~= c) by {
            assert(rev_bits(0, 0) == 0);
        }
        assert(e == c);
        assert(bitrev_perm(e) =~= e) by {
            assert(rev_bits(0, 0) == 0);
        }
        let t = spec_ntt(e, finv(subgroup_root(0)));
        assert(t == e);
        crate::transform::lemma_fpow_one((p() - 2) as nat);
        vstd::arithmetic::div_mod::lemma_small_mod(1, p());
        let v = c[0].val();
        vstd::arithmetic::div_mod::lemma_small_mod(v, p());
        vstd::arithmetic::mul::lemma_mul_basics(v as int);
        assert(fmul(v, finv(1nat % p())) == v);
        Felt::lemma_from_val(v);
        Felt::lemma_val_injective(out[0], c[0]);
        assert(out =~= c);
    } else {
        lemma_root_half_order(log);
        crate::transform::law_ntt_is_evaluation(c, r);
        assert forall|i: int| 0 <= i < n implies #[trigger] e[i].val() < p() by {
            let z = fpow(r, i as nat);
            vstd::arithmetic::div_mod::lemma_mod_bound(
                (fmul(poly_eval(c.skip(1), z), z) + c[0].val()) as int, p() as int);
        }
        let ri = finv(r);
        lemma_inverse_root_half(log);
        assert(n == 2 * two_pow((log - 1) as nat));
        crate::transform::law_ntt_is_evaluation(e, ri);
        lemma_root_inverse_power(log);
        lemma_size_inverse(log);
        assert(log2(n) as u32 == log);
        let t = spec_ntt(e, ri);
        assert forall|i: int| 0 <= i < n implies #[trigger] out[i] == c[i] by {
            crate::transform::lemma_inverse_transform(c, e, r, log as nat, i as nat);
            assert(t[i].val() == fmul(c[i].val(), n % p()));
            crate::field::lemma_fmul_assoc(c[i].val(), n % p(), finv(n % p()));
            vstd::arithmetic::div_mod::lemma_small_mod(c[i].val(), p());
            vstd::arithmetic::mul::lemma_mul_basics(c[i].val() as int);
            Felt::lemma_from_val(c[i].val());
            Felt::lemma_val_injective(out[i], c[i]);
        }
        assert(out =~= c);
    }
}

/// Pads a coefficient vector with zeros to the given size.
fn pad_to(coeffs: &[Felt], size: usize) -> (padded: Vec<Felt>)
    requires
        coeffs@.len() <= size,
    ensures
        padded@.len() == size,
        forall|i: int| 0 <= i < coeffs@.len() ==> padded@[i] == coeffs@[i],
        forall|i: int| coeffs@.len() <= i < size ==> padded@[i].val() == 0,
        padded@ == padded_coeffs(coeffs@, size as nat),
{
    let mut padded = crate::crypto::copy_slice(coeffs);
    while padded.len() < size
        invariant
            coeffs@.len() <= padded@.len() <= size,
            forall|i: int| 0 <= i < coeffs@.len() ==> padded@[i] == coeffs@[i],
            forall|i: int| coeffs@.len() <= i < padded@.len() ==> padded@[i].val() == 0,
        decreases size - padded.len(),
    {
        padded.push(Felt::zero());
    }
    proof {
        Felt::lemma_from_val(0);
        assert forall|i: int| 0 <= i < size implies #[trigger] padded@[i] == padded_coeffs(coeffs@, size as nat)[i] by {
            if i >= coeffs@.len() {
                Felt::lemma_val_injective(padded@[i], Felt::from_val(0));
            }
        }
    }
    assert(padded@ =~= padded_coeffs(coeffs@, size as nat));
    padded
}

/// Evaluates a coefficient vector over the subgroup of a chosen larger order.
pub fn evaluate_subgroup(coeffs: &[Felt], log_size: u32) -> (evals: Vec<Felt>)
    requires
        log_size <= TWO_ADICITY,
        coeffs@.len() <= two_pow(log_size as nat),
        two_pow(log_size as nat) <= usize::MAX,
    ensures
        evals@.len() == two_pow(log_size as nat),
        evals@ == spec_evaluate_subgroup(coeffs@, log_size),
        forall|k: int| 0 <= k < two_pow(log_size as nat) ==> #[trigger] evals@[k].val()
            == poly_eval(coeffs@, fpow(subgroup_root(log_size), k as nat)),
{
    proof {
        lemma_shift_is_pow(log_size as usize);
        lemma_two_pow_is_pow2(log_size as nat);
    }
    let size = 1usize << (log_size as usize);
    let mut padded = pad_to(coeffs, size);
    let root = root_of_unity(log_size);
    proof {
        lemma_root_half_order(log_size);
    }
    ntt(&mut padded, root);
    proof {
        crate::transform::lemma_subgroup_evaluations(coeffs@, size as nat, root.val(), padded@);
    }
    padded
}

/// Evaluates a coefficient vector over a coset of the subgroup, namely the shift
/// times the subgroup: each coefficient is first scaled by the matching power of
/// the shift, then transformed.
pub fn evaluate_coset(coeffs: &[Felt], log_size: u32, shift: Felt) -> (evals: Vec<Felt>)
    requires
        log_size <= TWO_ADICITY,
        coeffs@.len() <= two_pow(log_size as nat),
        two_pow(log_size as nat) <= usize::MAX,
    ensures
        evals@.len() == two_pow(log_size as nat),
        evals@ == spec_evaluate_coset(coeffs@, log_size, shift.val()),
        forall|k: int| 0 <= k < two_pow(log_size as nat) ==> #[trigger] evals@[k].val()
            == poly_eval(coeffs@, fmul(shift.val(), fpow(subgroup_root(log_size), k as nat))),
{
    proof {
        lemma_shift_is_pow(log_size as usize);
        lemma_two_pow_is_pow2(log_size as nat);
    }
    let size = 1usize << (log_size as usize);
    let mut padded = pad_to(coeffs, size);
    let ghost base = padded@;
    let ghost target = shifted_coeffs(base, shift.val());
    let mut power = Felt::one();
    let mut i: usize = 0;
    proof {
        vstd::arithmetic::div_mod::lemma_small_mod(1, p());
    }
    while i < size
        invariant
            padded@.len() == size,
            base.len() == size,
            i <= size,
            target == shifted_coeffs(base, shift.val()),
            power.val() == fpow(shift.val(), i as nat),
            forall|k: int| i <= k < size ==> #[trigger] padded@[k] == base[k],
            forall|k: int| 0 <= k < i ==> #[trigger] padded@[k] == target[k],
        decreases size - i,
    {
        let c = padded[i].mul(power);
        proof {
            Felt::lemma_from_val(c.val());
            Felt::lemma_val_injective(c, target[i as int]);
        }
        padded.set(i, c);
        power = power.mul(shift);
        proof {
            crate::field::lemma_fmul_comm(fpow(shift.val(), i as nat), shift.val());
        }
        i = i + 1;
    }
    assert(padded@ =~= target);
    let root = root_of_unity(log_size);
    proof {
        lemma_root_half_order(log_size);
    }
    ntt(&mut padded, root);
    proof {
        crate::transform::lemma_coset_evaluations(coeffs@, size as nat, shift.val(), root.val(), padded@);
    }
    padded
}

/// Evaluates a coefficient vector at a single point by Horner folding.
pub fn eval_at(coeffs: &[Felt], point: Felt) -> (r: Felt)
    ensures
        r.val() == poly_eval(coeffs@, point.val()),
{
    let mut acc = Felt::zero();
    let mut i = coeffs.len();
    assert(coeffs@.skip(i as int) =~= Seq::<Felt>::empty());
    while i > 0
        invariant
            i <= coeffs@.len(),
            acc.val() == poly_eval(coeffs@.skip(i as int), point.val()),
        decreases i,
    {
        i = i - 1;
        assert(coeffs@.skip(i as int).skip(1) =~= coeffs@.skip(i + 1));
        acc = acc.mul(point).add(coeffs[i]);
    }
    assert(coeffs@.skip(0) =~= coeffs@);
    acc
}

/// Inverts a whole vector with one field inversion by the running product
/// trick. Entry i is the product of the values before i times the inverse of
/// the product of all values times the values after i.
pub fn batch_inverse(values: &[Felt]) -> (out: Vec<Felt>)
    ensures
        out@.len() == values@.len(),
        forall|i: int| #![trigger out@[i]] 0 <= i < values@.len() ==> out@[i].val() == fmul(
            prefix_product(values@, i as nat),
            suffix_scaled(values@, finv(prefix_product(values@, values@.len())), i as nat),
        ),
{
    let n = values.len();
    let mut prefix: Vec<Felt> = Vec::new();
    let mut running = Felt::one();
    let mut i: usize = 0;
    while i < n
        invariant
            i <= n,
            n == values@.len(),
            prefix@.len() == i,
            running.val() == prefix_product(values@, i as nat),
            forall|k: int| 0 <= k < i ==> #[trigger] prefix@[k].val() == prefix_product(values@, k as nat),
        decreases n - i,
    {
        prefix.push(running);
        running = running.mul(values[i]);
        i = i + 1;
    }
    let ghost total = prefix_product(values@, n as nat);
    let mut inverse = running.inv();
    let mut out: Vec<Felt> = vec![Felt::zero(); n];
    let mut j = n;
    while j > 0
        invariant
            j <= n,
            n == values@.len(),
            out@.len() == n,
            prefix@.len() == n,
            forall|k: int| 0 <= k < n ==> #[trigger] prefix@[k].val() == prefix_product(values@, k as nat),
            j < n ==> inverse.val() == fmul(suffix_scaled(values@, finv(total), j as nat), values@[j as int].val()),
            j == n ==> inverse.val() == finv(total),
            forall|k: int| j <= k < n ==> #[trigger] out@[k].val() == fmul(
                prefix_product(values@, k as nat),
                suffix_scaled(values@, finv(total), k as nat),
            ),
        decreases j,
    {
        j = j - 1;
        let o = prefix[j].mul(inverse);
        out.set(j, o);
        inverse = inverse.mul(values[j]);
    }
    out
}

} // verus!
