//! What the radix two transform computes: after the bit reversed reordering
//! and every butterfly stage, entry k holds the polynomial with the input as
//! coefficients evaluated at the root to the power k.
use vstd::prelude::*;
use vstd::arithmetic::div_mod::*;
use vstd::arithmetic::mul::*;
use crate::field::{
    Felt, fadd, fsub, fmul, fpow, p, lemma_fpow_add, lemma_fpow_mul, lemma_fpow_mod, lemma_fmul_assoc,
    lemma_fmul_comm, law_mul_distributes, lemma_fmul_mod_left, law_add_associative,
};
use crate::poly::{
    poly_eval, rev_bits, bitrev_perm, butterfly_stage, ntt_stages, twiddle_at, spec_ntt, lemma_rev_bits_bound, padded_coeffs,
    shifted_coeffs,
};
use crate::util::{two_pow, log2, is_pow2, lemma_two_pow_is_pow2, lemma_two_pow_add, lemma_two_pow_quotient, lemma_pow2_log2};

verus! {

/// The sum over u below a count of the value at the start plus u strides
/// times w to the power u k.
pub open spec fn strided_sum(x: Seq<Felt>, start: nat, stride: nat, w: nat, k: nat, count: nat) -> nat
    decreases count,
{
    if count == 0 {
        0
    } else {
        let u = (count - 1) as nat;
        fadd(strided_sum(x, start, stride, w, k, u), fmul(x[(start + u * stride) as int].val(), fpow(w, u * k)))
    }
}

/// The sum of the first values each times the matching power of a point.
pub open spec fn power_sum(c: Seq<Felt>, z: nat, count: nat) -> nat
    decreases count,
{
    if count == 0 {
        0
    } else {
        let u = (count - 1) as nat;
        fadd(power_sum(c, z, u), fmul(c[u as int].val(), fpow(z, u)))
    }
}

proof fn lemma_fadd_rearrange(a: nat, b: nat, c: nat, d: nat)
    ensures
        fadd(fadd(fadd(a, b), c), d) == fadd(fadd(a, c), fadd(b, d)),
{
    let m = p() as int;
    lemma_add_mod_noop_right(c as int, (a + b) as int, m);
    lemma_add_mod_noop_right(d as int, (a + b + c) as int, m);
    lemma_add_mod_noop((a + c) as int, (b + d) as int, m);
    assert((c + (a + b)) == a + b + c);
    assert(d + (a + b + c) == (a + c) + (b + d));
}

proof fn lemma_fadd_swap(a: nat, b: nat, c: nat)
    ensures
        fadd(fadd(a, b), c) == fadd(fadd(a, c), b),
{
    let m = p() as int;
    lemma_add_mod_noop_right(c as int, (a + b) as int, m);
    lemma_add_mod_noop_right(b as int, (a + c) as int, m);
    assert(c + (a + b) == b + (a + c));
}

proof fn lemma_half_turn(e: nat, a: nat, b: nat)
    requires
        e < p(),
    ensures
        fadd(e, fmul(fmul(a, (p() - 1) as nat), b)) == fsub(e, fmul(b, a)),
{
    let m = p() as int;
    let ab = (a * b) as int;
    lemma_mul_mod_noop_left((a * (p() - 1) as nat) as int, b as int, m);
    assert((a * (p() - 1) as nat) * b == m * ab + (-ab)) by (nonlinear_arith)
        requires ab == a * b, m == p(), m >= 1;
    lemma_mod_multiples_vanish(ab, -ab, m);
    lemma_add_mod_noop_right(e as int, -ab, m);
    lemma_sub_mod_noop(e as int, (b * a) as int, m);
    lemma_small_mod(e, p());
    lemma_mul_is_commutative(a as int, b as int);
}

/// One to any power is one.
pub proof fn lemma_fpow_one(u: nat)
    ensures
        fpow(1, u) == 1,
    decreases u,
{
    if u > 0 {
        lemma_fpow_one((u - 1) as nat);
        lemma_small_mod(1, p());
    }
}

proof fn lemma_fpow_mod_base(x: nat, e: nat)
    ensures
        fpow(x % p(), e) == fpow(x, e),
    decreases e,
{
    if e > 0 {
        lemma_fpow_mod_base(x, (e - 1) as nat);
        lemma_fmul_mod_left(x, fpow(x, (e - 1) as nat));
    }
}

/// The twiddle multiplied up step by step is the power of the step.
pub proof fn lemma_twiddle_power(step: nat, k: nat)
    ensures
        twiddle_at(step, k) == fpow(step, k),
    decreases k,
{
    if k > 0 {
        lemma_twiddle_power(step, (k - 1) as nat);
        lemma_fmul_comm(fpow(step, (k - 1) as nat), step);
    }
}

proof fn lemma_strided_bound(x: Seq<Felt>, start: nat, stride: nat, w: nat, k: nat, count: nat)
    ensures
        strided_sum(x, start, stride, w, k, count) < p(),
{
    if count > 0 {
        lemma_mod_bound((strided_sum(x, start, stride, w, k, (count - 1) as nat)
            + fmul(x[(start + (count - 1) as nat * stride) as int].val(), fpow(w, (count - 1) as nat * k))) as int, p() as int);
    }
}

/// A sum over twice as many strides splits into the even terms plus w to
/// the k times the odd terms, each a sum over doubled strides with w squared.
proof fn lemma_split(x: Seq<Felt>, c: nat, s: nat, w: nat, k: nat, l: nat)
    ensures
        strided_sum(x, c, s, w, k, 2 * l) == fadd(
            strided_sum(x, c, 2 * s, fpow(w, 2), k, l),
            fmul(fpow(w, k), strided_sum(x, c + s, 2 * s, fpow(w, 2), k, l)),
        ),
    decreases l,
{
    let wk = fpow(w, k);
    if l == 0 {
        lemma_mul_basics(wk as int);
        lemma_small_mod(0, p());
    } else {
        let u = (l - 1) as nat;
        lemma_split(x, c, s, w, k, u);
        let e1 = strided_sum(x, c, 2 * s, fpow(w, 2), k, u);
        let o1 = strided_sum(x, c + s, 2 * s, fpow(w, 2), k, u);
        let pw = fpow(fpow(w, 2), u * k);
        let xe = x[(c + u * (2 * s)) as int].val();
        let xo = x[(c + s + u * (2 * s)) as int].val();
        assert(c + (2 * u) * s == c + u * (2 * s)) by (nonlinear_arith);
        assert(c + (2 * u + 1) * s == c + s + u * (2 * s)) by (nonlinear_arith);
        assert((2 * u) * k == 2 * (u * k)) by (nonlinear_arith);
        assert((2 * u + 1) * k == k + 2 * (u * k)) by (nonlinear_arith);
        lemma_fpow_mul(w, 2, u * k);
        lemma_fpow_add(w, k, 2 * (u * k));
        let te = fmul(xe, pw);
        let to = fmul(xo, fmul(wk, pw));
        assert(strided_sum(x, c, s, w, k, (2 * u + 1) as nat) == fadd(strided_sum(x, c, s, w, k, 2 * u), te));
        assert(strided_sum(x, c, s, w, k, 2 * l) == fadd(strided_sum(x, c, s, w, k, (2 * u + 1) as nat), to));
        lemma_fmul_assoc(xo, wk, pw);
        lemma_fmul_comm(xo, wk);
        lemma_fmul_assoc(wk, xo, pw);
        assert(to == fmul(wk, fmul(xo, pw)));
        law_mul_distributes(wk, o1, fmul(xo, pw));
        lemma_fadd_rearrange(e1, fmul(wk, o1), te, to);
    }
}

/// A sum whose point has order dividing the period does not change when
/// the power index moves by the period.
proof fn lemma_period(x: Seq<Felt>, c: nat, s: nat, w: nat, k: nat, l: nat, count: nat)
    requires
        fpow(w, l) == 1,
    ensures
        strided_sum(x, c, s, w, k + l, count) == strided_sum(x, c, s, w, k, count),
    decreases count,
{
    if count > 0 {
        let u = (count - 1) as nat;
        lemma_period(x, c, s, w, k, l, u);
        assert(u * (k + l) == u * k + l * u) by (nonlinear_arith);
        lemma_fpow_add(w, u * k, l * u);
        lemma_fpow_mul(w, l, u);
        lemma_fpow_one(u);
        lemma_fpow_mod(w, u * k);
        lemma_mul_basics(fpow(w, u * k) as int);
    }
}

/// Minus one squared is one.
pub proof fn lemma_minus_one_squared()
    ensures
        fpow((p() - 1) as nat, 2) == 1,
{
    assert(fpow((p() - 1) as nat, 2) == fmul((p() - 1) as nat, fmul((p() - 1) as nat, 1))) by {
        reveal_with_fuel(fpow, 3);
    }
    lemma_small_mod((p() - 1) as nat, p());
    assert((18446744069414584320int * 18446744069414584320int) % 18446744069414584321int == 1) by (nonlinear_arith);
}

/// The value the stage of a given index holds at a position of a block.
pub open spec fn stage_value(x: Seq<Felt>, omega: nat, m: nat, s: nat, b: nat, k: nat) -> nat {
    strided_sum(x, rev_bits(b, (m - s) as nat), two_pow((m - s) as nat), fpow(omega, two_pow((m - s) as nat)), k, two_pow(s))
}

/// After s stages, block b of length two to the s holds the transform of
/// the inputs at the bit reversed block index plus multiples of the block
/// count.
pub open spec fn stage_ok(a: Seq<Felt>, x: Seq<Felt>, omega: nat, m: nat, s: nat) -> bool {
    &&& a.len() == two_pow(m)
    &&& forall|b: nat, k: nat| b < two_pow((m - s) as nat) && k < two_pow(s)
        ==> a[(b * two_pow(s) + k) as int].val() == #[trigger] stage_value(x, omega, m, s, b, k)
}

#[verifier::rlimit(60)]
#[verifier::spinoff_prover]
proof fn lemma_stage_entry(x: Seq<Felt>, omega: nat, m: nat, s: nat, prev: Seq<Felt>, b: nat, j: nat)
    requires
        1 <= s <= m,
        fpow(omega, two_pow((m - 1) as nat)) == p() - 1,
        stage_ok(prev, x, omega, m, (s - 1) as nat),
        b < two_pow((m - s) as nat),
        j < two_pow(s),
    ensures
        butterfly_stage(prev, two_pow(s), fpow(omega, two_pow(m) / two_pow(s)))[(b * two_pow(s) + j) as int].val()
            == stage_value(x, omega, m, s, b, j),
{
    let l = two_pow((s - 1) as nat);
    let l2 = two_pow(s);
    let r2 = two_pow((m - s) as nat);
    let n = two_pow(m);
    assert(l2 == 2 * l);
    assert(two_pow((m - (s - 1)) as nat) == 2 * r2) by {
        assert((m - (s - 1)) as nat == ((m - s) as nat + 1) as nat);
    }
    lemma_two_pow_add((m - s) as nat, s);
    assert(n == r2 * l2);
    crate::util::lemma_two_pow_monotone(s, m);
    lemma_two_pow_quotient(s, m);
    assert(n / l2 == r2);
    lemma_two_pow_add((m - s) as nat, (s - 1) as nat);
    assert(((m - s) + (s - 1)) as nat == (m - 1) as nat);
    assert(r2 * l == two_pow((m - 1) as nat));
    let w = fpow(omega, r2);
    lemma_fpow_mul(omega, r2, 2);
    assert(r2 * 2 == 2 * r2);
    let w2 = fpow(w, 2);
    assert(fpow(omega, 2 * r2) == w2);
    let i = b * l2 + j;
    assert(b * l2 + j < n) by (nonlinear_arith)
        requires b < r2, j < l2, n == r2 * l2;
    assert((i as int) % (l2 as int) == j) by {
        lemma_mod_multiples_vanish(b as int, j as int, l2 as int);
        lemma_small_mod(j, l2);
        assert(b * l2 == l2 * b) by (nonlinear_arith);
    }
    let c = rev_bits(b, (m - s) as nat);
    assert(rev_bits(2 * b, ((m - s) + 1) as nat) == c) by {
        assert((2 * b) / 2 == b);
        assert((2 * b) % 2 == 0);
    }
    assert(rev_bits(2 * b + 1, ((m - s) + 1) as nat) == r2 + c) by {
        assert((2 * b + 1) / 2 == b);
        assert((2 * b + 1) % 2 == 1);
    }
    assert(((m - s) + 1) as nat == (m - (s - 1)) as nat);
    assert(2 * b + 1 < 2 * r2);
    lemma_twiddle_power(w, j);
    let out = butterfly_stage(prev, l2, w);
    lemma_split(x, c, r2, w, j, l);
    assert(2 * l == l2);
    if j < l {
        let e = stage_value(x, omega, m, (s - 1) as nat, 2 * b, j);
        let o = stage_value(x, omega, m, (s - 1) as nat, 2 * b + 1, j);
        assert((2 * b) * l + j == i) by (nonlinear_arith)
            requires l2 == 2 * l, i == b * l2 + j;
        assert((2 * b + 1) * l + j == i + l) by (nonlinear_arith)
            requires l2 == 2 * l, i == b * l2 + j;
        assert(prev[i as int].val() == e);
        assert(prev[(i + l) as int].val() == o);
        assert(e == strided_sum(x, c, 2 * r2, w2, j, l));
        assert(o == strided_sum(x, c + r2, 2 * r2, w2, j, l));
        lemma_fmul_comm(o, fpow(w, j));
        lemma_mod_bound((e + fmul(o, fpow(w, j))) as int, p() as int);
        Felt::lemma_from_val(fadd(e, fmul(o, fpow(w, j))));
        assert(out[i as int] == Felt::from_val(fadd(prev[i as int].val(), fmul(prev[(i + l) as int].val(), twiddle_at(w, j)))));
    } else {
        let k = (j - l) as nat;
        let e = stage_value(x, omega, m, (s - 1) as nat, 2 * b, k);
        let o = stage_value(x, omega, m, (s - 1) as nat, 2 * b + 1, k);
        assert((2 * b) * l + k == i - l) by (nonlinear_arith)
            requires l2 == 2 * l, i == b * l2 + j, k == j - l;
        assert((2 * b + 1) * l + k == i) by (nonlinear_arith)
            requires l2 == 2 * l, i == b * l2 + j, k == j - l;
        assert(prev[(i - l) as int].val() == e);
        assert(prev[i as int].val() == o);
        assert(e == strided_sum(x, c, 2 * r2, w2, k, l));
        assert(o == strided_sum(x, c + r2, 2 * r2, w2, k, l));
        lemma_twiddle_power(w, k);
        // w squared has order dividing the block count, w to the half block is minus one
        lemma_fpow_mul(w, 2, l);
        lemma_fpow_mul(omega, r2, l2);
        assert(r2 * l2 == n);
        lemma_fpow_mul(omega, two_pow((m - 1) as nat), 2);
        assert(two_pow(m) == two_pow((m - 1) as nat) * 2);
        lemma_minus_one_squared();
        assert(fpow(w2, l) == 1);
        lemma_period(x, c, 2 * r2, w2, k, l, l);
        lemma_period(x, c + r2, 2 * r2, w2, k, l, l);
        assert(k + l == j);
        lemma_fpow_add(w, k, l);
        lemma_fpow_mul(omega, r2, l);
        assert(fpow(w, l) == p() - 1);
        lemma_fmul_comm(fpow(w, k), (p() - 1) as nat);
        lemma_strided_bound(x, c, 2 * r2, w2, k, l);
        lemma_half_turn(e, fpow(w, k), o);
        let d = fsub(e, fmul(o, fpow(w, k)));
        assert(d < p()) by {
            lemma_mod_bound(e as int - fmul(o, fpow(w, k)) as int, p() as int);
        }
        Felt::lemma_from_val(d);
        assert(out[i as int] == Felt::from_val(fsub(prev[(i - l) as int].val(), fmul(prev[i as int].val(), twiddle_at(w, k)))));
    }
}

proof fn lemma_stages(x: Seq<Felt>, omega: nat, m: nat, s: nat)
    requires
        x.len() == two_pow(m),
        s <= m,
        forall|i: int| 0 <= i < x.len() ==> #[trigger] bitrev_perm(x)[i].val() < p(),
        m >= 1 ==> fpow(omega, two_pow((m - 1) as nat)) == p() - 1,
    ensures
        stage_ok(ntt_stages(bitrev_perm(x), omega, two_pow(m), s), x, omega, m, s),
    decreases s,
{
    let n = two_pow(m);
    let a = ntt_stages(bitrev_perm(x), omega, n, s);
    if s == 0 {
        lemma_two_pow_is_pow2(m);
        assert forall|b: nat, k: nat| b < two_pow((m - s) as nat) && k < two_pow(s)
            implies a[(b * two_pow(s) + k) as int].val() == #[trigger] stage_value(x, omega, m, s, b, k) by {
            assert(k == 0);
            assert(b * two_pow(s) + k == b);
            let r = rev_bits(b, m);
            let v = x[r as int].val();
            assert(a[b as int] == x[r as int]);
            assert(v < p());
            assert(r + 0 * n == r);
            let ww = fpow(omega, n);
            assert(fpow(ww, 0 * 0) == 1);
            lemma_small_mod(v, p());
            lemma_mul_basics(v as int);
            assert((m - s) as nat == m);
            assert(strided_sum(x, r, n, ww, 0, 0) == 0);
            assert(strided_sum(x, r, n, ww, 0, 1) == fadd(0, fmul(x[(r + 0 * n) as int].val(), fpow(ww, 0 * 0))));
            assert(stage_value(x, omega, m, s, b, k) == fadd(0, fmul(v, 1)));
        }
    } else {
        lemma_stages(x, omega, m, (s - 1) as nat);
        let prev = ntt_stages(bitrev_perm(x), omega, n, (s - 1) as nat);
        assert(a == butterfly_stage(prev, two_pow(s), fpow(omega, n / two_pow(s))));
        assert forall|b: nat, k: nat| b < two_pow((m - s) as nat) && k < two_pow(s)
            implies a[(b * two_pow(s) + k) as int].val() == #[trigger] stage_value(x, omega, m, s, b, k) by {
            lemma_stage_entry(x, omega, m, s, prev, b, k);
        }
    }
}

proof fn lemma_power_sum_front(c: Seq<Felt>, z: nat, count: nat)
    requires
        1 <= count <= c.len(),
    ensures
        power_sum(c, z, count) == fadd(fmul(power_sum(c.skip(1), z, (count - 1) as nat), z), c[0].val()),
    decreases count,
{
    let m = p() as int;
    if count == 1 {
        assert(fpow(z, 0) == 1);
        lemma_mul_basics(c[0].val() as int);
        lemma_mul_basics(z as int);
        lemma_small_mod(0, p());
        lemma_mod_twice(c[0].val() as int, m);
        let c0 = c[0].val();
        assert(power_sum(c, z, 0) == 0);
        assert(power_sum(c, z, 1) == fadd(power_sum(c, z, 0), fmul(c[0].val(), fpow(z, 0))));
        assert(fmul(c0, 1) == c0 % p());
        assert(fadd(0, c0 % p()) == c0 % p());
        assert(power_sum(c.skip(1), z, 0) == 0);
        assert(fmul(0, z) == 0);
        assert(fadd(0, c0) == c0 % p());
    } else {
        let u = (count - 1) as nat;
        lemma_power_sum_front(c, z, u);
        let rest = c.skip(1);
        let ps = power_sum(rest, z, (u - 1) as nat);
        let cu = c[u as int].val();
        assert(rest[(u - 1) as int] == c[u as int]);
        let sv = fmul(cu, fpow(z, (u - 1) as nat));
        assert(power_sum(rest, z, u) == fadd(ps, sv));
        assert(power_sum(c, z, count) == fadd(power_sum(c, z, u), fmul(cu, fpow(z, u))));
        assert(power_sum(c, z, u) == fadd(fmul(ps, z), c[0].val()));
        assert(fpow(z, u) == fmul(z, fpow(z, (u - 1) as nat)));
        law_mul_distributes(z, ps, sv);
        lemma_fmul_comm(fadd(ps, sv), z);
        lemma_fmul_comm(ps, z);
        lemma_fmul_comm(sv, z);
        lemma_fmul_assoc(cu, fpow(z, (u - 1) as nat), z);
        lemma_fmul_comm(fpow(z, (u - 1) as nat), z);
        lemma_fadd_swap(fmul(ps, z), c[0].val(), fmul(cu, fpow(z, u)));
        assert(fmul(fadd(ps, sv), z) == fadd(fmul(ps, z), fmul(cu, fpow(z, u))));
        assert(power_sum(c.skip(1), z, (count - 1) as nat) == fadd(ps, sv));
    }
}

/// The Horner value of a coefficient vector is the sum of each coefficient
/// times the matching power of the point.
pub proof fn lemma_poly_eval_sum(c: Seq<Felt>, z: nat)
    ensures
        poly_eval(c, z) == power_sum(c, z, c.len()),
    decreases c.len(),
{
    if c.len() > 0 {
        lemma_poly_eval_sum(c.skip(1), z);
        lemma_power_sum_front(c, z, c.len());
    }
}

proof fn lemma_strided_unit(x: Seq<Felt>, w: nat, k: nat, count: nat)
    ensures
        strided_sum(x, 0, 1, w, k, count) == power_sum(x, fpow(w, k), count),
    decreases count,
{
    if count > 0 {
        let u = (count - 1) as nat;
        lemma_strided_unit(x, w, k, u);
        assert(0 + u * 1 == u);
        assert(u * k == k * u) by (nonlinear_arith);
        lemma_fpow_mul(w, k, u);
    }
}

/// The transform of values whose reordering is canonical, for a root whose
/// power to half the length is minus one.
pub proof fn lemma_ntt_evaluates(x: Seq<Felt>, omega: nat)
    requires
        is_pow2(x.len()),
        forall|i: int| 0 <= i < x.len() ==> #[trigger] bitrev_perm(x)[i].val() < p(),
        x.len() == 1 || fpow(omega, x.len() / 2) == p() - 1,
    ensures
        spec_ntt(x, omega).len() == x.len(),
        forall|k: int| 0 <= k < x.len() ==> #[trigger] spec_ntt(x, omega)[k].val() == poly_eval(x, fpow(omega, k as nat)),
{
    let n = x.len();
    let m = log2(n);
    lemma_pow2_log2(n);
    if m >= 1 {
        assert(two_pow(m) == 2 * two_pow((m - 1) as nat));
        assert(n / 2 == two_pow((m - 1) as nat));
    }
    lemma_stages(x, omega, m, m);
    let a = spec_ntt(x, omega);
    assert(a == ntt_stages(bitrev_perm(x), omega, two_pow(m), m));
    assert forall|k: int| 0 <= k < n implies #[trigger] a[k].val() == poly_eval(x, fpow(omega, k as nat)) by {
        assert(two_pow(0) == 1);
        assert((m - m) as nat == 0);
        assert(0 * two_pow(m) + k == k);
        assert(a[(0 * two_pow(m) + k as nat) as int].val() == stage_value(x, omega, m, m, 0, k as nat));
        assert(rev_bits(0, 0) == 0);
        assert(fpow(omega, 1) == omega % p()) by {
            reveal_with_fuel(fpow, 2);
            lemma_mul_basics(omega as int);
        }
        lemma_strided_unit(x, omega % p(), k as nat, n);
        lemma_fpow_mod_base(omega, k as nat);
        lemma_poly_eval_sum(x, fpow(omega, k as nat));
    }
}

/// The transform of canonical values of power of two length under a root
/// whose power to half the length is minus one gives, at each position k,
/// the polynomial with the values as coefficients evaluated at the root to
/// the k.
pub proof fn law_ntt_is_evaluation(x: Seq<Felt>, omega: nat)
    requires
        is_pow2(x.len()),
        forall|i: int| 0 <= i < x.len() ==> #[trigger] x[i].val() < p(),
        x.len() == 1 || fpow(omega, x.len() / 2) == p() - 1,
    ensures
        spec_ntt(x, omega).len() == x.len(),
        forall|k: int| 0 <= k < x.len() ==> #[trigger] spec_ntt(x, omega)[k].val() == poly_eval(x, fpow(omega, k as nat)),
{
    lemma_pow2_log2(x.len());
    lemma_two_pow_is_pow2(log2(x.len()));
    assert forall|i: int| 0 <= i < x.len() implies #[trigger] bitrev_perm(x)[i].val() < p() by {
        lemma_rev_bits_bound(i as nat, log2(x.len()));
    }
    lemma_ntt_evaluates(x, omega);
}

proof fn lemma_power_sum_bound(c: Seq<Felt>, z: nat, count: nat)
    ensures
        power_sum(c, z, count) < p(),
{
    if count > 0 {
        let u = (count - 1) as nat;
        lemma_mod_bound((power_sum(c, z, u) + fmul(c[u as int].val(), fpow(z, u))) as int, p() as int);
    }
}

proof fn lemma_power_sum_agree(a: Seq<Felt>, b: Seq<Felt>, z: nat, count: nat)
    requires
        count <= a.len(),
        count <= b.len(),
        forall|i: int| 0 <= i < count ==> #[trigger] a[i].val() == b[i].val(),
    ensures
        power_sum(a, z, count) == power_sum(b, z, count),
    decreases count,
{
    if count > 0 {
        lemma_power_sum_agree(a, b, z, (count - 1) as nat);
    }
}

proof fn lemma_power_sum_zeros(a: Seq<Felt>, z: nat, from: nat, count: nat)
    requires
        from <= count <= a.len(),
        forall|i: int| from <= i < count ==> #[trigger] a[i].val() == 0,
    ensures
        power_sum(a, z, count) == power_sum(a, z, from),
    decreases count,
{
    if count > from {
        let u = (count - 1) as nat;
        lemma_power_sum_zeros(a, z, from, u);
        lemma_mul_basics(fpow(z, u) as int);
        lemma_small_mod(0, p());
        lemma_power_sum_bound(a, z, u);
        lemma_small_mod(power_sum(a, z, u), p());
    }
}

/// Zeros appended to a coefficient vector leave its value at every point.
pub proof fn lemma_padding_keeps_value(c: Seq<Felt>, size: nat, z: nat)
    requires
        c.len() <= size,
    ensures
        poly_eval(padded_coeffs(c, size), z) == poly_eval(c, z),
{
    let q = padded_coeffs(c, size);
    Felt::lemma_from_val(0);
    lemma_poly_eval_sum(q, z);
    lemma_poly_eval_sum(c, z);
    lemma_power_sum_zeros(q, z, c.len(), size);
    lemma_power_sum_agree(q, c, z, c.len());
}

/// The middle factors of a product of two products may swap.
pub proof fn lemma_fmul_swap_middle(a: nat, b: nat, c: nat, d: nat)
    ensures
        fmul(fmul(a, b), fmul(c, d)) == fmul(fmul(a, c), fmul(b, d)),
{
    let m = p() as int;
    lemma_mul_mod_noop((a * b) as int, (c * d) as int, m);
    lemma_mul_mod_noop((a * c) as int, (b * d) as int, m);
    assert((a * b) * (c * d) == (a * c) * (b * d)) by (nonlinear_arith);
}

/// A power of a product is the product of the powers.
pub proof fn lemma_fpow_of_product(g: nat, z: nat, u: nat)
    ensures
        fpow(fmul(g, z), u) == fmul(fpow(g, u), fpow(z, u)),
    decreases u,
{
    if u == 0 {
        lemma_small_mod(1, p());
        assert(fmul(1, 1) == 1);
    } else {
        let v = (u - 1) as nat;
        lemma_fpow_of_product(g, z, v);
        lemma_fmul_swap_middle(g, z, fpow(g, v), fpow(z, v));
        assert(fpow(fmul(g, z), u) == fmul(fmul(g, z), fpow(fmul(g, z), v)));
        assert(fpow(g, u) == fmul(g, fpow(g, v)));
        assert(fpow(z, u) == fmul(z, fpow(z, v)));
    }
}

proof fn lemma_power_sum_shift(c: Seq<Felt>, g: nat, z: nat, count: nat)
    requires
        count <= c.len(),
    ensures
        power_sum(shifted_coeffs(c, g), z, count) == power_sum(c, fmul(g, z), count),
    decreases count,
{
    if count > 0 {
        let u = (count - 1) as nat;
        lemma_power_sum_shift(c, g, z, u);
        let gu = fpow(g, u);
        let cu = c[u as int].val();
        lemma_mod_bound((cu * gu) as int, p() as int);
        Felt::lemma_from_val(fmul(cu, gu));
        assert(shifted_coeffs(c, g)[u as int].val() == fmul(cu, gu));
        lemma_fpow_of_product(g, z, u);
        lemma_fmul_assoc(cu, gu, fpow(z, u));
    }
}

/// The evaluations of the zero padded coefficients over the subgroup of a
/// log size, for a root of that order, are the coefficient polynomial at the
/// root's powers.
pub proof fn lemma_subgroup_evaluations(coeffs: Seq<Felt>, size: nat, omega: nat, evals: Seq<Felt>)
    requires
        coeffs.len() <= size,
        evals.len() == size,
        forall|k: int| 0 <= k < size ==> #[trigger] evals[k].val() == poly_eval(padded_coeffs(coeffs, size), fpow(omega, k as nat)),
    ensures
        forall|k: int| 0 <= k < size ==> #[trigger] evals[k].val() == poly_eval(coeffs, fpow(omega, k as nat)),
{
    assert forall|k: int| 0 <= k < size implies #[trigger] evals[k].val() == poly_eval(coeffs, fpow(omega, k as nat)) by {
        lemma_padding_keeps_value(coeffs, size, fpow(omega, k as nat));
    }
}

/// The evaluations of the shifted zero padded coefficients over the subgroup
/// are the coefficient polynomial at the shift times the root's powers.
pub proof fn lemma_coset_evaluations(coeffs: Seq<Felt>, size: nat, shift: nat, omega: nat, evals: Seq<Felt>)
    requires
        coeffs.len() <= size,
        evals.len() == size,
        forall|k: int| 0 <= k < size ==> #[trigger] evals[k].val()
            == poly_eval(shifted_coeffs(padded_coeffs(coeffs, size), shift), fpow(omega, k as nat)),
    ensures
        forall|k: int| 0 <= k < size ==> #[trigger] evals[k].val() == poly_eval(coeffs, fmul(shift, fpow(omega, k as nat))),
{
    assert forall|k: int| 0 <= k < size implies #[trigger] evals[k].val() == poly_eval(coeffs, fmul(shift, fpow(omega, k as nat))) by {
        let z = fpow(omega, k as nat);
        let q = padded_coeffs(coeffs, size);
        lemma_poly_eval_sum(shifted_coeffs(q, shift), z);
        lemma_power_sum_shift(q, shift, z, size);
        lemma_poly_eval_sum(q, fmul(shift, z));
        lemma_padding_keeps_value(coeffs, size, fmul(shift, z));
    }
}

/// The sum of the first powers of a point.
pub open spec fn geo_sum(z: nat, count: nat) -> nat
    decreases count,
{
    if count == 0 { 0 } else { fadd(geo_sum(z, (count - 1) as nat), fpow(z, (count - 1) as nat)) }
}

proof fn lemma_geo_bound(z: nat, count: nat)
    ensures
        geo_sum(z, count) < p(),
{
    if count > 0 {
        lemma_mod_bound((geo_sum(z, (count - 1) as nat) + fpow(z, (count - 1) as nat)) as int, p() as int);
    }
}

proof fn lemma_fadd_pairs(a: nat, b: nat, c: nat, d: nat)
    ensures
        fadd(fadd(a, b), fadd(c, d)) == fadd(fadd(a, c), fadd(b, d)),
{
    let m = p() as int;
    lemma_add_mod_noop((a + b) as int, (c + d) as int, m);
    lemma_add_mod_noop((a + c) as int, (b + d) as int, m);
}

proof fn lemma_geo_concat(z: nat, h: nat, c: nat)
    ensures
        geo_sum(z, h + c) == fadd(geo_sum(z, h), fmul(fpow(z, h), geo_sum(z, c))),
    decreases c,
{
    if c == 0 {
        lemma_mul_basics(fpow(z, h) as int);
        lemma_geo_bound(z, h);
        lemma_small_mod(geo_sum(z, h), p());
        lemma_small_mod(0, p());
    } else {
        let u = (c - 1) as nat;
        lemma_geo_concat(z, h, u);
        assert((h + c - 1) as nat == h + u);
        lemma_fpow_add(z, h, u);
        law_mul_distributes(fpow(z, h), geo_sum(z, u), fpow(z, u));
        law_add_associative(geo_sum(z, h), fmul(fpow(z, h), geo_sum(z, u)), fmul(fpow(z, h), fpow(z, u)));
    }
}

proof fn lemma_minus_one_power(d: nat)
    ensures
        fpow((p() - 1) as nat, d) == if d % 2 == 0 { 1 } else { (p() - 1) as nat },
    decreases d,
{
    let q = (p() - 1) as nat;
    if d >= 2 {
        let e = (d - 2) as nat;
        lemma_minus_one_power(e);
        assert(d == 2 + e);
        lemma_fpow_add(q, 2, e);
        lemma_minus_one_squared();
        lemma_small_mod(q, p());
        lemma_small_mod(1, p());
        let x = fpow(q, e);
        lemma_mul_basics(x as int);
        assert(fpow(q, d) == fmul(1, x));
        assert(d % 2 == e % 2);
        assert(fmul(1, x) == x % p());
    } else if d == 1 {
        lemma_small_mod(q, p());
        lemma_mul_basics(q as int);
        assert(fpow(q, 1) == fmul(q, fpow(q, 0)));
        assert(fpow(q, 0) == 1);
    }
}

/// The powers of a point of order two times h sum to zero over two times h.
proof fn lemma_geo_half_turn(z: nat, h: nat)
    requires
        fpow(z, h) == p() - 1,
    ensures
        geo_sum(z, 2 * h) == 0,
{
    lemma_geo_concat(z, h, h);
    let g = geo_sum(z, h);
    lemma_geo_bound(z, h);
    let m = p() as int;
    lemma_add_mod_noop_right(g as int, ((p() - 1) as nat * g) as int, m);
    assert(g + (p() - 1) as nat * g == m * g) by (nonlinear_arith)
        requires m == p();
    lemma_mod_multiples_vanish(g as int, 0, m);
    lemma_mul_is_commutative(m, g as int);
}

/// The powers of the root to any multiple from one to the order less one
/// sum to zero over the order, a power of two, when the root to half the
/// order is minus one.
proof fn lemma_geo_vanishes(r: nat, m: nat, d: nat)
    requires
        m >= 1,
        fpow(r, two_pow((m - 1) as nat)) == p() - 1,
        0 < d < two_pow(m),
    ensures
        geo_sum(fpow(r, d), two_pow(m)) == 0,
    decreases m,
{
    let h = two_pow((m - 1) as nat);
    let z = fpow(r, d);
    assert(two_pow(m) == 2 * h);
    lemma_fpow_mul(r, d, h);
    assert(d * h == h * d) by (nonlinear_arith);
    lemma_fpow_mul(r, h, d);
    lemma_minus_one_power(d);
    if d % 2 == 1 {
        lemma_geo_half_turn(z, h);
    } else {
        let d2 = d / 2;
        assert(m >= 2) by {
            if m == 1 {
                assert(two_pow(1) == 2);
            }
        }
        let r2 = fpow(r, 2);
        lemma_fpow_mul(r, 2, two_pow((m - 2) as nat));
        assert(h == 2 * two_pow((m - 2) as nat));
        assert(((m - 1) - 1) as nat == (m - 2) as nat);
        lemma_geo_vanishes(r2, (m - 1) as nat, d2);
        lemma_fpow_mul(r, 2, d2);
        assert(d == 2 * d2);
        lemma_geo_concat(z, h, h);
        lemma_mul_basics(0);
        lemma_small_mod(0, p());
    }
}

proof fn lemma_geo_one(count: nat)
    ensures
        geo_sum(1, count) == count % p(),
    decreases count,
{
    if count > 0 {
        let u = (count - 1) as nat;
        lemma_geo_one(u);
        lemma_fpow_one(u);
        assert(geo_sum(1, count) == fadd(geo_sum(1, u), fpow(1, u)));
        assert(geo_sum(1, count) == ((u % p()) + 1) % p());
        lemma_add_mod_noop_right(1, u as int, p() as int);
        assert((1 + (u as int) % (p() as int)) % (p() as int) == (1 + u as int) % (p() as int));
        assert(1 + u == count);
    } else {
        lemma_small_mod(0, p());
    }
}

/// The sum over k below a count of the first j terms of the coefficient
/// polynomial at r to the k, times y to the k.
pub open spec fn double_sum(c: Seq<Felt>, r: nat, y: nat, j: nat, count: nat) -> nat
    decreases count,
{
    if count == 0 {
        0
    } else {
        let k = (count - 1) as nat;
        fadd(double_sum(c, r, y, j, k), fmul(power_sum(c, fpow(r, k), j), fpow(y, k)))
    }
}

/// The sum over t below j of coefficient t times the power sum of r to the
/// t times y.
pub open spec fn weighted_geo(c: Seq<Felt>, r: nat, y: nat, j: nat, count: nat) -> nat
    decreases j,
{
    if j == 0 {
        0
    } else {
        let t = (j - 1) as nat;
        fadd(weighted_geo(c, r, y, t, count), fmul(c[t as int].val(), geo_sum(fmul(fpow(r, t), y), count)))
    }
}

proof fn lemma_double_sum_empty(c: Seq<Felt>, r: nat, y: nat, count: nat)
    ensures
        double_sum(c, r, y, 0, count) == 0,
    decreases count,
{
    if count > 0 {
        let k = (count - 1) as nat;
        lemma_double_sum_empty(c, r, y, k);
        lemma_small_mod(0, p());
        lemma_mul_basics(fpow(y, k) as int);
        assert(power_sum(c, fpow(r, k), 0) == 0);
        assert(fmul(0, fpow(y, k)) == 0);
    }
}

#[verifier::rlimit(40)]
proof fn lemma_double_sum_step(c: Seq<Felt>, r: nat, y: nat, j: nat, count: nat)
    ensures
        double_sum(c, r, y, j + 1, count) == fadd(
            double_sum(c, r, y, j, count),
            fmul(c[j as int].val(), geo_sum(fmul(fpow(r, j), y), count)),
        ),
    decreases count,
{
    let cj = c[j as int].val();
    let z = fmul(fpow(r, j), y);
    if count == 0 {
        lemma_mul_basics(cj as int);
        lemma_small_mod(0, p());
    } else {
        let k = (count - 1) as nat;
        lemma_double_sum_step(c, r, y, j, k);
        let yk = fpow(y, k);
        let x = fpow(r, k);
        let pp = power_sum(c, x, j);
        let tt = fmul(cj, fpow(x, j));
        assert(power_sum(c, x, j + 1) == fadd(pp, tt));
        law_mul_distributes(yk, pp, tt);
        lemma_fmul_comm(yk, fadd(pp, tt));
        lemma_fmul_comm(yk, pp);
        lemma_fmul_comm(yk, tt);
        lemma_fmul_assoc(cj, fpow(x, j), yk);
        lemma_fpow_mul(r, k, j);
        lemma_fpow_mul(r, j, k);
        assert(k * j == j * k) by (nonlinear_arith);
        lemma_fpow_of_product(fpow(r, j), y, k);
        let zk = fpow(z, k);
        assert(fmul(tt, yk) == fmul(cj, zk));
        let g = geo_sum(z, k);
        assert(geo_sum(z, count) == fadd(g, zk));
        law_mul_distributes(cj, g, zk);
        lemma_fadd_pairs(double_sum(c, r, y, j, k), fmul(cj, g), fmul(pp, yk), fmul(cj, zk));
    }
}

proof fn lemma_double_sum_collapse(c: Seq<Felt>, r: nat, y: nat, j: nat, count: nat)
    ensures
        double_sum(c, r, y, j, count) == weighted_geo(c, r, y, j, count),
    decreases j,
{
    if j == 0 {
        lemma_double_sum_empty(c, r, y, count);
    } else {
        lemma_double_sum_collapse(c, r, y, (j - 1) as nat, count);
        lemma_double_sum_step(c, r, y, (j - 1) as nat, count);
    }
}

proof fn lemma_outer_sum(c: Seq<Felt>, e: Seq<Felt>, r: nat, y: nat, j: nat, count: nat)
    requires
        count <= e.len(),
        forall|k: int| 0 <= k < count ==> #[trigger] e[k].val() == power_sum(c, fpow(r, k as nat), j),
    ensures
        power_sum(e, y, count) == double_sum(c, r, y, j, count),
    decreases count,
{
    if count > 0 {
        lemma_outer_sum(c, e, r, y, j, (count - 1) as nat);
        lemma_fmul_comm(e[(count - 1) as int].val(), fpow(y, (count - 1) as nat));
    }
}

/// For a root r of a power of two order n with r to half of n minus one,
/// and y the root to n less one to the i, the powers of r to the t times y
/// sum over n to n where t is i and to zero elsewhere.
proof fn lemma_orthogonal(r: nat, m: nat, i: nat, t: nat)
    requires
        m >= 1,
        fpow(r, two_pow((m - 1) as nat)) == p() - 1,
        i < two_pow(m),
        t < two_pow(m),
    ensures
        geo_sum(fmul(fpow(r, t), fpow(fpow(r, (two_pow(m) - 1) as nat), i)), two_pow(m))
            == if t == i { two_pow(m) % p() } else { 0 },
{
    let n = two_pow(m);
    let h = two_pow((m - 1) as nat);
    assert(n == 2 * h);
    lemma_fpow_mul(r, h, 2);
    lemma_minus_one_squared();
    assert(fpow(r, n) == 1);
    lemma_fpow_mul(r, (n - 1) as nat, i);
    let a = ((n - 1) as nat * i) as nat;
    lemma_fpow_add(r, t, a);
    let z = fpow(r, t + a);
    assert(fmul(fpow(r, t), fpow(fpow(r, (n - 1) as nat), i)) == z);
    if i == 0 {
        assert(a == 0) by (nonlinear_arith)
            requires a == (n - 1) as nat * i, i == 0;
        if t == 0 {
            assert(fpow(r, 0) == 1);
            lemma_geo_one(n);
        } else {
            lemma_geo_vanishes(r, m, t);
        }
    } else {
        let b = (i - 1) as nat;
        assert(t + a == (t + n - i) + n * b) by (nonlinear_arith)
            requires a == (n - 1) as nat * i, b == i - 1, i >= 1, n >= 1;
        lemma_fpow_add(r, (t + n - i) as nat, n * b);
        lemma_fpow_mul(r, n, b);
        lemma_fpow_one(b);
        let e = (t + n - i) as nat;
        lemma_fpow_mod(r, e);
        lemma_mul_basics(fpow(r, e) as int);
        assert(z == fpow(r, e));
        if t == i {
            assert(e == n);
            lemma_geo_one(n);
        } else if t > i {
            lemma_fpow_add(r, n, (t - i) as nat);
            assert(e == n + (t - i) as nat);
            lemma_fpow_mod(r, (t - i) as nat);
            lemma_small_mod(1, p());
            lemma_mul_basics(fpow(r, (t - i) as nat) as int);
            lemma_geo_vanishes(r, m, (t - i) as nat);
        } else {
            lemma_geo_vanishes(r, m, e);
        }
    }
}

proof fn lemma_weighted_pick(c: Seq<Felt>, r: nat, m: nat, i: nat, j: nat)
    requires
        m >= 1,
        fpow(r, two_pow((m - 1) as nat)) == p() - 1,
        i < two_pow(m),
        j <= two_pow(m),
        c.len() == two_pow(m),
    ensures
        weighted_geo(c, r, fpow(fpow(r, (two_pow(m) - 1) as nat), i), j, two_pow(m))
            == if i < j { fmul(c[i as int].val(), two_pow(m) % p()) } else { 0 },
    decreases j,
{
    if j > 0 {
        let t = (j - 1) as nat;
        lemma_weighted_pick(c, r, m, i, t);
        lemma_orthogonal(r, m, i, t);
        let prev = weighted_geo(c, r, fpow(fpow(r, (two_pow(m) - 1) as nat), i), t, two_pow(m));
        lemma_mul_basics(c[t as int].val() as int);
        lemma_small_mod(0, p());
        lemma_mod_bound((c[i as int].val() * (two_pow(m) % p())) as int, p() as int);
        lemma_small_mod(prev, p());
        if t == i {
            assert(prev == 0);
        }
    }
}

/// Interpolation inverts evaluation over a subgroup: for a root r of power
/// of two order n whose inverse is r to the n less one, the evaluations of
/// a coefficient vector at the powers of r, evaluated in turn at the powers
/// of the inverse, give n times each coefficient.
pub proof fn lemma_inverse_transform(c: Seq<Felt>, e: Seq<Felt>, r: nat, m: nat, i: nat)
    requires
        m >= 1,
        fpow(r, two_pow((m - 1) as nat)) == p() - 1,
        c.len() == two_pow(m),
        e.len() == two_pow(m),
        i < two_pow(m),
        forall|k: int| 0 <= k < e.len() ==> #[trigger] e[k].val() == poly_eval(c, fpow(r, k as nat)),
    ensures
        poly_eval(e, fpow(fpow(r, (two_pow(m) - 1) as nat), i)) == fmul(c[i as int].val(), two_pow(m) % p()),
{
    let n = two_pow(m);
    let y = fpow(fpow(r, (n - 1) as nat), i);
    assert forall|k: int| 0 <= k < n implies #[trigger] e[k].val() == power_sum(c, fpow(r, k as nat), n) by {
        lemma_poly_eval_sum(c, fpow(r, k as nat));
    }
    lemma_poly_eval_sum(e, y);
    lemma_outer_sum(c, e, r, y, n, n);
    lemma_double_sum_collapse(c, r, y, n, n);
    lemma_weighted_pick(c, r, m, i, n);
}

} // verus!
