//! Why an honest low degree proof ends in a constant: folding the
//! evaluations of a polynomial over a coset of a two adic subgroup gives the
//! evaluations, over the squared coset, of the polynomial whose coefficients
//! are the even coefficients plus the challenge times the shift times the odd
//! ones. Each fold halves the coefficient count, so evaluations of a
//! polynomial with at most two to the round count coefficients end, after
//! every round, as evaluations of a constant.
use vstd::prelude::*;
use vstd::arithmetic::div_mod::*;
use vstd::arithmetic::mul::*;
use crate::field::{Felt, fadd, fsub, fmul, fpow, finv, p};
use crate::fri::{FriField, spec_fold, spec_fold_layer, honest_layers, round_generator_inv};
use crate::util::two_pow;

verus! {

/// The value of integer coefficients at an integer point, constant first.
pub open spec fn ieval(c: Seq<int>, x: int) -> int
    decreases c.len(),
{
    if c.len() == 0 {
        0
    } else {
        c[0] + x * ieval(c.skip(1), x)
    }
}

/// The values of field elements as integers.
pub open spec fn vals(c: Seq<Felt>) -> Seq<int> {
    Seq::new(c.len(), |j: int| c[j].val() as int)
}

/// The coefficients at even positions.
pub open spec fn evens(c: Seq<int>) -> Seq<int>
    decreases c.len(),
{
    if c.len() == 0 {
        Seq::empty()
    } else if c.len() == 1 {
        seq![c[0]]
    } else {
        seq![c[0]] + evens(c.skip(2))
    }
}

/// The coefficients at odd positions.
pub open spec fn odds(c: Seq<int>) -> Seq<int>
    decreases c.len(),
{
    if c.len() < 2 {
        Seq::empty()
    } else {
        seq![c[1]] + odds(c.skip(2))
    }
}

/// The folded coefficients: each even coefficient plus k times the odd one
/// after it.
pub open spec fn fold_coeffs(c: Seq<int>, k: int) -> Seq<int>
    decreases c.len(),
{
    if c.len() == 0 {
        Seq::empty()
    } else if c.len() == 1 {
        seq![c[0]]
    } else {
        seq![c[0] + k * c[1]] + fold_coeffs(c.skip(2), k)
    }
}

proof fn lemma_ieval_cons(a: int, s: Seq<int>, x: int)
    ensures
        ieval(seq![a] + s, x) == a + x * ieval(s, x),
{
    assert((seq![a] + s).skip(1) =~= s);
}

proof fn lemma_ieval_two(c: Seq<int>, x: int)
    requires
        c.len() >= 2,
    ensures
        ieval(c, x) == c[0] + x * (c[1] + x * ieval(c.skip(2), x)),
{
    assert(c.skip(1).skip(1) =~= c.skip(2));
    assert(c.skip(1)[0] == c[1]);
    assert(ieval(c, x) == c[0] + x * ieval(c.skip(1), x));
    assert(ieval(c.skip(1), x) == c[1] + x * ieval(c.skip(2), x));
}

/// A polynomial splits into its even part at the square plus the point
/// times its odd part at the square.
pub proof fn lemma_even_odd(c: Seq<int>, x: int)
    ensures
        ieval(c, x) == ieval(evens(c), x * x) + x * ieval(odds(c), x * x),
    decreases c.len(),
{
    if c.len() == 0 {
    } else if c.len() == 1 {
        assert(c.skip(1) =~= Seq::<int>::empty());
        lemma_ieval_cons(c[0], Seq::empty(), x * x);
        assert(seq![c[0]] + Seq::<int>::empty() =~= seq![c[0]]);
        assert(ieval(Seq::<int>::empty(), x) == 0);
        assert(ieval(Seq::<int>::empty(), x * x) == 0);
        assert(ieval(c, x) == c[0] + x * ieval(c.skip(1), x));
        assert(evens(c) == seq![c[0]]);
        assert(odds(c) == Seq::<int>::empty());
        assert(x * 0 == 0);
        assert((x * x) * 0 == 0);
    } else {
        let rest = c.skip(2);
        lemma_even_odd(rest, x);
        assert(evens(c) == seq![c[0]] + evens(rest));
        assert(odds(c) == seq![c[1]] + odds(rest));
        lemma_ieval_two(c, x);
        lemma_ieval_cons(c[0], evens(rest), x * x);
        lemma_ieval_cons(c[1], odds(rest), x * x);
        let e = ieval(evens(rest), x * x);
        let o = ieval(odds(rest), x * x);
        assert(c[0] + x * (c[1] + x * (e + x * o)) == (c[0] + (x * x) * e) + x * (c[1] + (x * x) * o))
            by (nonlinear_arith);
    }
}

/// The folded polynomial is the even part plus k times the odd part.
pub proof fn lemma_fold_coeffs(c: Seq<int>, k: int, y: int)
    ensures
        ieval(fold_coeffs(c, k), y) == ieval(evens(c), y) + k * ieval(odds(c), y),
        fold_coeffs(c, k).len() == (c.len() + 1) / 2,
    decreases c.len(),
{
    if c.len() == 0 {
    } else if c.len() == 1 {
        lemma_ieval_cons(c[0], Seq::empty(), y);
        assert(seq![c[0]] + Seq::<int>::empty() =~= seq![c[0]]);
        assert(ieval(Seq::<int>::empty(), y) == 0);
        assert(y * 0 == 0 && k * 0 == 0);
        assert(fold_coeffs(c, k) == seq![c[0]]);
        assert(evens(c) == seq![c[0]]);
        assert(odds(c) == Seq::<int>::empty());
    } else {
        let rest = c.skip(2);
        lemma_fold_coeffs(rest, k, y);
        assert(fold_coeffs(c, k) == seq![c[0] + k * c[1]] + fold_coeffs(rest, k));
        assert(evens(c) == seq![c[0]] + evens(rest));
        assert(odds(c) == seq![c[1]] + odds(rest));
        lemma_ieval_cons(c[0] + k * c[1], fold_coeffs(rest, k), y);
        lemma_ieval_cons(c[0], evens(rest), y);
        lemma_ieval_cons(c[1], odds(rest), y);
        let e = ieval(evens(rest), y);
        let o = ieval(odds(rest), y);
        assert((c[0] + k * c[1]) + y * (e + k * o) == (c[0] + y * e) + k * (c[1] + y * o)) by (nonlinear_arith);
    }
}

/// At most one coefficient: the value does not depend on the point.
pub proof fn lemma_ieval_constant(c: Seq<int>, x: int, z: int)
    requires
        c.len() <= 1,
    ensures
        ieval(c, x) == ieval(c, z),
{
    if c.len() == 1 {
        assert(c.skip(1) =~= Seq::<int>::empty());
        assert(ieval(Seq::<int>::empty(), x) == 0);
        assert(ieval(Seq::<int>::empty(), z) == 0);
        assert(x * 0 == 0 && z * 0 == 0);
        assert(ieval(c, x) == c[0] + x * ieval(c.skip(1), x));
        assert(ieval(c, z) == c[0] + z * ieval(c.skip(1), z));
    }
}

/// The Horner value of field coefficients is their integer value reduced.
pub proof fn lemma_poly_eval_ieval(c: Seq<Felt>, x: nat)
    ensures
        crate::poly::poly_eval(c, x) == ieval(vals(c), x as int) % (p() as int),
    decreases c.len(),
{
    let m = p() as int;
    if c.len() == 0 {
        lemma_small_mod(0, p());
    } else {
        lemma_poly_eval_ieval(c.skip(1), x);
        assert(vals(c).skip(1) =~= vals(c.skip(1)));
        let r = ieval(vals(c.skip(1)), x as int);
        lemma_mul_mod_noop_left(r, x as int, m);
        lemma_add_mod_noop_right(c[0].val() as int, r * x, m);
        lemma_add_mod_noop((r * x) % m, c[0].val() as int, m);
        lemma_mod_twice(r * x, m);
        lemma_mul_is_commutative(r, x as int);
        assert(crate::poly::poly_eval(c, x) == (((r % m) * x) % m + c[0].val()) % m);
        lemma_add_mod_noop(r * x, c[0].val() as int, m);
        lemma_mod_twice(c[0].val() as int, m);
        assert((((r * x) % m) + c[0].val()) % m == (r * x + c[0].val()) % m) by {
            lemma_add_mod_noop_right(c[0].val() as int, r * x, m);
        }
    }
}

/// Points congruent modulo the field order give congruent values.
pub proof fn lemma_ieval_congruent(c: Seq<int>, x: int, z: int)
    requires
        x % (p() as int) == z % (p() as int),
    ensures
        ieval(c, x) % (p() as int) == ieval(c, z) % (p() as int),
    decreases c.len(),
{
    let m = p() as int;
    if c.len() > 0 {
        lemma_ieval_congruent(c.skip(1), x, z);
        let a = ieval(c.skip(1), x);
        let b = ieval(c.skip(1), z);
        lemma_mul_mod_noop(x, a, m);
        lemma_mul_mod_noop(z, b, m);
        lemma_add_mod_noop_right(c[0], x * a, m);
        lemma_add_mod_noop_right(c[0], z * b, m);
    }
}

proof fn cong_add(a: int, b: int, c: int, d: int)
    requires
        a % (p() as int) == b % (p() as int),
        c % (p() as int) == d % (p() as int),
    ensures
        (a + c) % (p() as int) == (b + d) % (p() as int),
{
    lemma_add_mod_noop(a, c, p() as int);
    lemma_add_mod_noop(b, d, p() as int);
}

proof fn cong_sub(a: int, b: int, c: int, d: int)
    requires
        a % (p() as int) == b % (p() as int),
        c % (p() as int) == d % (p() as int),
    ensures
        (a - c) % (p() as int) == (b - d) % (p() as int),
{
    lemma_sub_mod_noop(a, c, p() as int);
    lemma_sub_mod_noop(b, d, p() as int);
}

proof fn cong_mul(a: int, b: int, c: int, d: int)
    requires
        a % (p() as int) == b % (p() as int),
        c % (p() as int) == d % (p() as int),
    ensures
        (a * c) % (p() as int) == (b * d) % (p() as int),
{
    lemma_mul_mod_noop(a, c, p() as int);
    lemma_mul_mod_noop(b, d, p() as int);
}

proof fn cong_reduced(a: int)
    ensures
        (a % (p() as int)) % (p() as int) == a % (p() as int),
{
    lemma_mod_twice(a, p() as int);
}

/// The fold of a pair in field arithmetic: when the pair holds e plus x o and
/// e less x o, the inverse point times x is the shift, and t halves, the
/// fold is e plus the challenge times the shift times o.
#[verifier::spinoff_prover]
pub proof fn lemma_fold_value(l: nat, h: nat, c: nat, xi: nat, t: nat, e: int, o: int, x: int, s: int)
    requires
        l == (e + x * o) % (p() as int),
        h == (e - x * o) % (p() as int),
        (x * xi) % (p() as int) == s % (p() as int),
        (2 * t as int) % (p() as int) == 1,
    ensures
        fmul(fadd(fadd(l, h), fmul(fmul(c, fsub(l, h)), xi)), t) == (e + c * s * o) % (p() as int),
{
    let m = p() as int;
    let li = l as int;
    let hi = h as int;
    let ci = c as int;
    let xii = xi as int;
    let ti = t as int;
    cong_reduced(e + x * o);
    cong_reduced(e - x * o);
    // the sum and difference of the pair
    cong_add(li, e + x * o, hi, e - x * o);
    assert((e + x * o) + (e - x * o) == 2 * e);
    cong_sub(li, e + x * o, hi, e - x * o);
    assert((e + x * o) - (e - x * o) == 2 * (x * o));
    let a = fadd(l, h);
    let b = fsub(l, h);
    cong_reduced(li + hi);
    cong_reduced(li - hi);
    assert(a as int % m == (2 * e) % m);
    assert(b as int % m == (2 * (x * o)) % m);
    let d = fmul(c, b);
    cong_reduced(ci * b as int);
    cong_mul(ci, ci, b as int, 2 * (x * o));
    assert(d as int % m == (ci * (2 * (x * o))) % m);
    let ex = fmul(d, xi);
    cong_reduced(d as int * xii);
    cong_mul(d as int, ci * (2 * (x * o)), xii, xii);
    let w = ci * (2 * (x * o)) * xii;
    assert(ex as int % m == w % m);
    let g = fadd(a, ex);
    cong_reduced(a as int + ex as int);
    cong_add(a as int, 2 * e, ex as int, w);
    let f = fmul(g, t);
    cong_reduced(g as int * ti);
    cong_mul(g as int, 2 * e + w, ti, ti);
    assert(f as int % m == ((2 * e + w) * ti) % m);
    let k = 2 * ti * ci * o;
    lemma_mul_is_distributive_add_other_way(ti, 2 * e, w);
    assert((2 * e) * ti == (2 * ti) * e) by (nonlinear_arith);
    assert(ci * (2 * (x * o)) * xii * ti == (2 * ti * ci * o) * (x * xii)) by (nonlinear_arith);
    assert((2 * e + w) * ti == (2 * ti) * e + k * (x * xii));
    cong_mul(k, k, x * xii, s);
    cong_add((2 * ti) * e, (2 * ti) * e, k * (x * xii), k * s);
    assert((2 * ti * ci * o) * s == (2 * ti) * (ci * s * o)) by (nonlinear_arith);
    lemma_mul_is_distributive_add(2 * ti, e, ci * s * o);
    assert((2 * ti) * e + k * s == (2 * ti) * (e + ci * s * o));
    lemma_small_mod(1, p());
    cong_mul(2 * ti, 1, e + ci * s * o, e + ci * s * o);
    assert(f as int % m == (e + ci * s * o) % m);
    lemma_mod_bound(g as int * ti, m);
    lemma_small_mod(f, p());
}

/// A layer holds the values of integer coefficients at the coset points, the
/// shift times the powers of w.
pub open spec fn layer_holds(layer: Seq<Felt>, c: Seq<int>, s: nat, w: nat) -> bool {
    forall|i: int| 0 <= i < layer.len()
        ==> #[trigger] layer[i].val() == ieval(c, fmul(s, fpow(w, i as nat)) as int) % (p() as int)
}

proof fn lemma_fmul_cong(a: nat, b: nat)
    ensures
        fmul(a, b) as int % (p() as int) == (a as int * b as int) % (p() as int),
{
    lemma_mod_twice(a as int * b as int, p() as int);
}

/// The value of the fold of a Felt pair under a challenge and an inverse point.
proof fn lemma_spec_fold_val(low: Felt, high: Felt, ch: Felt, xi: nat)
    requires
        xi < p(),
    ensures
        spec_fold(low, high, ch, Felt::from_val(xi)).val()
            == fmul(fadd(fadd(low.val(), high.val()), fmul(fmul(ch.val(), fsub(low.val(), high.val())), xi)), finv(2)),
{
    let l = low.val();
    let h = high.val();
    let c = ch.val();
    let m = p() as int;
    lemma_mod_bound((l + h) as int, m);
    lemma_mod_bound(l as int - h as int, m);
    let b = fsub(l, h);
    lemma_mod_bound((c * b) as int, m);
    let d = fmul(c, b);
    Felt::lemma_from_val(xi);
    lemma_mod_bound((d * xi) as int, m);
    let a = fadd(l, h);
    let ex = fmul(d, xi);
    lemma_mod_bound((a + ex) as int, m);
    crate::field::lemma_fpow_bound(2, (p() - 2) as nat);
    let t = finv(2);
    Felt::lemma_from_val(t);
    let g = fadd(a, ex);
    lemma_mod_bound((g * t) as int, m);
    Felt::lemma_from_val(a);
    Felt::lemma_from_val(b);
    Felt::lemma_from_val(d);
    Felt::lemma_from_val(ex);
    Felt::lemma_from_val(g);
    Felt::lemma_from_val(fmul(g, t));
    assert(low.spec_sub(high).val() == b);
    assert(ch.spec_mul(low.spec_sub(high)).val() == d);
    assert(ch.spec_mul(low.spec_sub(high)).spec_scale(Felt::from_val(xi)).val() == ex);
    assert(low.spec_add(high).val() == a);
    assert(low.spec_add(high).spec_add(ch.spec_mul(low.spec_sub(high)).spec_scale(Felt::from_val(xi))).val() == g);
}

/// One fold of a layer of coset values gives the folded coefficients' values
/// on the squared coset, when w has order twice the half length, h inverts
/// w, and the shift, w and h are canonical.
#[verifier::spinoff_prover]
#[verifier::rlimit(60)]
pub proof fn lemma_fold_layer_holds(layer: Seq<Felt>, c: Seq<int>, s: nat, w: nat, h: nat, ch: Felt, m: nat)
    requires
        m >= 1,
        layer.len() == 2 * m,
        layer_holds(layer, c, s, w),
        fpow(w, m) == p() - 1,
        fmul(h, w) == 1,
        h < p(),
        s < p(),
        w < p(),
    ensures
        spec_fold_layer(layer, ch, Felt::from_val(h)).len() == m,
        layer_holds(spec_fold_layer(layer, ch, Felt::from_val(h)), fold_coeffs(c, (ch.val() * s) as int), fmul(s, s), fmul(w, w)),
{
    let pm = p() as int;
    let next = spec_fold_layer(layer, ch, Felt::from_val(h));
    Felt::lemma_from_val(h);
    assert(layer.len() / 2 == m);
    crate::poly::lemma_size_inverse(1);
    assert(crate::util::two_pow(1) == 2) by {
        reveal_with_fuel(crate::util::two_pow, 2);
    }
    lemma_small_mod(2, p());
    let t = finv(2);
    assert((2 * t as int) % pm == 1);
    assert forall|i: int| 0 <= i < next.len()
        implies #[trigger] next[i].val() == ieval(fold_coeffs(c, (ch.val() * s) as int), fmul(fmul(s, s), fpow(fmul(w, w), i as nat)) as int) % pm by {
        let wi = fpow(w, i as nat);
        let x = fmul(s, wi);
        let xm = fmul(s, fpow(w, (i + m) as nat));
        let xi = fpow(h, i as nat);
        crate::field::lemma_fpow_bound(h, i as nat);
        lemma_spec_fold_val(layer[i], layer[i + m], ch, xi);
        assert(layer[i].val() == ieval(c, x as int) % pm);
        assert(layer[(i + m) as int].val() == ieval(c, xm as int) % pm);
        let e = ieval(evens(c), x as int * x as int);
        let o = ieval(odds(c), x as int * x as int);
        lemma_even_odd(c, x as int);
        lemma_even_odd(c, xm as int);
        // xm is minus x
        crate::field::lemma_fpow_add(w, i as nat, m);
        lemma_fmul_cong(wi, (p() - 1) as nat);
        lemma_fmul_cong(s, fmul(wi, (p() - 1) as nat));
        cong_mul(s as int, s as int, fmul(wi, (p() - 1) as nat) as int, wi as int * (p() - 1));
        assert(s as int * (wi as int * (p() - 1)) == pm * (s as int * wi as int) + (-(s as int * wi as int))) by (nonlinear_arith)
            requires pm == p();
        lemma_mod_multiples_vanish(s as int * wi as int, -(s as int * wi as int), pm);
        lemma_fmul_cong(s, wi);
        cong_sub(0, 0, s as int * wi as int, x as int);
        assert(xm as int % pm == (-(x as int)) % pm);
        // the squares agree
        cong_mul(xm as int, -(x as int), xm as int, -(x as int));
        assert((-(x as int)) * (-(x as int)) == x as int * x as int) by (nonlinear_arith);
        lemma_ieval_congruent(evens(c), xm as int * xm as int, x as int * x as int);
        lemma_ieval_congruent(odds(c), xm as int * xm as int, x as int * x as int);
        let e2 = ieval(evens(c), xm as int * xm as int);
        let o2 = ieval(odds(c), xm as int * xm as int);
        cong_mul(xm as int, -(x as int), o2, o);
        cong_add(e2, e, xm as int * o2, (-(x as int)) * o);
        assert(e + (-(x as int)) * o == e - x as int * o) by (nonlinear_arith);
        assert(layer[(i + m) as int].val() == (e - x as int * o) % pm);
        // the inverse point times the point is the shift
        crate::transform::lemma_fpow_of_product(h, w, i as nat);
        crate::transform::lemma_fpow_one(i as nat);
        lemma_fmul_cong(x, xi);
        lemma_fmul_cong(s, wi);
        cong_mul(x as int, s as int * wi as int, xi as int, xi as int);
        crate::field::lemma_fmul_assoc(s, wi, xi);
        lemma_fmul_cong(s, fmul(wi, xi));
        lemma_small_mod(1, p());
        lemma_fmul_cong(s, 1);
        crate::field::lemma_fmul_comm(wi, xi);
        assert(fmul(xi, wi) == 1);
        assert(fmul(x, xi) == s) by {
            lemma_small_mod(s, p());
        }
        assert((x as int * xi as int) % pm == s as int % pm);
        lemma_fold_value(layer[i].val(), layer[(i + m) as int].val(), ch.val(), xi, t, e, o, x as int, s as int);
        // the folded coefficients at the squared point
        let y = fmul(fmul(s, s), fpow(fmul(w, w), i as nat));
        crate::transform::lemma_fpow_of_product(w, w, i as nat);
        crate::transform::lemma_fmul_swap_middle(s, s, wi, wi);
        lemma_fmul_cong(x, x);
        lemma_fold_coeffs(c, (ch.val() * s) as int, y as int);
        lemma_ieval_congruent(evens(c), y as int, x as int * x as int);
        lemma_ieval_congruent(odds(c), y as int, x as int * x as int);
        let k = ch.val() as int * s as int;
        cong_mul(k, k, ieval(odds(c), y as int), o);
        cong_add(ieval(evens(c), y as int), e, k * ieval(odds(c), y as int), k * o);
        assert(k * o == ch.val() * s * o);
    }
}

/// The coefficients after the first r folds: round t folds under its
/// challenge times the shift squared t times.
pub open spec fn fold_chain(c: Seq<int>, chs: Seq<Felt>, s: nat, r: nat) -> Seq<int>
    decreases r,
{
    if r == 0 {
        c
    } else {
        let t = (r - 1) as nat;
        fold_coeffs(fold_chain(c, chs, s, t), (chs[t as int].val() * round_generator_inv(s, t)) as int)
    }
}

/// Squaring a canonical value r times raises it to two to the r.
pub proof fn lemma_square_power(x: nat, r: nat)
    requires
        x < p(),
    ensures
        round_generator_inv(x, r) == fpow(x, two_pow(r)),
        round_generator_inv(x, r) < p(),
    decreases r,
{
    if r == 0 {
        assert(fpow(x, 1) == fmul(x, fpow(x, 0)));
        lemma_small_mod(x, p());
        lemma_mul_basics(x as int);
    } else {
        let t = (r - 1) as nat;
        lemma_square_power(x, t);
        crate::field::lemma_fpow_add(x, two_pow(t), two_pow(t));
        crate::field::lemma_fpow_bound(x, two_pow(r));
    }
}

proof fn lemma_square_inverse(g: nat, w: nat, r: nat)
    requires
        fmul(g, w) == 1,
    ensures
        fmul(round_generator_inv(g, r), round_generator_inv(w, r)) == 1,
    decreases r,
{
    if r > 0 {
        let t = (r - 1) as nat;
        lemma_square_inverse(g, w, t);
        let a = round_generator_inv(g, t);
        let b = round_generator_inv(w, t);
        crate::transform::lemma_fmul_swap_middle(a, a, b, b);
        lemma_small_mod(1, p());
    }
}

proof fn lemma_chain_len(c: Seq<int>, chs: Seq<Felt>, s: nat, big: nat, r: nat)
    requires
        c.len() <= two_pow(big),
        r <= big,
    ensures
        fold_chain(c, chs, s, r).len() <= two_pow((big - r) as nat),
    decreases r,
{
    if r > 0 {
        let t = (r - 1) as nat;
        lemma_chain_len(c, chs, s, big, t);
        let k = (chs[t as int].val() * round_generator_inv(s, t)) as int;
        lemma_fold_coeffs(fold_chain(c, chs, s, t), k, 0);
        assert(two_pow((big - t) as nat) == 2 * two_pow((big - r) as nat)) by {
            assert((big - t) as nat == ((big - r) as nat + 1) as nat);
        }
    }
}

/// Every round keeps the layer as the values of the folded coefficients on
/// the coset squared once more.
#[verifier::spinoff_prover]
proof fn lemma_rounds_hold(evals: Seq<Felt>, chs: Seq<Felt>, c: Seq<int>, s0: nat, w0: nat, g0: nat, l: nat, r: nat)
    requires
        l >= 1,
        r <= l,
        evals.len() == two_pow(l),
        layer_holds(evals, c, s0, w0),
        s0 < p(),
        w0 < p(),
        g0 < p(),
        fmul(g0, w0) == 1,
        fpow(w0, two_pow((l - 1) as nat)) == p() - 1,
    ensures
        honest_layers(evals, chs, g0, r).len() == two_pow((l - r) as nat),
        layer_holds(honest_layers(evals, chs, g0, r), fold_chain(c, chs, s0, r), round_generator_inv(s0, r),
            round_generator_inv(w0, r)),
    decreases r,
{
    if r > 0 {
        let t = (r - 1) as nat;
        lemma_rounds_hold(evals, chs, c, s0, w0, g0, l, t);
        let layer = honest_layers(evals, chs, g0, t);
        let m = two_pow((l - r) as nat);
        assert(two_pow((l - t) as nat) == 2 * m) by {
            assert((l - t) as nat == ((l - r) as nat + 1) as nat);
        }
        crate::util::lemma_two_pow_is_pow2((l - r) as nat);
        let st = round_generator_inv(s0, t);
        let wt = round_generator_inv(w0, t);
        let gt = round_generator_inv(g0, t);
        lemma_square_power(s0, t);
        lemma_square_power(w0, t);
        lemma_square_power(g0, t);
        lemma_square_inverse(g0, w0, t);
        crate::field::lemma_fpow_mul(w0, two_pow(t), m);
        crate::util::lemma_two_pow_add(t, (l - r) as nat);
        assert((t + (l - r)) as nat == (l - 1) as nat);
        crate::field::lemma_fmul_comm(gt, wt);
        lemma_fold_layer_holds(layer, fold_chain(c, chs, s0, t), st, wt, gt, chs[t as int], m);
        assert(honest_layers(evals, chs, g0, r) == spec_fold_layer(layer, chs[t as int], Felt::from_val(gt)));
    }
}

/// Evaluations over a coset of the subgroup of order two to l of a
/// polynomial with at most two to the round count coefficients end, after
/// every honest fold, as a constant layer.
pub proof fn lemma_low_degree_folds_to_constant(
    evals: Seq<Felt>,
    chs: Seq<Felt>,
    coeffs: Seq<Felt>,
    shift: nat,
    l: nat,
    rounds: nat,
)
    requires
        1 <= l <= crate::field::TWO_ADICITY,
        rounds <= l,
        evals.len() == two_pow(l),
        shift < p(),
        coeffs.len() <= two_pow(rounds),
        forall|i: int| 0 <= i < evals.len() ==> #[trigger] evals[i].val()
            == crate::poly::poly_eval(coeffs, fmul(shift, fpow(crate::poly::subgroup_root(l as u32), i as nat))),
    ensures
        forall|i: int| 0 <= i < honest_layers(evals, chs, crate::fri::domain_generator_inv(l as u32), rounds).len()
            ==> #[trigger] honest_layers(evals, chs, crate::fri::domain_generator_inv(l as u32), rounds)[i]
                == honest_layers(evals, chs, crate::fri::domain_generator_inv(l as u32), rounds)[0],
{
    let w0 = crate::poly::subgroup_root(l as u32);
    let g0 = crate::fri::domain_generator_inv(l as u32);
    let n = two_pow(l);
    assert(g0 == finv(w0));
    crate::field::law_root_of_unity_order(l as u32);
    crate::poly::lemma_root_inverse_power(l as u32);
    crate::field::lemma_fpow_bound(7, (((crate::field::MODULUS - 1) as u64) >> (l as u32)) as nat);
    assert(w0 < p());
    crate::util::lemma_two_pow_is_pow2(l);
    assert(fpow(w0, n) == fmul(w0, fpow(w0, (n - 1) as nat)));
    crate::field::lemma_fmul_comm(w0, g0);
    crate::field::lemma_fpow_bound(w0, (n - 1) as nat);
    let c = vals(coeffs);
    assert forall|i: int| 0 <= i < evals.len()
        implies #[trigger] evals[i].val() == ieval(c, fmul(shift, fpow(w0, i as nat)) as int) % (p() as int) by {
        lemma_poly_eval_ieval(coeffs, fmul(shift, fpow(w0, i as nat)));
    }
    lemma_rounds_hold(evals, chs, c, shift, w0, g0, l, rounds);
    lemma_chain_len(c, chs, shift, rounds, rounds);
    assert(two_pow(0) == 1);
    let last = honest_layers(evals, chs, g0, rounds);
    let cr = fold_chain(c, chs, shift, rounds);
    let sr = round_generator_inv(shift, rounds);
    let wr = round_generator_inv(w0, rounds);
    assert forall|i: int| 0 <= i < last.len() implies #[trigger] last[i] == last[0] by {
        lemma_ieval_constant(cr, fmul(sr, fpow(wr, i as nat)) as int, fmul(sr, fpow(wr, 0)) as int);
        assert(last[i].val() == last[0].val());
        Felt::lemma_val_injective(last[i], last[0]);
    }
}

} // verus!
