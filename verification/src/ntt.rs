//! The number theoretic transform modulo the lattice prime as a butterfly
//! network laid out one butterfly per row, the products and the modular
//! sums and differences range checked by bits, the wiring between layers
//! tied by a permutation of identified values.
use vstd::prelude::*;
use vstd::arithmetic::power::pow;
use crate::air::{Air, Boundary, Expr, ExtExpr, TraceTable, bool_val, cell_val, fill_bits, recompose_val};
use crate::field::{Felt, fadd, fmul, fsub, p};
use crate::lattice::{Q, RESIDUE_BITS};
use crate::util::{is_pow2, log2, two_pow};

verus! {

broadcast use Felt::lemma_val_injective, TraceTable::lemma_width_fits, TraceTable::lemma_length_fits;

/// The butterfly input at the lower index.
pub const A: usize = 0;
/// The butterfly input at the upper index.
pub const B: usize = 1;
/// The twiddle factor.
pub const W: usize = 2;
/// The twiddle times the upper input, reduced.
pub const M: usize = 3;
/// The reduced sum.
pub const S: usize = 4;
/// The reduced difference.
pub const D: usize = 5;
/// The quotient of the product.
pub const MQ: usize = 6;
/// The carry of the sum.
pub const CS: usize = 7;
/// The borrow of the difference.
pub const CD: usize = 8;
/// The wire identity of the lower input.
pub const A_ID: usize = 9;
/// The wire identity of the upper input.
pub const B_ID: usize = 10;
/// The wire identity of the sum.
pub const S_ID: usize = 11;
/// The wire identity of the difference.
pub const D_ID: usize = 12;
/// The product bits.
pub const M_BITS: usize = 13;
/// The product slack bits.
pub const M_SLACK: usize = M_BITS + RESIDUE_BITS;
/// The sum bits.
pub const S_BITS: usize = M_SLACK + RESIDUE_BITS;
/// The sum slack bits.
pub const S_SLACK: usize = S_BITS + RESIDUE_BITS;
/// The difference bits.
pub const D_BITS: usize = S_SLACK + RESIDUE_BITS;
/// The difference slack bits.
pub const D_SLACK: usize = D_BITS + RESIDUE_BITS;
/// The quotient bits.
pub const MQ_BITS: usize = D_SLACK + RESIDUE_BITS;
/// The first layer selector column.
pub const SEL0: usize = MQ_BITS + RESIDUE_BITS;

/// The column width of a transform trace with the given number of layers.
pub fn width(layers: u32) -> (w: usize)
    requires
        SEL0 + layers <= usize::MAX,
    ensures
        w == SEL0 + layers,
{
    SEL0 + layers as usize
}

/// A number to a power modulo a modulus above one.
pub open spec fn mod_pow(base: nat, exp: nat, modulus: nat) -> nat {
    (pow(base as int, exp) % (modulus as int)) as nat
}

proof fn lemma_pow_step(result: int, b: int, e: nat, m: int)
    requires
        m > 0,
    ensures
        (result * pow(b, e)) % m == ((if e % 2 == 1 { (result * b) % m } else { result }) * pow((b * b) % m, e / 2)) % m,
{
    let h = e / 2;
    let r = e % 2;
    vstd::arithmetic::power::lemma_pow_adds(b, 2 * h, r as nat);
    assert(e == 2 * h + r);
    vstd::arithmetic::power::lemma_pow_multiplies(b, 2, h);
    vstd::arithmetic::power::lemma_pow1(b);
    vstd::arithmetic::power::lemma_pow0(b);
    vstd::arithmetic::power::lemma_pow_adds(b, 1, 1);
    assert(pow(b, 2) == b * b);
    let x = pow(b * b, h);
    assert(pow(b, 2 * h) == x) by {
        assert(pow(pow(b, 2), h) == pow(b, 2 * h));
    }
    vstd::arithmetic::power::lemma_pow_mod_noop(b * b, h, m);
    let y = pow((b * b) % m, h);
    assert(y % m == x % m);
    if r == 1 {
        assert(pow(b, 1) == b);
        assert(pow(b, e) == x * b);
        assert(result * pow(b, e) == (result * b) * x) by (nonlinear_arith)
            requires pow(b, e) == x * b;
        vstd::arithmetic::div_mod::lemma_mul_mod_noop_general(result * b, x, m);
        vstd::arithmetic::div_mod::lemma_mul_mod_noop_general(result * b, y, m);
        vstd::arithmetic::div_mod::lemma_mul_mod_noop_general((result * b) % m, y, m);
    } else {
        assert(pow(b, 0) == 1);
        assert(pow(b, e) == x) by {
            vstd::arithmetic::mul::lemma_mul_basics(x);
        }
        vstd::arithmetic::div_mod::lemma_mul_mod_noop_general(result, x, m);
        vstd::arithmetic::div_mod::lemma_mul_mod_noop_general(result, y, m);
    }
}

/// A number to a power modulo a modulus, by squaring and multiplying.
pub fn pow_mod(base: u64, exp: u64, modulus: u64) -> (r: u64)
    requires
        modulus > 1,
    ensures
        r == mod_pow(base as nat, exp as nat, modulus as nat),
        r < modulus,
{
    let m = modulus as u128;
    let mut result: u128 = 1;
    let mut b: u128 = base as u128 % m;
    let mut e = exp;
    proof {
        vstd::arithmetic::power::lemma_pow_mod_noop(base as int, exp as nat, m as int);
        vstd::arithmetic::div_mod::lemma_small_mod(1, m as nat);
        assert(1 * pow(b as int, e as nat) == pow(b as int, e as nat));
    }
    while e > 0
        invariant
            m == modulus as u128,
            m > 1,
            result < m,
            b < m,
            (result * pow(b as int, e as nat)) % (m as int) == pow(base as int, exp as nat) % (m as int),
        decreases e,
    {
        proof {
            lemma_pow_step(result as int, b as int, e as nat, m as int);
            assert(result * b <= (m - 1) * (m - 1)) by (nonlinear_arith)
                requires result < m, b < m;
            assert(b * b <= (m - 1) * (m - 1)) by (nonlinear_arith)
                requires b < m;
            assert((m - 1) * (m - 1) <= u128::MAX) by (nonlinear_arith)
                requires m <= u64::MAX + 1;
        }
        if e & 1 == 1 {
            result = result * b % m;
        }
        b = b * b % m;
        proof {
            assert((e & 1 == 1) == (e % 2 == 1)) by (bit_vector);
            assert(e >> 1 == e / 2) by (bit_vector);
        }
        e = e >> 1;
    }
    proof {
        assert(pow(b as int, 0) == 1) by {
            reveal(pow);
        }
        vstd::arithmetic::div_mod::lemma_small_mod(result as nat, m as nat);
    }
    result as u64
}

/// The candidate root of order n from a base: the base to the power of the
/// modulus less one over n.
pub open spec fn root_candidate(base: nat, n: nat) -> nat {
    mod_pow(base, ((Q - 1) as nat / n) as nat, Q as nat)
}

/// The candidate from a base has order exactly n.
pub open spec fn root_works(base: nat, n: nat) -> bool {
    &&& mod_pow(root_candidate(base, n), n, Q as nat) == 1
    &&& mod_pow(root_candidate(base, n), n / 2, Q as nat) != 1
}

/// Some base from two up to sixty four gives a root of order n.
pub open spec fn has_root_q(n: nat) -> bool {
    exists|b: nat| 2 <= b < 64 && #[trigger] root_works(b, n)
}

/// The first base from two on whose candidate has order exactly n.
pub open spec fn first_root_base(n: nat) -> nat {
    choose|b: nat| 2 <= b < 64 && #[trigger] root_works(b, n) && forall|c: nat| 2 <= c < b ==> !#[trigger] root_works(c, n)
}

/// The root of unity of order n the search gives.
pub open spec fn spec_root_q(n: nat) -> nat {
    root_candidate(first_root_base(n), n)
}

/// A primitive root of unity of a power of two order modulo the lattice
/// prime: the candidate of the first base from two on that gives one.
pub fn root_of_unity_q(n: usize) -> (r: u64)
    requires
        is_pow2(n as nat),
        has_root_q(n as nat),
    ensures
        r == spec_root_q(n as nat),
        root_works(first_root_base(n as nat), n as nat),
        r < Q,
{
    let exponent = (Q - 1) / n as u64;
    let mut base: u64 = 2;
    while base < 64
        invariant
            2 <= base <= 64,
            exponent == (Q - 1) as nat / (n as nat),
            has_root_q(n as nat),
            forall|c: nat| 2 <= c < base ==> !#[trigger] root_works(c, n as nat),
        decreases 64 - base,
    {
        let candidate = pow_mod(base, exponent, Q);
        if pow_mod(candidate, n as u64, Q) == 1 && pow_mod(candidate, (n / 2) as u64, Q) != 1 {
            proof {
                assert(root_works(base as nat, n as nat));
                let b = first_root_base(n as nat);
                assert(2 <= base < 64 && root_works(base as nat, n as nat)
                    && forall|c: nat| 2 <= c < base ==> !#[trigger] root_works(c, n as nat));
                assert(2 <= b < 64 && root_works(b, n as nat) && forall|c: nat| 2 <= c < b ==> !#[trigger] root_works(c, n as nat));
                if b < base {
                    assert(!root_works(b, n as nat));
                } else if b > base {
                    assert(!root_works(base as nat, n as nat));
                }
            }
            return candidate;
        }
        base = base + 1;
    }
    proof {
        let b = choose|b: nat| 2 <= b < 64 && #[trigger] root_works(b, n as nat);
        assert(!root_works(b, n as nat));
    }
    0
}

/// Whether some base from two up to sixty four gives a root of unity of
/// order exactly n, the search the root finder makes.
pub fn has_root(n: usize) -> (r: bool)
    requires
        n >= 1,
    ensures
        r == has_root_q(n as nat),
{
    let exponent = (Q - 1) / n as u64;
    let mut base: u64 = 2;
    while base < 64
        invariant
            2 <= base <= 64,
            n >= 1,
            exponent == (Q - 1) as nat / (n as nat),
            forall|c: nat| 2 <= c < base ==> !#[trigger] root_works(c, n as nat),
        decreases 64 - base,
    {
        let candidate = pow_mod(base, exponent, Q);
        if pow_mod(candidate, n as u64, Q) == 1 && pow_mod(candidate, (n / 2) as u64, Q) != 1 {
            proof {
                assert(root_works(base as nat, n as nat));
            }
            return true;
        }
        base = base + 1;
    }
    proof {
        if has_root_q(n as nat) {
            let b = choose|b: nat| 2 <= b < 64 && #[trigger] root_works(b, n as nat);
            assert(!root_works(b, n as nat));
        }
    }
    false
}

/// The low bits of a value taken in reverse into an accumulator.
pub open spec fn rev_acc(value: nat, bits: nat, acc: nat) -> nat
    decreases bits,
{
    if bits == 0 { acc } else { rev_acc(value / 2, (bits - 1) as nat, 2 * acc + value % 2) }
}

/// The low bits of a value in reverse order.
pub open spec fn bit_rev(value: nat, bits: nat) -> nat {
    rev_acc(value, bits, 0)
}

/// Reversing the low bits of a value gives a value below two to the bit
/// count.
pub proof fn lemma_bit_rev_bound(value: nat, bits: nat)
    ensures
        bit_rev(value, bits) < two_pow(bits),
{
    lemma_rev_acc_bound(value, bits, 0);
    let t = two_pow(bits);
    assert((0nat + 1) * t == t) by (nonlinear_arith);
}

proof fn lemma_rev_acc_bound(value: nat, bits: nat, acc: nat)
    ensures
        rev_acc(value, bits, acc) < (acc + 1) * two_pow(bits),
    decreases bits,
{
    if bits > 0 {
        let b = (bits - 1) as nat;
        lemma_rev_acc_bound(value / 2, b, 2 * acc + value % 2);
        assert(two_pow(bits) == 2 * two_pow(b));
        assert((2 * acc + value % 2 + 1) * two_pow(b) <= (acc + 1) * two_pow(bits)) by (nonlinear_arith)
            requires value % 2 <= 1, two_pow(bits) == 2 * two_pow(b);
    } else {
        assert(two_pow(0) == 1);
        assert((acc + 1) * 1 == acc + 1);
    }
}

/// Reverses the low bits of a value.
pub fn bit_reverse(value: usize, log_n: u32) -> (r: usize)
    requires
        two_pow(log_n as nat) <= usize::MAX,
    ensures
        r == bit_rev(value as nat, log_n as nat),
        r < two_pow(log_n as nat),
{
    let mut result: usize = 0;
    let mut v = value;
    let mut k: u32 = 0;
    while k < log_n
        invariant
            k <= log_n,
            two_pow(log_n as nat) <= usize::MAX,
            result < two_pow(k as nat),
            rev_acc(v as nat, (log_n - k) as nat, result as nat) == bit_rev(value as nat, log_n as nat),
        decreases log_n - k,
    {
        proof {
            crate::util::lemma_two_pow_monotone((k + 1) as nat, log_n as nat);
            assert(two_pow((k + 1) as nat) == 2 * two_pow(k as nat));
        }
        let bit = v & 1;
        proof {
            assert(bit == v % 2) by (bit_vector)
                requires bit == v & 1;
        }
        result = 2 * result + bit;
        v = v / 2;
        k = k + 1;
    }
    result
}

/// The number of trailing zero bits of a positive count.
pub open spec fn trailing_zeros(n: nat) -> nat
    decreases n,
{
    if n == 0 || n % 2 == 1 { 0 } else { 1 + trailing_zeros(n / 2) }
}

/// The trailing zeros of a power of two are its logarithm.
pub proof fn lemma_trailing_zeros_pow2(n: nat)
    requires
        is_pow2(n),
    ensures
        trailing_zeros(n) == log2(n),
        two_pow(trailing_zeros(n)) == n,
{
    lemma_trailing_zeros(n);
}

proof fn lemma_trailing_zeros(n: nat)
    requires
        n > 0,
    ensures
        two_pow(trailing_zeros(n)) <= n,
        is_pow2(n) ==> two_pow(trailing_zeros(n)) == n && trailing_zeros(n) == log2(n),
    decreases n,
{
    if n % 2 == 0 {
        lemma_trailing_zeros(n / 2);
    }
}

#[verifier::rlimit(40)]
fn count_trailing_zeros(n: usize) -> (t: u32)
    requires
        n > 0,
    ensures
        t == trailing_zeros(n as nat),
        t < 64,
{
    let mut m = n;
    let mut t: u32 = 0;
    proof {
        assert(two_pow(0) == 1);
        assert(1 * m == m);
    }
    while m % 2 == 0
        invariant
            m > 0,
            t + trailing_zeros(m as nat) == trailing_zeros(n as nat),
            two_pow(t as nat) * m == n,
            t < 64,
        decreases m,
    {
        proof {
            assert(two_pow((t + 1) as nat) <= n) by (nonlinear_arith)
                requires two_pow((t + 1) as nat) == 2 * two_pow(t as nat), two_pow(t as nat) * m == n, m % 2 == 0, m > 0;
            if t + 1 >= 64 {
                crate::util::lemma_two_pow_monotone(64, (t + 1) as nat);
                assert(two_pow(64) > usize::MAX) by {
                    reveal_with_fuel(two_pow, 65);
                }
            }
            assert(two_pow((t + 1) as nat) * (m / 2) == n) by (nonlinear_arith)
                requires two_pow((t + 1) as nat) == 2 * two_pow(t as nat), two_pow(t as nat) * m == n, m % 2 == 0;
        }
        m = m / 2;
        t = t + 1;
    }
    proof {
        crate::util::lemma_two_pow_is_pow2(t as nat);
        assert(two_pow(t as nat) <= n) by (nonlinear_arith)
            requires two_pow(t as nat) * m == n, m >= 1;
        if t >= 64 {
            crate::util::lemma_two_pow_monotone(64, t as nat);
            assert(two_pow(64) > usize::MAX) by {
                reveal_with_fuel(two_pow, 65);
            }
        }
    }
    t
}

/// The coefficients placed in bit reversed order, the input order of the
/// first butterfly layer.
pub open spec fn spec_layer_zero(coeffs: Seq<u64>) -> Seq<u64> {
    Seq::new(coeffs.len(), |i: int| coeffs[bit_rev(i as nat, trailing_zeros(coeffs.len())) as int])
}

/// Places the coefficients in bit reversed order of their indices.
pub fn to_layer_zero(coeffs: &[u64]) -> (out: Vec<u64>)
    ensures
        out@ == spec_layer_zero(coeffs@),
{
    let n = coeffs.len();
    let mut out: Vec<u64> = Vec::new();
    if n == 0 {
        assert(out@ =~= spec_layer_zero(coeffs@));
        return out;
    }
    let log_n = count_trailing_zeros(n);
    proof {
        lemma_trailing_zeros(n as nat);
    }
    let mut i: usize = 0;
    while i < n
        invariant
            i <= n,
            n == coeffs@.len(),
            n > 0,
            log_n == trailing_zeros(n as nat),
            two_pow(log_n as nat) <= n,
            out@.len() == i,
            forall|k: int| 0 <= k < i ==> #[trigger] out@[k] == spec_layer_zero(coeffs@)[k],
        decreases n - i,
    {
        let j = bit_reverse(i, log_n);
        out.push(coeffs[j]);
        i = i + 1;
    }
    assert(out@ =~= spec_layer_zero(coeffs@));
    out
}

/// The wire identity of a value at a layer and an index.
pub fn identity(layer: u32, index: usize, n: usize) -> (r: u64)
    requires
        layer * n + index <= u64::MAX,
    ensures
        r == layer * n + index,
{
    proof {
        assert(layer as u64 * n as u64 == layer * n) by (nonlinear_arith)
            requires layer * n <= u64::MAX;
    }
    (layer as u64) * (n as u64) + index as u64
}

/// One butterfly of the network: its row, its layer, its two indices and
/// its twiddle factor.
pub struct Butterfly {
    pub row: usize,
    pub step: u32,
    pub i0: usize,
    pub i1: usize,
    pub twiddle: u64,
}

/// Butterfly p of layer step: blocks of twice the layer span, the twiddle
/// the layer root to the offset in the block, the row interleaving layers.
pub open spec fn bf_spec(n: nat, layers: nat, omega: nat, step: nat, p: nat) -> (nat, nat, nat, nat) {
    let half = two_pow(step);
    let len = 2 * half;
    let root = mod_pow(omega, n / len, Q as nat);
    let offset = p % half;
    let base = (p / half) * len;
    (p * layers + step, base + offset, base + half + offset, mod_pow(root, offset, Q as nat))
}

/// A butterfly is butterfly p of layer step.
pub open spec fn bf_is(bf: Butterfly, n: nat, layers: nat, omega: nat, step: nat, p: nat) -> bool {
    let t = bf_spec(n, layers, omega, step, p);
    bf.row == t.0 && bf.step == step && bf.i0 == t.1 && bf.i1 == t.2 && bf.twiddle == t.3
}

/// The indices of a butterfly lie inside the transform, the upper one a
/// layer span above the lower one.
pub proof fn lemma_bf_indices(n: nat, step: nat, p: nat)
    requires
        is_pow2(n),
        step < log2(n),
        p < n / 2,
    ensures
        ({
            let half = two_pow(step);
            let base = (p / half) * (2 * half);
            &&& base + p % half + half < n
            &&& half >= 1
            &&& two_pow(step + 1) <= n
            &&& n % (2 * half) == 0
        }),
{
    let half = two_pow(step);
    crate::util::lemma_two_pow_is_pow2(step);
    crate::util::lemma_pow2_log2(n);
    crate::util::lemma_two_pow_monotone(step + 1, log2(n));
    assert(two_pow(step + 1) == 2 * half);
    let len = 2 * half;
    crate::util::lemma_two_pow_quotient(step + 1, log2(n));
    crate::util::lemma_two_pow_add(step + 1, (log2(n) - (step + 1)) as nat);
    let q = two_pow((log2(n) - (step + 1)) as nat);
    assert(n == len * q);
    assert(n % len == 0) by {
        vstd::arithmetic::div_mod::lemma_mod_multiples_basic(q as int, len as int);
        vstd::arithmetic::mul::lemma_mul_is_commutative(q as int, len as int);
    }
    let block = p / half;
    let offset = p % half;
    vstd::arithmetic::div_mod::lemma_fundamental_div_mod(p as int, half as int);
    assert(n / 2 == q * half) by (nonlinear_arith)
        requires n == (2 * half) * q;
    assert(block < q) by (nonlinear_arith)
        requires p == half * block + offset, p < q * half, offset >= 0, half >= 1;
    assert(block * len + offset + half < n) by (nonlinear_arith)
        requires block < q, offset < half, len == 2 * half, n == len * q;
}

/// The butterflies of the network, layer by layer, each layer in order of
/// its butterflies.
pub fn schedule(n: usize, layers: u32, omega: u64) -> (out: Vec<Butterfly>)
    requires
        is_pow2(n as nat),
        layers <= log2(n as nat),
        (n / 2) * layers <= usize::MAX,
    ensures
        out@.len() == layers * (n / 2),
        forall|step: int, p: int| 0 <= step < layers && 0 <= p < n / 2
            ==> bf_is(#[trigger] out@[step * (n / 2) + p], n as nat, layers as nat, omega as nat, step as nat, p as nat),
{
    let h = n / 2;
    let mut out: Vec<Butterfly> = Vec::new();
    let mut step: u32 = 0;
    proof {
        crate::util::lemma_pow2_log2(n as nat);
        crate::util::lemma_log2_bound(n as nat);
    }
    while step < layers
        invariant
            step <= layers,
            h == n / 2,
            is_pow2(n as nat),
            layers <= log2(n as nat),
            log2(n as nat) < 64,
            n as nat == two_pow(log2(n as nat)),
            h * layers <= usize::MAX,
            out@.len() == step * h,
            forall|s: int, p: int| 0 <= s < step && 0 <= p < h
                ==> bf_is(#[trigger] out@[s * h + p], n as nat, layers as nat, omega as nat, s as nat, p as nat),
        decreases layers - step,
    {
        proof {
            crate::util::lemma_two_pow_monotone((step + 1) as nat, log2(n as nat));
            crate::util::lemma_shift_is_pow((step + 1) as usize);
            crate::util::lemma_shift_is_pow(step as usize);
            crate::util::lemma_two_pow_monotone(step as nat, log2(n as nat));
            assert(two_pow((step + 1) as nat) == 2 * two_pow(step as nat));
            crate::util::lemma_two_pow_is_pow2(step as nat);
        }
        let len = 1usize << (step + 1);
        let half = len / 2;
        let root = pow_mod(omega, (n / len) as u64, Q);
        let mut p: usize = 0;
        while p < h
            invariant
                p <= h,
                step < layers,
                h == n / 2,
                is_pow2(n as nat),
                layers <= log2(n as nat),
                step < log2(n as nat),
                len == two_pow((step + 1) as nat),
                half == two_pow(step as nat),
                len == 2 * half,
                root == mod_pow(omega as nat, (n / len) as nat, Q as nat),
                h * layers <= usize::MAX,
                out@.len() == step * h + p,
                forall|s: int, q: int| 0 <= s < step && 0 <= q < h
                    ==> bf_is(#[trigger] out@[s * h + q], n as nat, layers as nat, omega as nat, s as nat, q as nat),
                forall|q: int| 0 <= q < p
                    ==> bf_is(#[trigger] out@[step * h + q], n as nat, layers as nat, omega as nat, step as nat, q as nat),
            decreases h - p,
        {
            proof {
                lemma_bf_indices(n as nat, step as nat, p as nat);
                assert(p * layers + step < h * layers) by (nonlinear_arith)
                    requires p < h, step < layers;
            }
            let block = p / half;
            let offset = p % half;
            let base = block * len;
            let i0 = base + offset;
            let i1 = base + half + offset;
            let twiddle = pow_mod(root, offset as u64, Q);
            let row = p * (layers as usize) + step as usize;
            let ghost before = out@;
            out.push(Butterfly { row, step, i0, i1, twiddle });
            proof {
                assert forall|s: int, q: int| 0 <= s < step && 0 <= q < h
                    implies bf_is(#[trigger] out@[s * h + q], n as nat, layers as nat, omega as nat, s as nat, q as nat) by {
                    assert(s * h + q < step * h) by (nonlinear_arith)
                        requires s < step, q < h;
                    assert(out@[s * h + q] == before[s * h + q]);
                }
                assert forall|q: int| 0 <= q < p + 1
                    implies bf_is(#[trigger] out@[step * h + q], n as nat, layers as nat, omega as nat, step as nat, q as nat) by {
                    if q < p {
                        assert(out@[step * h + q] == before[step * h + q]);
                    }
                }
            }
            p = p + 1;
        }
        proof {
            assert((step + 1) * h == step * h + h) by (nonlinear_arith);
            assert forall|s: int, q: int| 0 <= s < step + 1 && 0 <= q < h
                implies bf_is(#[trigger] out@[s * h + q], n as nat, layers as nat, omega as nat, s as nat, q as nat) by {
                if s < step {
                } else {
                    assert(s == step);
                }
            }
        }
        step = step + 1;
    }
    proof {
        assert(layers * (n / 2) == step * h) by (nonlinear_arith)
            requires step == layers, h == n / 2;
    }
    out
}

/// The number of single row rules of a transform description.
pub const NTT_RULES: usize = 12 + 7 * RESIDUE_BITS;

/// The degree of single row rule k.
pub open spec fn ntt_degree(k: nat) -> nat {
    if k == 0 || k == 5 || k == 9 || k >= 12 { 2 } else { 1 }
}

/// The bit columns in the order their bit rules come.
pub open spec fn bit_base(i: nat) -> nat {
    if i == 0 { M_BITS as nat } else if i == 1 { M_SLACK as nat } else if i == 2 { S_BITS as nat }
    else if i == 3 { S_SLACK as nat } else if i == 4 { D_BITS as nat } else if i == 5 { D_SLACK as nat }
    else { MQ_BITS as nat }
}

/// Single row rule k on a row: the product reduces with its quotient, the
/// sum and the difference reduce with their carry and borrow, every reduced
/// value and its slack below the modulus recompose from bits, and every
/// carry, borrow and bit is a bit.
pub open spec fn ntt_rule(k: nat, row: Seq<Felt>) -> nat {
    let c = |i: usize| cell_val(row, i as int);
    let q = Q as nat;
    let q1 = (Q - 1) as nat;
    let rb = RESIDUE_BITS as nat;
    if k == 0 {
        fsub(fsub(fmul(c(W), c(B)), fmul(c(MQ), q)), c(M))
    } else if k == 1 {
        fsub(recompose_val(row, M_BITS as nat, rb), c(M))
    } else if k == 2 {
        fsub(recompose_val(row, M_SLACK as nat, rb), fsub(q1, c(M)))
    } else if k == 3 {
        fsub(recompose_val(row, MQ_BITS as nat, rb), c(MQ))
    } else if k == 4 {
        fsub(fsub(fadd(c(A), c(M)), fmul(c(CS), q)), c(S))
    } else if k == 5 {
        bool_val(row, CS as nat)
    } else if k == 6 {
        fsub(recompose_val(row, S_BITS as nat, rb), c(S))
    } else if k == 7 {
        fsub(recompose_val(row, S_SLACK as nat, rb), fsub(q1, c(S)))
    } else if k == 8 {
        fsub(fadd(fsub(c(A), c(M)), fmul(c(CD), q)), c(D))
    } else if k == 9 {
        bool_val(row, CD as nat)
    } else if k == 10 {
        fsub(recompose_val(row, D_BITS as nat, rb), c(D))
    } else if k == 11 {
        fsub(recompose_val(row, D_SLACK as nat, rb), fsub(q1, c(D)))
    } else {
        let j = (k - 12) as nat;
        bool_val(row, bit_base(j / rb) + j % rb)
    }
}

fn rec_less(base: usize, other: Expr, width: usize) -> (e: Expr)
    requires
        base + RESIDUE_BITS <= width,
        other.reads_below(width as nat),
    ensures
        forall|cur: Seq<Felt>, next: Seq<Felt>| #[trigger] e.value(cur, next)
            == fsub(recompose_val(cur, base as nat, RESIDUE_BITS as nat), other.value(cur, next)),
        e.reads_below(width as nat),
{
    let rc = Expr::recompose(base, RESIDUE_BITS);
    let ghost g = rc;
    let ghost o = other;
    let e = rc.sub(other);
    proof {
        assert forall|cur: Seq<Felt>, next: Seq<Felt>| #[trigger] e.value(cur, next)
            == fsub(recompose_val(cur, base as nat, RESIDUE_BITS as nat), o.value(cur, next)) by {
            assert(g.value(cur, next) == recompose_val(cur, base as nat, RESIDUE_BITS as nat));
        }
        assert(g.reads_below(width as nat));
    }
    e
}

fn ntt_rule_expr(k: usize, width: usize) -> (r: (usize, Expr))
    requires
        k < NTT_RULES,
        SEL0 <= width,
    ensures
        r.0 == ntt_degree(k as nat),
        forall|cur: Seq<Felt>, next: Seq<Felt>| #[trigger] r.1.value(cur, next) == ntt_rule(k as nat, cur),
        r.1.reads_below(width as nat),
{
    let modulus = Felt::new(Q);
    let modulus_less_one = Felt::new(Q - 1);
    proof {
        vstd::arithmetic::div_mod::lemma_small_mod(Q as nat, p());
        vstd::arithmetic::div_mod::lemma_small_mod((Q - 1) as nat, p());
        reveal_with_fuel(Expr::value, 4);
        reveal_with_fuel(Expr::reads_below, 4);
    }
    if k == 0 {
        (2, Expr::cur(W).mul(Expr::cur(B)).sub(Expr::cur(MQ).mul(Expr::constant(modulus))).sub(Expr::cur(M)))
    } else if k == 1 {
        (1, rec_less(M_BITS, Expr::cur(M), width))
    } else if k == 2 {
        (1, rec_less(M_SLACK, Expr::constant(modulus_less_one).sub(Expr::cur(M)), width))
    } else if k == 3 {
        (1, rec_less(MQ_BITS, Expr::cur(MQ), width))
    } else if k == 4 {
        (1, Expr::cur(A).add(Expr::cur(M)).sub(Expr::cur(CS).mul(Expr::constant(modulus))).sub(Expr::cur(S)))
    } else if k == 5 {
        let e = Expr::boolean(CS);
        assert(e.reads_below(width as nat));
        (2, e)
    } else if k == 6 {
        (1, rec_less(S_BITS, Expr::cur(S), width))
    } else if k == 7 {
        (1, rec_less(S_SLACK, Expr::constant(modulus_less_one).sub(Expr::cur(S)), width))
    } else if k == 8 {
        (1, Expr::cur(A).sub(Expr::cur(M)).add(Expr::cur(CD).mul(Expr::constant(modulus))).sub(Expr::cur(D)))
    } else if k == 9 {
        let e = Expr::boolean(CD);
        assert(e.reads_below(width as nat));
        (2, e)
    } else if k == 10 {
        (1, rec_less(D_BITS, Expr::cur(D), width))
    } else if k == 11 {
        (1, rec_less(D_SLACK, Expr::constant(modulus_less_one).sub(Expr::cur(D)), width))
    } else {
        let j = k - 12;
        let i = j / RESIDUE_BITS;
        let base = if i == 0 { M_BITS } else if i == 1 { M_SLACK } else if i == 2 { S_BITS }
            else if i == 3 { S_SLACK } else if i == 4 { D_BITS } else if i == 5 { D_SLACK } else { MQ_BITS };
        let e = Expr::boolean(base + j % RESIDUE_BITS);
        assert(e.reads_below(width as nat));
        (2, e)
    }
}

/// The twiddle boundaries: the twiddle of each butterfly on its row, in
/// schedule order.
pub open spec fn w_bounds(n: nat, layers: nat, omega: nat) -> Seq<(nat, nat, nat)> {
    let h = n / 2;
    Seq::new(layers * h, |k: int| {
        let t = bf_spec(n, layers, omega, (k / h as int) as nat, (k % h as int) as nat);
        (W as nat, t.0, t.3)
    })
}

/// The layer selector boundaries on the first row: the first layer on, the
/// others off.
pub open spec fn sel_bounds(layers: nat) -> Seq<(nat, nat, nat)> {
    Seq::new(layers, |k: int| ((SEL0 + k) as nat, 0nat, if k == 0 { 1nat } else { 0nat }))
}

/// The input and output boundaries: for each butterfly position, its two
/// inputs on its first layer row and its two outputs on its last layer row.
pub open spec fn io_bounds(n: nat, layers: nat, input: Seq<u64>, output: Seq<u64>) -> Seq<(nat, nat, nat)> {
    let h = n / 2;
    Seq::new(4 * h, |i: int| {
        let q = i / 4;
        let m = i % 4;
        let first = (q * layers) as nat;
        let last = (q * layers + layers - 1) as nat;
        if m == 0 {
            (A as nat, first, input[2 * q] as nat % p())
        } else if m == 1 {
            (B as nat, first, input[2 * q + 1] as nat % p())
        } else if m == 2 {
            (S as nat, last, output[q] as nat % p())
        } else {
            (D as nat, last, output[q + h] as nat % p())
        }
    })
}

/// The layer selector moves one layer on from each row to the next, the
/// last layer back to the first.
pub open spec fn sel_rule(layers: nat, k: nat, cur: Seq<Felt>, next: Seq<Felt>) -> nat {
    let source = if k == 0 { (layers - 1) as nat } else { (k - 1) as nat };
    fsub(cell_val(next, SEL0 + k), cell_val(cur, SEL0 + source))
}

/// The challenge gamma less alpha times an identity less a value.
pub open spec fn wire_factor(id_col: usize, val_col: usize) -> ExtExpr {
    ExtExpr::Sub(
        Box::new(ExtExpr::Challenge(1)),
        Box::new(ExtExpr::Add(
            Box::new(ExtExpr::Mul(Box::new(ExtExpr::Challenge(0)), Box::new(ExtExpr::Base(Expr::Cur(id_col))))),
            Box::new(ExtExpr::Base(Expr::Cur(val_col))),
        )),
    )
}

/// The product of two wire factors where a mask cell is zero, one where it
/// is one.
pub open spec fn masked_pair(x: ExtExpr, y: ExtExpr, mask: usize) -> ExtExpr {
    ExtExpr::Add(
        Box::new(ExtExpr::Mul(
            Box::new(ExtExpr::Mul(Box::new(x), Box::new(y))),
            Box::new(ExtExpr::Base(Expr::Sub(Box::new(Expr::Const(Felt::from_val(1))), Box::new(Expr::Cur(mask))))),
        )),
        Box::new(ExtExpr::Base(Expr::Cur(mask))),
    )
}

/// The wiring permutation: every output of a layer but the last against
/// every input of a layer but the first.
pub open spec fn wiring(layers: nat) -> crate::air::Permutation {
    crate::air::Permutation {
        degree: 3,
        column: (SEL0 + layers) as usize,
        numerator: masked_pair(wire_factor(S_ID, S), wire_factor(D_ID, D), (SEL0 + layers - 1) as usize),
        denominator: masked_pair(wire_factor(A_ID, A), wire_factor(B_ID, B), SEL0),
    }
}

/// What the description of a transform of size n holds.
pub open spec fn describes_ntt(air: Air, n: nat, omega: nat, input: Seq<u64>, output: Seq<u64>) -> bool {
    let layers = log2(n);
    let t = air.spec_transitions();
    &&& air.wf()
    &&& air.spec_base_width() == SEL0 + layers
    &&& air.spec_aux_width() == 1
    &&& air.spec_length() == (n / 2) * layers
    &&& air.spec_num_challenges() == 2
    &&& crate::air::single_rows_appended(Seq::empty(), t.take(NTT_RULES as int), NTT_RULES as nat,
        |k: nat| ntt_degree(k), |k: nat, row: Seq<Felt>| ntt_rule(k, row))
    &&& crate::air::transitions_appended(t.take(NTT_RULES as int), t.take(NTT_RULES + layers), layers, false,
        |k: nat| 1, |k: nat, cur: Seq<Felt>, next: Seq<Felt>| sel_rule(layers, k, cur, next))
    &&& t.len() == NTT_RULES + layers + 1
    &&& t[NTT_RULES + layers] == crate::air::running_product_transition(3)
    &&& air.spec_permutations() == seq![wiring(layers)]
    &&& crate::sponge::bounds_follow(air.spec_boundaries(), 0,
        w_bounds(n, layers, omega) + sel_bounds(layers) + seq![((SEL0 + layers) as nat, 0nat, 1nat)]
            + io_bounds(n, layers, input, output))
}

fn wire_factor_expr(id_col: usize, val_col: usize) -> (e: ExtExpr)
    ensures
        e == wire_factor(id_col, val_col),
{
    ExtExpr::challenge(1).sub(ExtExpr::challenge(0).mul(ExtExpr::base(Expr::cur(id_col))).add(ExtExpr::base(Expr::cur(val_col))))
}

fn masked_pair_expr(x: ExtExpr, y: ExtExpr, mask: usize) -> (e: ExtExpr)
    ensures
        e == masked_pair(x, y, mask),
{
    let one = Felt::one();
    proof {
        Felt::lemma_from_val(1);
    }
    x.mul(y).mul(ExtExpr::base(Expr::constant(one).sub(Expr::cur(mask)))).add(ExtExpr::base(Expr::cur(mask)))
}

fn add_w_bounds(air: &mut Air, plan: &Vec<Butterfly>, n: usize, layers: u32, omega: u64)
    requires
        old(air).wf(),
        W < old(air).spec_base_width(),
        is_pow2(n as nat),
        n >= 2,
        layers == log2(n as nat),
        old(air).spec_length() == (n / 2) * layers,
        plan@.len() == layers * (n / 2),
        forall|step: int, p: int| 0 <= step < layers && 0 <= p < n / 2
            ==> bf_is(#[trigger] plan@[step * (n / 2) + p], n as nat, layers as nat, omega as nat, step as nat, p as nat),
    ensures
        final(air).wf(),
        crate::sponge::bounds_follow(final(air).spec_boundaries(), old(air).spec_boundaries().len(), w_bounds(n as nat, layers as nat, omega as nat)),
        final(air).spec_boundaries().take(old(air).spec_boundaries().len() as int) == old(air).spec_boundaries(),
        final(air).spec_transitions() == old(air).spec_transitions(),
        final(air).spec_permutations() == old(air).spec_permutations(),
        final(air).spec_base_width() == old(air).spec_base_width(),
        final(air).spec_aux_width() == old(air).spec_aux_width(),
        final(air).spec_length() == old(air).spec_length(),
        final(air).spec_num_challenges() == old(air).spec_num_challenges(),
{
    let ghost from = air.spec_boundaries().len();
    let ghost list = w_bounds(n as nat, layers as nat, omega as nat);
    let h = n / 2;
    let mut k: usize = 0;
    while k < plan.len()
        invariant
            k <= plan@.len(),
            h == n / 2,
            h >= 1,
            is_pow2(n as nat),
            layers == log2(n as nat),
            air.wf(),
            W < air.spec_base_width(),
            air.spec_length() == h * layers,
            plan@.len() == layers * h,
            forall|step: int, p: int| 0 <= step < layers && 0 <= p < h
                ==> bf_is(#[trigger] plan@[step * h + p], n as nat, layers as nat, omega as nat, step as nat, p as nat),
            list == w_bounds(n as nat, layers as nat, omega as nat),
            air.spec_boundaries().len() == from + k,
            forall|j: int| 0 <= j < k ==> crate::qudros::boundary_is(#[trigger] air.spec_boundaries()[from + j], list[j]),
            air.spec_boundaries().take(from as int) == old(air).spec_boundaries(),
            from == old(air).spec_boundaries().len(),
            air.spec_transitions() == old(air).spec_transitions(),
            air.spec_permutations() == old(air).spec_permutations(),
            air.spec_base_width() == old(air).spec_base_width(),
            air.spec_aux_width() == old(air).spec_aux_width(),
            air.spec_length() == old(air).spec_length(),
            air.spec_num_challenges() == old(air).spec_num_challenges(),
        decreases plan@.len() - k,
    {
        let ghost step = k / h;
        let ghost pp = k % h;
        proof {
            vstd::arithmetic::div_mod::lemma_fundamental_div_mod(k as int, h as int);
            assert(step < layers) by (nonlinear_arith)
                requires k == h * step + pp, k < layers * h, pp >= 0, h >= 1;
            assert(k == step * h + pp) by (nonlinear_arith)
                requires k == h * step + pp;
            assert(bf_is(plan@[step * h + pp], n as nat, layers as nat, omega as nat, step as nat, pp as nat));
            assert(pp * layers + step < h * layers) by (nonlinear_arith)
                requires pp < h, step < layers;
            crate::util::lemma_pow2_log2(n as nat);
        }
        let bf = &plan[k];
        let value = Felt::new(bf.twiddle);
        proof {
            vstd::arithmetic::div_mod::lemma_small_mod(bf.twiddle as nat, p());
        }
        let ghost before = air.spec_boundaries();
        air.add_boundary(W, bf.row, value);
        proof {
            assert forall|j: int| 0 <= j < k + 1 implies crate::qudros::boundary_is(#[trigger] air.spec_boundaries()[from + j], list[j]) by {
                if j < k {
                    assert(air.spec_boundaries()[from + j] == before[from + j]);
                }
            }
            assert(air.spec_boundaries().take(from as int) =~= before.take(from as int));
        }
        k = k + 1;
    }
}

fn add_ntt_rules(air: &mut Air)
    requires
        old(air).wf(),
        SEL0 <= old(air).spec_base_width(),
    ensures
        final(air).wf(),
        crate::air::single_rows_appended(
            old(air).spec_transitions(),
            final(air).spec_transitions(),
            NTT_RULES as nat,
            |k: nat| ntt_degree(k),
            |k: nat, row: Seq<Felt>| ntt_rule(k, row),
        ),
        final(air).spec_boundaries() == old(air).spec_boundaries(),
        final(air).spec_permutations() == old(air).spec_permutations(),
        final(air).spec_base_width() == old(air).spec_base_width(),
        final(air).spec_aux_width() == old(air).spec_aux_width(),
        final(air).spec_length() == old(air).spec_length(),
        final(air).spec_num_challenges() == old(air).spec_num_challenges(),
{
    let ghost start = air.spec_transitions();
    let ghost degree = |k: nat| ntt_degree(k);
    let ghost rule = |k: nat, row: Seq<Felt>| ntt_rule(k, row);
    let width = air.base_width();
    let mut k: usize = 0;
    while k < NTT_RULES
        invariant
            k <= NTT_RULES,
            air.wf(),
            width == air.spec_base_width(),
            SEL0 <= width,
            crate::air::single_rows_appended(start, air.spec_transitions(), k as nat, degree, rule),
            degree == (|k: nat| ntt_degree(k)),
            rule == (|k: nat, row: Seq<Felt>| ntt_rule(k, row)),
            air.spec_boundaries() == old(air).spec_boundaries(),
            air.spec_permutations() == old(air).spec_permutations(),
            air.spec_base_width() == old(air).spec_base_width(),
            air.spec_aux_width() == old(air).spec_aux_width(),
            air.spec_length() == old(air).spec_length(),
            air.spec_num_challenges() == old(air).spec_num_challenges(),
        decreases NTT_RULES - k,
    {
        let (d, e) = ntt_rule_expr(k, width);
        proof {
            assert forall|cur: Seq<Felt>, next: Seq<Felt>| #[trigger] e.value(cur, next) == rule(k as nat, cur) by {
                assert(e.value(cur, next) == ntt_rule(k as nat, cur));
            }
        }
        let ghost mid = air.spec_transitions();
        air.add_single_row(d, e);
        proof {
            crate::air::lemma_append_rule(start, mid, air.spec_transitions(), k as nat, degree, rule, air.spec_transitions().last());
        }
        k = k + 1;
    }
}

fn add_sel_bounds(air: &mut Air, layers: u32)
    requires
        old(air).wf(),
        SEL0 + layers <= old(air).spec_base_width(),
        old(air).spec_length() >= 1,
    ensures
        final(air).wf(),
        crate::sponge::bounds_follow(final(air).spec_boundaries(), old(air).spec_boundaries().len(), sel_bounds(layers as nat)),
        final(air).spec_boundaries().take(old(air).spec_boundaries().len() as int) == old(air).spec_boundaries(),
        final(air).spec_transitions() == old(air).spec_transitions(),
        final(air).spec_permutations() == old(air).spec_permutations(),
        final(air).spec_base_width() == old(air).spec_base_width(),
        final(air).spec_aux_width() == old(air).spec_aux_width(),
        final(air).spec_length() == old(air).spec_length(),
        final(air).spec_num_challenges() == old(air).spec_num_challenges(),
{
    let ghost from = air.spec_boundaries().len();
    let ghost list = sel_bounds(layers as nat);
    let mut k: u32 = 0;
    while k < layers
        invariant
            k <= layers,
            air.wf(),
            SEL0 + layers <= air.spec_base_width(),
            air.spec_length() >= 1,
            list == sel_bounds(layers as nat),
            air.spec_boundaries().len() == from + k,
            forall|j: int| 0 <= j < k ==> crate::qudros::boundary_is(#[trigger] air.spec_boundaries()[from + j], list[j]),
            air.spec_boundaries().take(from as int) == old(air).spec_boundaries(),
            from == old(air).spec_boundaries().len(),
            air.spec_transitions() == old(air).spec_transitions(),
            air.spec_permutations() == old(air).spec_permutations(),
            air.spec_base_width() == old(air).spec_base_width(),
            air.spec_aux_width() == old(air).spec_aux_width(),
            air.spec_length() == old(air).spec_length(),
            air.spec_num_challenges() == old(air).spec_num_challenges(),
        decreases layers - k,
    {
        let value = if k == 0 { Felt::one() } else { Felt::zero() };
        let ghost before = air.spec_boundaries();
        air.add_boundary(SEL0 + k as usize, 0, value);
        proof {
            assert forall|j: int| 0 <= j < k + 1 implies crate::qudros::boundary_is(#[trigger] air.spec_boundaries()[from + j], list[j]) by {
                if j < k {
                    assert(air.spec_boundaries()[from + j] == before[from + j]);
                }
            }
            assert(air.spec_boundaries().take(from as int) =~= before.take(from as int));
        }
        k = k + 1;
    }
}

fn add_sel_transitions(air: &mut Air, layers: u32)
    requires
        old(air).wf(),
        layers >= 1,
        SEL0 + layers <= old(air).spec_base_width(),
    ensures
        final(air).wf(),
        crate::air::transitions_appended(old(air).spec_transitions(), final(air).spec_transitions(), layers as nat, false,
            |k: nat| 1, |k: nat, cur: Seq<Felt>, next: Seq<Felt>| sel_rule(layers as nat, k, cur, next)),
        final(air).spec_boundaries() == old(air).spec_boundaries(),
        final(air).spec_permutations() == old(air).spec_permutations(),
        final(air).spec_base_width() == old(air).spec_base_width(),
        final(air).spec_aux_width() == old(air).spec_aux_width(),
        final(air).spec_length() == old(air).spec_length(),
        final(air).spec_num_challenges() == old(air).spec_num_challenges(),
{
    let ghost start = air.spec_transitions();
    let ghost degree = |k: nat| 1nat;
    let ghost rule = |k: nat, cur: Seq<Felt>, next: Seq<Felt>| sel_rule(layers as nat, k, cur, next);
    let l = layers as usize;
    let mut j: usize = 0;
    while j < l
        invariant
            j <= l,
            l == layers,
            l >= 1,
            air.wf(),
            SEL0 + l <= air.spec_base_width(),
            crate::air::transitions_appended(start, air.spec_transitions(), j as nat, false, degree, rule),
            degree == (|k: nat| 1nat),
            rule == (|k: nat, cur: Seq<Felt>, next: Seq<Felt>| sel_rule(layers as nat, k, cur, next)),
            air.spec_boundaries() == old(air).spec_boundaries(),
            air.spec_permutations() == old(air).spec_permutations(),
            air.spec_base_width() == old(air).spec_base_width(),
            air.spec_aux_width() == old(air).spec_aux_width(),
            air.spec_length() == old(air).spec_length(),
            air.spec_num_challenges() == old(air).spec_num_challenges(),
        decreases l - j,
    {
        let target = SEL0 + j;
        let source = if j == 0 { SEL0 + l - 1 } else { SEL0 + j - 1 };
        let e = Expr::next(target).sub(Expr::cur(source));
        proof {
            reveal_with_fuel(Expr::value, 2);
            reveal_with_fuel(Expr::reads_below, 2);
            assert forall|cur: Seq<Felt>, next: Seq<Felt>| #[trigger] e.value(cur, next) == rule(j as nat, cur, next) by {}
        }
        let ghost mid = air.spec_transitions();
        air.add_wrap_transition(1, e);
        proof {
            crate::air::lemma_append_transition(start, mid, air.spec_transitions(), j as nat, false, degree, rule, air.spec_transitions().last());
        }
        j = j + 1;
    }
}

fn add_io_bounds(air: &mut Air, n: usize, layers: u32, input: &[u64], output: &[u64])
    requires
        old(air).wf(),
        SEL0 <= old(air).spec_base_width(),
        n >= 2,
        layers >= 1,
        old(air).spec_length() == (n / 2) * layers,
        (n / 2) * layers <= usize::MAX,
        input@.len() >= n,
        output@.len() >= n,
    ensures
        final(air).wf(),
        crate::sponge::bounds_follow(final(air).spec_boundaries(), old(air).spec_boundaries().len(),
            io_bounds(n as nat, layers as nat, input@, output@)),
        final(air).spec_boundaries().take(old(air).spec_boundaries().len() as int) == old(air).spec_boundaries(),
        final(air).spec_transitions() == old(air).spec_transitions(),
        final(air).spec_permutations() == old(air).spec_permutations(),
        final(air).spec_base_width() == old(air).spec_base_width(),
        final(air).spec_aux_width() == old(air).spec_aux_width(),
        final(air).spec_length() == old(air).spec_length(),
        final(air).spec_num_challenges() == old(air).spec_num_challenges(),
{
    let ghost from = air.spec_boundaries().len();
    let ghost list = io_bounds(n as nat, layers as nat, input@, output@);
    let half = n / 2;
    let l = layers as usize;
    let mut q: usize = 0;
    while q < half
        invariant
            q <= half,
            half == n / 2,
            l == layers,
            l >= 1,
            n >= 2,
            input@.len() >= n,
            output@.len() >= n,
            air.wf(),
            SEL0 <= air.spec_base_width(),
            air.spec_length() == half * l,
            half * l <= usize::MAX,
            list == io_bounds(n as nat, layers as nat, input@, output@),
            air.spec_boundaries().len() == from + 4 * q,
            forall|j: int| 0 <= j < 4 * q ==> crate::qudros::boundary_is(#[trigger] air.spec_boundaries()[from + j], list[j]),
            air.spec_boundaries().take(from as int) == old(air).spec_boundaries(),
            from == old(air).spec_boundaries().len(),
            air.spec_transitions() == old(air).spec_transitions(),
            air.spec_permutations() == old(air).spec_permutations(),
            air.spec_base_width() == old(air).spec_base_width(),
            air.spec_aux_width() == old(air).spec_aux_width(),
            air.spec_length() == old(air).spec_length(),
            air.spec_num_challenges() == old(air).spec_num_challenges(),
        decreases half - q,
    {
        proof {
            assert(q * l + l <= half * l) by (nonlinear_arith)
                requires q < half;
        }
        let first_row = q * l;
        let last_row = q * l + l - 1;
        let ghost before = air.spec_boundaries();
        air.add_boundary(A, first_row, Felt::new(input[2 * q]));
        air.add_boundary(B, first_row, Felt::new(input[2 * q + 1]));
        air.add_boundary(S, last_row, Felt::new(output[q]));
        air.add_boundary(D, last_row, Felt::new(output[q + half]));
        proof {
            assert forall|j: int| 0 <= j < 4 * (q + 1) implies crate::qudros::boundary_is(#[trigger] air.spec_boundaries()[from + j], list[j]) by {
                if j < 4 * q {
                    assert(air.spec_boundaries()[from + j] == before[from + j]);
                } else {
                    assert(j / 4 == q as int);
                }
            }
            assert(air.spec_boundaries().take(from as int) =~= before.take(from as int));
        }
        q = q + 1;
    }
}


/// The description of a transform of size n from its input in bit reversed
/// order to its output: the twiddles pinned on every row, the butterfly
/// arithmetic and range checks on every row, the layer selector turning,
/// the wiring between layers, and the input and output on the first and
/// last layer rows of each butterfly position.
#[verifier::rlimit(40)]
pub fn ntt_air(n: usize, input: &[u64], output: &[u64]) -> (air: Air)
    requires
        is_pow2(n as nat),
        n >= 2,
        has_root_q(n as nat),
        is_pow2(((n / 2) * log2(n as nat)) as nat),
        (n / 2) * log2(n as nat) <= usize::MAX,
        input@.len() >= n,
        output@.len() >= n,
    ensures
        describes_ntt(air, n as nat, spec_root_q(n as nat), input@, output@),
{
    let layers = count_trailing_zeros(n);
    proof {
        lemma_trailing_zeros(n as nat);
        crate::util::lemma_log2_bound(n as nat);
        crate::util::lemma_pow2_log2(n as nat);
        if layers == 0 {
            assert(two_pow(0) == 1);
        }
    }
    let rows = (n / 2) * layers as usize;
    let mut air = Air::new(width(layers), rows);
    proof {
        assert(air.spec_transitions() =~= Seq::<crate::air::Transition>::empty());
        assert(air.spec_boundaries() =~= Seq::<Boundary>::empty());
    }
    let omega = root_of_unity_q(n);
    let plan = schedule(n, layers, omega);
    add_w_bounds(&mut air, &plan, n, layers, omega);
    let ghost b1 = air.spec_boundaries();
    add_ntt_rules(&mut air);
    let ghost t1 = air.spec_transitions();
    add_sel_bounds(&mut air, layers);
    proof {
        crate::sponge::lemma_bounds_join(b1, air.spec_boundaries(), 0,
            w_bounds(n as nat, layers as nat, omega as nat), sel_bounds(layers as nat));
    }
    let ghost b2 = air.spec_boundaries();
    add_sel_transitions(&mut air, layers);
    let ghost t2 = air.spec_transitions();
    let alpha = air.add_challenge();
    let gamma = air.add_challenge();
    let num = masked_pair_expr(wire_factor_expr(S_ID, S), wire_factor_expr(D_ID, D), SEL0 + layers as usize - 1);
    let den = masked_pair_expr(wire_factor_expr(A_ID, A), wire_factor_expr(B_ID, B), SEL0);
    proof {
        let bw = air.spec_base_width();
        assert(wire_factor(S_ID, S).reads_below(bw, 2)) by { reveal_with_fuel(ExtExpr::reads_below, 4); }
        assert(wire_factor(D_ID, D).reads_below(bw, 2)) by { reveal_with_fuel(ExtExpr::reads_below, 4); }
        assert(wire_factor(A_ID, A).reads_below(bw, 2)) by { reveal_with_fuel(ExtExpr::reads_below, 4); }
        assert(wire_factor(B_ID, B).reads_below(bw, 2)) by { reveal_with_fuel(ExtExpr::reads_below, 4); }
        assert(num.reads_below(bw, 2)) by {
            reveal_with_fuel(ExtExpr::reads_below, 4);
            reveal_with_fuel(Expr::reads_below, 3);
        }
        assert(den.reads_below(bw, 2)) by {
            reveal_with_fuel(ExtExpr::reads_below, 4);
            reveal_with_fuel(Expr::reads_below, 3);
        }
    }
    air.add_permutation(3, num, den);
    let ghost b3 = air.spec_boundaries();
    proof {
        Felt::lemma_from_val(1);
        let ab = seq![((SEL0 + layers) as nat, 0nat, 1nat)];
        assert(crate::sponge::bounds_follow(b3, b2.len(), ab)) by {
            assert(crate::qudros::boundary_is(b3[b2.len() as int], ab[0]));
        }
        assert(b3.take(b2.len() as int) =~= b2);
        crate::sponge::lemma_bounds_join(b2, b3, 0,
            w_bounds(n as nat, layers as nat, omega as nat) + sel_bounds(layers as nat), ab);
    }
    add_io_bounds(&mut air, n, layers, input, output);
    proof {
        crate::sponge::lemma_bounds_join(b3, air.spec_boundaries(), 0,
            w_bounds(n as nat, layers as nat, omega as nat) + sel_bounds(layers as nat)
                + seq![((SEL0 + layers) as nat, 0nat, 1nat)],
            io_bounds(n as nat, layers as nat, input@, output@));
        assert(air.spec_transitions().take(NTT_RULES as int) =~= t1);
        assert(air.spec_transitions().take(t2.len() as int) =~= t2);
        assert(t2.take(NTT_RULES as int) =~= t1);
        assert(air.spec_permutations() =~= seq![wiring(layers as nat)]);
    }
    air
}


/// The cells a butterfly on inputs a and b with twiddle w computes: the
/// product reduced and its quotient, the sum reduced and its carry, the
/// difference reduced and its borrow.
pub open spec fn bf_cells(a: nat, b: nat, w: nat) -> (nat, nat, nat, nat, nat, nat) {
    let q = Q as nat;
    let m = (w * b) % q;
    let mq = (w * b) / q;
    let cs: nat = if a + m >= q { 1 } else { 0 };
    let cd: nat = if a >= m { 0 } else { 1 };
    (m, mq, (a + m - cs * q) as nat, cs, (a + cd * q - m) as nat, cd)
}

/// The bits of a value below the residue width lie in the columns from a
/// base column on.
pub open spec fn bits_hold(trace: TraceTable, col: nat, row: int, x: nat) -> bool {
    forall|k: int| 0 <= k < RESIDUE_BITS ==> (#[trigger] trace.cell(col + k, row)).val() == crate::air::bit_of(x, k as nat)
}

/// A row holds a butterfly of a layer on two indices: its inputs, twiddle,
/// computed cells, wire identities and the bits of its reduced values and
/// their slacks.
pub open spec fn bf_row_filled(trace: TraceTable, row: int, a: nat, b: nat, w: nat, step: nat, i0: nat, i1: nat, n: nat) -> bool {
    let c = bf_cells(a, b, w);
    let q1 = (Q - 1) as nat;
    &&& trace.cell(A as int, row).val() == a
    &&& trace.cell(B as int, row).val() == b
    &&& trace.cell(W as int, row).val() == w
    &&& trace.cell(M as int, row).val() == c.0
    &&& trace.cell(S as int, row).val() == c.2
    &&& trace.cell(D as int, row).val() == c.4
    &&& trace.cell(MQ as int, row).val() == c.1
    &&& trace.cell(CS as int, row).val() == c.3
    &&& trace.cell(CD as int, row).val() == c.5
    &&& trace.cell(A_ID as int, row).val() == (step * n + i0) % p()
    &&& trace.cell(B_ID as int, row).val() == (step * n + i1) % p()
    &&& trace.cell(S_ID as int, row).val() == ((step + 1) * n + i0) % p()
    &&& trace.cell(D_ID as int, row).val() == ((step + 1) * n + i1) % p()
    &&& bits_hold(trace, M_BITS as nat, row, c.0)
    &&& bits_hold(trace, M_SLACK as nat, row, (q1 - c.0) as nat)
    &&& bits_hold(trace, S_BITS as nat, row, c.2)
    &&& bits_hold(trace, S_SLACK as nat, row, (q1 - c.2) as nat)
    &&& bits_hold(trace, D_BITS as nat, row, c.4)
    &&& bits_hold(trace, D_SLACK as nat, row, (q1 - c.4) as nat)
    &&& bits_hold(trace, MQ_BITS as nat, row, c.1)
}

/// A filled butterfly row stays filled when its butterfly cells stay.
pub proof fn lemma_bf_row_frame(t1: TraceTable, t2: TraceTable, row: int, a: nat, b: nat, w: nat, step: nat, i0: nat, i1: nat, n: nat)
    requires
        bf_row_filled(t1, row, a, b, w, step, i0, i1, n),
        forall|c: int| 0 <= c < SEL0 ==> #[trigger] t2.cell(c, row) == t1.cell(c, row),
    ensures
        bf_row_filled(t2, row, a, b, w, step, i0, i1, n),
{
    let c = bf_cells(a, b, w);
    let q1 = (Q - 1) as nat;
    assert forall|base: nat, x: nat| base + RESIDUE_BITS <= SEL0 && bits_hold(t1, base, row, x)
        implies #[trigger] bits_hold(t2, base, row, x) by {
        assert forall|k: int| 0 <= k < RESIDUE_BITS implies (#[trigger] t2.cell(base + k, row)).val() == crate::air::bit_of(x, k as nat) by {
            assert(t2.cell(base + k, row) == t1.cell(base + k, row));
        }
    }
    assert(t2.cell(A as int, row) == t1.cell(A as int, row));
    assert(t2.cell(B as int, row) == t1.cell(B as int, row));
    assert(t2.cell(W as int, row) == t1.cell(W as int, row));
    assert(t2.cell(M as int, row) == t1.cell(M as int, row));
    assert(t2.cell(S as int, row) == t1.cell(S as int, row));
    assert(t2.cell(D as int, row) == t1.cell(D as int, row));
    assert(t2.cell(MQ as int, row) == t1.cell(MQ as int, row));
    assert(t2.cell(CS as int, row) == t1.cell(CS as int, row));
    assert(t2.cell(CD as int, row) == t1.cell(CD as int, row));
    assert(t2.cell(A_ID as int, row) == t1.cell(A_ID as int, row));
    assert(t2.cell(B_ID as int, row) == t1.cell(B_ID as int, row));
    assert(t2.cell(S_ID as int, row) == t1.cell(S_ID as int, row));
    assert(t2.cell(D_ID as int, row) == t1.cell(D_ID as int, row));
    assert(bits_hold(t2, M_BITS as nat, row, c.0));
    assert(bits_hold(t2, M_SLACK as nat, row, (q1 - c.0) as nat));
    assert(bits_hold(t2, S_BITS as nat, row, c.2));
    assert(bits_hold(t2, S_SLACK as nat, row, (q1 - c.2) as nat));
    assert(bits_hold(t2, D_BITS as nat, row, c.4));
    assert(bits_hold(t2, D_SLACK as nat, row, (q1 - c.4) as nat));
    assert(bits_hold(t2, MQ_BITS as nat, row, c.1));
}

/// A row holding a butterfly on inputs below the modulus meets every single
/// row rule of the transform description.
#[verifier::rlimit(60)]
#[verifier::spinoff_prover]
pub proof fn law_butterfly_row_meets_rules(trace: TraceTable, row: int, a: nat, b: nat, w: nat, step: nat, i0: nat, i1: nat, n: nat)
    requires
        bf_row_filled(trace, row, a, b, w, step, i0, i1, n),
        a < Q,
        b < Q,
        w < Q,
        SEL0 <= trace.spec_width(),
    ensures
        forall|k: nat| k < NTT_RULES ==> #[trigger] ntt_rule(k, trace.spec_row(row)) == 0,
{
    let rv = trace.spec_row(row);
    crate::air::lemma_row_cells(&trace, row);
    let c = bf_cells(a, b, w);
    let q = Q as nat;
    let q1 = (Q - 1) as nat;
    let (m, mq, s, cs, d, cd) = (c.0, c.1, c.2, c.3, c.4, c.5);
    vstd::arithmetic::power2::lemma2_to64();
    assert(w * b <= (q - 1) * (q - 1)) by (nonlinear_arith)
        requires w < q, b < q;
    vstd::arithmetic::div_mod::lemma_fundamental_div_mod((w * b) as int, q as int);
    assert(mq < q) by (nonlinear_arith)
        requires mq == (w * b) / q, w * b <= (q - 1) * (q - 1), q > 1;
    assert(m < q);
    assert(s < q && d < q);
    assert(q < 0x80_0000);
    vstd::arithmetic::div_mod::lemma_small_mod(0, p());
    vstd::arithmetic::div_mod::lemma_small_mod(1, p());
    vstd::arithmetic::div_mod::lemma_small_mod(q, p());
    vstd::arithmetic::div_mod::lemma_small_mod(q1, p());
    vstd::arithmetic::div_mod::lemma_small_mod(a, p());
    vstd::arithmetic::div_mod::lemma_small_mod(m, p());
    vstd::arithmetic::div_mod::lemma_small_mod(s, p());
    vstd::arithmetic::div_mod::lemma_small_mod(d, p());
    vstd::arithmetic::div_mod::lemma_small_mod(mq, p());
    assert forall|k: nat| k < NTT_RULES implies #[trigger] ntt_rule(k, rv) == 0 by {
        let rb = RESIDUE_BITS as nat;
        if k == 0 {
            vstd::arithmetic::div_mod::lemma_small_mod(w * b, p());
            vstd::arithmetic::div_mod::lemma_small_mod(mq * q, p());
            assert(mq * q <= w * b);
            vstd::arithmetic::div_mod::lemma_small_mod((w * b - mq * q) as nat, p());
            assert(fmul(w, b) == w * b);
            assert(fmul(mq, q) == mq * q);
            assert(fsub(w * b, mq * q) == m);
            assert(ntt_rule(k, rv) == fsub(fsub(fmul(w, b), fmul(mq, q)), m));
        } else if k == 1 {
            crate::air::lemma_recompose_bits(rv, M_BITS as nat, rb, m);
            vstd::arithmetic::div_mod::lemma_small_mod(m, vstd::arithmetic::power2::pow2(rb));
        } else if k == 2 {
            crate::air::lemma_recompose_bits(rv, M_SLACK as nat, rb, (q1 - m) as nat);
            vstd::arithmetic::div_mod::lemma_small_mod((q1 - m) as nat, vstd::arithmetic::power2::pow2(rb));
            vstd::arithmetic::div_mod::lemma_small_mod((q1 - m) as nat, p());
        } else if k == 3 {
            crate::air::lemma_recompose_bits(rv, MQ_BITS as nat, rb, mq);
            vstd::arithmetic::div_mod::lemma_small_mod(mq, vstd::arithmetic::power2::pow2(rb));
        } else if k == 4 {
            vstd::arithmetic::div_mod::lemma_small_mod(a + m, p());
            vstd::arithmetic::div_mod::lemma_small_mod(cs * q, p());
            assert(fmul(cs, q) == cs * q);
            assert(fadd(a, m) == a + m);
            assert(fsub(a + m, cs * q) == s);
        } else if k == 5 {
            crate::air::lemma_bit_rule(rv, CS as nat);
        } else if k == 6 {
            crate::air::lemma_recompose_bits(rv, S_BITS as nat, rb, s);
            vstd::arithmetic::div_mod::lemma_small_mod(s, vstd::arithmetic::power2::pow2(rb));
        } else if k == 7 {
            crate::air::lemma_recompose_bits(rv, S_SLACK as nat, rb, (q1 - s) as nat);
            vstd::arithmetic::div_mod::lemma_small_mod((q1 - s) as nat, vstd::arithmetic::power2::pow2(rb));
            vstd::arithmetic::div_mod::lemma_small_mod((q1 - s) as nat, p());
        } else if k == 8 {
            vstd::arithmetic::div_mod::lemma_small_mod(cd * q, p());
            assert(fmul(cd, q) == cd * q);
            if a >= m {
                vstd::arithmetic::div_mod::lemma_small_mod((a - m) as nat, p());
                assert(fsub(a, m) == a - m);
                assert(fadd((a - m) as nat, 0) == d);
            } else {
                vstd::arithmetic::div_mod::lemma_small_mod((a - m + p()) as nat, p());
                assert(fsub(a, m) == a - m + p()) by {
                    vstd::arithmetic::div_mod::lemma_mod_add_multiples_vanish((a - m) as int, p() as int);
                }
                vstd::arithmetic::div_mod::lemma_mod_add_multiples_vanish((a + q - m) as int, p() as int);
                assert(fadd((a - m + p()) as nat, q) == d);
            }
        } else if k == 9 {
            crate::air::lemma_bit_rule(rv, CD as nat);
        } else if k == 10 {
            crate::air::lemma_recompose_bits(rv, D_BITS as nat, rb, d);
            vstd::arithmetic::div_mod::lemma_small_mod(d, vstd::arithmetic::power2::pow2(rb));
        } else if k == 11 {
            crate::air::lemma_recompose_bits(rv, D_SLACK as nat, rb, (q1 - d) as nat);
            vstd::arithmetic::div_mod::lemma_small_mod((q1 - d) as nat, vstd::arithmetic::power2::pow2(rb));
            vstd::arithmetic::div_mod::lemma_small_mod((q1 - d) as nat, p());
        } else {
            let j = (k - 12) as nat;
            let col = bit_base(j / rb) + j % rb;
            let jj = (j % rb) as int;
            assert(0 <= jj < RESIDUE_BITS);
            if j / rb == 0 {
                assert(trace.cell(M_BITS + jj, row).val() == crate::air::bit_of(m, jj as nat));
            } else if j / rb == 1 {
                assert(trace.cell(M_SLACK + jj, row).val() == crate::air::bit_of((q1 - m) as nat, jj as nat));
            } else if j / rb == 2 {
                assert(trace.cell(S_BITS + jj, row).val() == crate::air::bit_of(s, jj as nat));
            } else if j / rb == 3 {
                assert(trace.cell(S_SLACK + jj, row).val() == crate::air::bit_of((q1 - s) as nat, jj as nat));
            } else if j / rb == 4 {
                assert(trace.cell(D_BITS + jj, row).val() == crate::air::bit_of(d, jj as nat));
            } else if j / rb == 5 {
                assert(trace.cell(D_SLACK + jj, row).val() == crate::air::bit_of((q1 - d) as nat, jj as nat));
            } else {
                assert(trace.cell(MQ_BITS + jj, row).val() == crate::air::bit_of(mq, jj as nat));
            }
            crate::air::lemma_bit_rule(rv, col);
        }
    }
}

fn fill_bf_bits(trace: &mut TraceTable, row: usize, m: u64, s: u64, d: u64, mq: u64)
    requires
        SEL0 <= old(trace).spec_width(),
        row < old(trace).spec_length(),
        m < Q,
        s < Q,
        d < Q,
    ensures
        final(trace).spec_width() == old(trace).spec_width(),
        final(trace).spec_length() == old(trace).spec_length(),
        bits_hold(*final(trace), M_BITS as nat, row as int, m as nat),
        bits_hold(*final(trace), M_SLACK as nat, row as int, (Q - 1 - m) as nat),
        bits_hold(*final(trace), S_BITS as nat, row as int, s as nat),
        bits_hold(*final(trace), S_SLACK as nat, row as int, (Q - 1 - s) as nat),
        bits_hold(*final(trace), D_BITS as nat, row as int, d as nat),
        bits_hold(*final(trace), D_SLACK as nat, row as int, (Q - 1 - d) as nat),
        bits_hold(*final(trace), MQ_BITS as nat, row as int, mq as nat),
        forall|c: int, r: int| (r != row || c < M_BITS || c >= SEL0) && 0 <= c < old(trace).spec_width()
            && 0 <= r < old(trace).spec_length() ==> #[trigger] final(trace).cell(c, r) == old(trace).cell(c, r),
{
    let ghost t0 = *trace;
    fill_bits(trace, M_BITS, row, m, RESIDUE_BITS);
    let ghost t1 = *trace;
    fill_bits(trace, M_SLACK, row, Q - 1 - m, RESIDUE_BITS);
    let ghost t2 = *trace;
    fill_bits(trace, S_BITS, row, s, RESIDUE_BITS);
    let ghost t3 = *trace;
    fill_bits(trace, S_SLACK, row, Q - 1 - s, RESIDUE_BITS);
    let ghost t4 = *trace;
    fill_bits(trace, D_BITS, row, d, RESIDUE_BITS);
    let ghost t5 = *trace;
    fill_bits(trace, D_SLACK, row, Q - 1 - d, RESIDUE_BITS);
    let ghost t6 = *trace;
    fill_bits(trace, MQ_BITS, row, mq, RESIDUE_BITS);
    proof {
        let t7 = *trace;
        let r = row as int;
        assert forall|k: int| 0 <= k < RESIDUE_BITS implies (#[trigger] t7.cell(M_BITS + k, r)).val() == crate::air::bit_of(m as nat, k as nat) by {
            assert(t1.cell(M_BITS + k, r) == t2.cell(M_BITS + k, r));
            assert(t2.cell(M_BITS + k, r) == t3.cell(M_BITS + k, r));
            assert(t3.cell(M_BITS + k, r) == t4.cell(M_BITS + k, r));
            assert(t4.cell(M_BITS + k, r) == t5.cell(M_BITS + k, r));
            assert(t5.cell(M_BITS + k, r) == t6.cell(M_BITS + k, r));
            assert(t6.cell(M_BITS + k, r) == t7.cell(M_BITS + k, r));
        }
        assert forall|k: int| 0 <= k < RESIDUE_BITS implies (#[trigger] t7.cell(M_SLACK + k, r)).val() == crate::air::bit_of((Q - 1 - m) as nat, k as nat) by {
            assert(t2.cell(M_SLACK + k, r) == t3.cell(M_SLACK + k, r));
            assert(t3.cell(M_SLACK + k, r) == t4.cell(M_SLACK + k, r));
            assert(t4.cell(M_SLACK + k, r) == t5.cell(M_SLACK + k, r));
            assert(t5.cell(M_SLACK + k, r) == t6.cell(M_SLACK + k, r));
            assert(t6.cell(M_SLACK + k, r) == t7.cell(M_SLACK + k, r));
        }
        assert forall|k: int| 0 <= k < RESIDUE_BITS implies (#[trigger] t7.cell(S_BITS + k, r)).val() == crate::air::bit_of(s as nat, k as nat) by {
            assert(t3.cell(S_BITS + k, r) == t4.cell(S_BITS + k, r));
            assert(t4.cell(S_BITS + k, r) == t5.cell(S_BITS + k, r));
            assert(t5.cell(S_BITS + k, r) == t6.cell(S_BITS + k, r));
            assert(t6.cell(S_BITS + k, r) == t7.cell(S_BITS + k, r));
        }
        assert forall|k: int| 0 <= k < RESIDUE_BITS implies (#[trigger] t7.cell(S_SLACK + k, r)).val() == crate::air::bit_of((Q - 1 - s) as nat, k as nat) by {
            assert(t4.cell(S_SLACK + k, r) == t5.cell(S_SLACK + k, r));
            assert(t5.cell(S_SLACK + k, r) == t6.cell(S_SLACK + k, r));
            assert(t6.cell(S_SLACK + k, r) == t7.cell(S_SLACK + k, r));
        }
        assert forall|k: int| 0 <= k < RESIDUE_BITS implies (#[trigger] t7.cell(D_BITS + k, r)).val() == crate::air::bit_of(d as nat, k as nat) by {
            assert(t5.cell(D_BITS + k, r) == t6.cell(D_BITS + k, r));
            assert(t6.cell(D_BITS + k, r) == t7.cell(D_BITS + k, r));
        }
        assert forall|k: int| 0 <= k < RESIDUE_BITS implies (#[trigger] t7.cell(D_SLACK + k, r)).val() == crate::air::bit_of((Q - 1 - d) as nat, k as nat) by {
            assert(t6.cell(D_SLACK + k, r) == t7.cell(D_SLACK + k, r));
        }
        assert forall|c: int, rr: int| (rr != row || c < M_BITS || c >= SEL0) && 0 <= c < t0.spec_width()
            && 0 <= rr < t0.spec_length() implies #[trigger] t7.cell(c, rr) == t0.cell(c, rr) by {
            assert(t7.cell(c, rr) == t6.cell(c, rr));
            assert(t6.cell(c, rr) == t5.cell(c, rr));
            assert(t5.cell(c, rr) == t4.cell(c, rr));
            assert(t4.cell(c, rr) == t3.cell(c, rr));
            assert(t3.cell(c, rr) == t2.cell(c, rr));
            assert(t2.cell(c, rr) == t1.cell(c, rr));
            assert(t1.cell(c, rr) == t0.cell(c, rr));
        }
    }
}


fn fill_bf_values(trace: &mut TraceTable, row: usize, vals: &[Felt; 13])
    requires
        SEL0 <= old(trace).spec_width(),
        row < old(trace).spec_length(),
    ensures
        final(trace).spec_width() == old(trace).spec_width(),
        final(trace).spec_length() == old(trace).spec_length(),
        forall|j: int| 0 <= j < 13 ==> #[trigger] final(trace).cell(j, row as int) == vals@[j],
        forall|c: int, r: int| (r != row || c >= M_BITS) && 0 <= c < old(trace).spec_width()
            && 0 <= r < old(trace).spec_length() ==> #[trigger] final(trace).cell(c, r) == old(trace).cell(c, r),
{
    let mut i: usize = 0;
    while i < 13
        invariant
            i <= 13,
            SEL0 <= trace.spec_width(),
            row < trace.spec_length(),
            trace.spec_width() == old(trace).spec_width(),
            trace.spec_length() == old(trace).spec_length(),
            forall|j: int| 0 <= j < i ==> #[trigger] trace.cell(j, row as int) == vals@[j],
            forall|c: int, r: int| (r != row || c >= i) && 0 <= c < old(trace).spec_width()
                && 0 <= r < old(trace).spec_length() ==> #[trigger] trace.cell(c, r) == old(trace).cell(c, r),
        decreases 13 - i,
    {
        let ghost before = *trace;
        trace.set(i, row, vals[i]);
        proof {
            assert forall|j: int| 0 <= j < i + 1 implies #[trigger] trace.cell(j, row as int) == vals@[j] by {
                if j < i {
                    assert(trace.cell(j, row as int) == before.cell(j, row as int));
                }
            }
            assert forall|c: int, r: int| (r != row || c >= i + 1) && 0 <= c < old(trace).spec_width()
                && 0 <= r < old(trace).spec_length() implies #[trigger] trace.cell(c, r) == old(trace).cell(c, r) by {
                assert(trace.cell(c, r) == before.cell(c, r));
            }
        }
        i = i + 1;
    }
}

/// Writes one butterfly into its row and gives its reduced sum and
/// difference.
fn fill_butterfly(trace: &mut TraceTable, row: usize, a: u64, b: u64, w: u64, step: u32, i0: usize, i1: usize, n: usize) -> (r: (u64, u64))
    requires
        SEL0 <= old(trace).spec_width(),
        row < old(trace).spec_length(),
        a < Q,
        b < Q,
        w < Q,
        step < 64,
        (step + 1) * n + i0 <= u64::MAX,
        (step + 1) * n + i1 <= u64::MAX,
    ensures
        final(trace).spec_width() == old(trace).spec_width(),
        final(trace).spec_length() == old(trace).spec_length(),
        bf_row_filled(*final(trace), row as int, a as nat, b as nat, w as nat, step as nat, i0 as nat, i1 as nat, n as nat),
        r.0 == bf_cells(a as nat, b as nat, w as nat).2,
        r.1 == bf_cells(a as nat, b as nat, w as nat).4,
        r.0 < Q,
        r.1 < Q,
        forall|c: int, rr: int| (rr != row || c >= SEL0) && 0 <= c < old(trace).spec_width()
            && 0 <= rr < old(trace).spec_length() ==> #[trigger] final(trace).cell(c, rr) == old(trace).cell(c, rr),
{
    proof {
        assert(w * b <= 0xffff_ffff_ffff_ffff) by (nonlinear_arith)
            requires w < 0x1_0000_0000, b < 0x1_0000_0000;
    }
    let product = (w as u128) * (b as u128);
    proof {
        assert(product / (Q as u128) < Q) by (nonlinear_arith)
            requires product == w * b, w < Q, b < Q;
    }
    let mq = (product / Q as u128) as u64;
    let m = (product % Q as u128) as u64;
    let sum = a + m;
    let cs: u64 = if sum >= Q { 1 } else { 0 };
    let s = sum - cs * Q;
    let cd: u64 = if a >= m { 0 } else { 1 };
    let d = a + cd * Q - m;
    proof {
        assert((step as u64 + 1) * n as u64 == (step + 1) * n) by (nonlinear_arith)
            requires (step + 1) * n + i0 <= u64::MAX;
        assert(step as u64 * n as u64 == step * n) by (nonlinear_arith)
            requires (step + 1) * n + i0 <= u64::MAX;
        assert(step * n + i0 <= (step + 1) * n + i0) by (nonlinear_arith);
        assert(step * n + i1 <= (step + 1) * n + i1) by (nonlinear_arith);
    }
    let vals: [Felt; 13] = [
        Felt::new(a), Felt::new(b), Felt::new(w), Felt::new(m), Felt::new(s), Felt::new(d), Felt::new(mq),
        Felt::new(cs), Felt::new(cd),
        Felt::new(identity(step, i0, n)), Felt::new(identity(step, i1, n)),
        Felt::new(identity(step + 1, i0, n)), Felt::new(identity(step + 1, i1, n)),
    ];
    let ghost t0 = *trace;
    fill_bf_values(trace, row, &vals);
    let ghost t1 = *trace;
    fill_bf_bits(trace, row, m, s, d, mq);
    proof {
        let t2 = *trace;
        let rr = row as int;
        assert forall|j: int| 0 <= j < 13 implies #[trigger] t2.cell(j, rr) == vals@[j] by {
            assert(t2.cell(j, rr) == t1.cell(j, rr));
        }
        vstd::arithmetic::div_mod::lemma_small_mod(a as nat, p());
        vstd::arithmetic::div_mod::lemma_small_mod(b as nat, p());
        vstd::arithmetic::div_mod::lemma_small_mod(w as nat, p());
        vstd::arithmetic::div_mod::lemma_small_mod(m as nat, p());
        vstd::arithmetic::div_mod::lemma_small_mod(s as nat, p());
        vstd::arithmetic::div_mod::lemma_small_mod(d as nat, p());
        vstd::arithmetic::div_mod::lemma_small_mod(mq as nat, p());
        vstd::arithmetic::div_mod::lemma_small_mod(cs as nat, p());
        vstd::arithmetic::div_mod::lemma_small_mod(cd as nat, p());
        assert(t2.cell(A as int, rr) == vals@[0]);
        assert(t2.cell(B as int, rr) == vals@[1]);
        assert(t2.cell(W as int, rr) == vals@[2]);
        assert(t2.cell(M as int, rr) == vals@[3]);
        assert(t2.cell(S as int, rr) == vals@[4]);
        assert(t2.cell(D as int, rr) == vals@[5]);
        assert(t2.cell(MQ as int, rr) == vals@[6]);
        assert(t2.cell(CS as int, rr) == vals@[7]);
        assert(t2.cell(CD as int, rr) == vals@[8]);
        assert(t2.cell(A_ID as int, rr) == vals@[9]);
        assert(t2.cell(B_ID as int, rr) == vals@[10]);
        assert(t2.cell(S_ID as int, rr) == vals@[11]);
        assert(t2.cell(D_ID as int, rr) == vals@[12]);
        assert forall|c: int, r2: int| (r2 != row || c >= SEL0) && 0 <= c < t0.spec_width()
            && 0 <= r2 < t0.spec_length() implies #[trigger] t2.cell(c, r2) == t0.cell(c, r2) by {
            assert(t2.cell(c, r2) == t1.cell(c, r2));
            assert(t1.cell(c, r2) == t0.cell(c, r2));
        }
    }
    (s, d)
}


/// The network state after the butterfly at schedule position k: its two
/// values replaced by their reduced sum and difference.
pub open spec fn net_step(state: Seq<u64>, n: nat, omega: nat, k: nat) -> Seq<u64> {
    let h = n / 2;
    let t = bf_spec(n, log2(n), omega, k / h, k % h);
    let c = bf_cells(state[t.1 as int] as nat, state[t.2 as int] as nat, t.3);
    state.update(t.1 as int, c.2 as u64).update(t.2 as int, c.4 as u64)
}

/// The network state after the first k butterflies of the schedule.
pub open spec fn net_state(input: Seq<u64>, n: nat, omega: nat, k: nat) -> Seq<u64>
    decreases k,
{
    if k == 0 {
        input
    } else {
        net_step(net_state(input, n, omega, (k - 1) as nat), n, omega, (k - 1) as nat)
    }
}

/// The output of the network on an input of size n: the state after every
/// butterfly.
pub open spec fn ntt_output(input: Seq<u64>, n: nat) -> Seq<u64> {
    net_state(input, n, spec_root_q(n), log2(n) * (n / 2))
}

/// The butterfly at schedule position k is written into its row with the
/// values the network holds before it.
pub open spec fn bf_done(trace: TraceTable, input: Seq<u64>, n: nat, omega: nat, k: nat) -> bool {
    let h = n / 2;
    let t = bf_spec(n, log2(n), omega, k / h, k % h);
    let st = net_state(input, n, omega, k);
    bf_row_filled(trace, t.0 as int, st[t.1 as int] as nat, st[t.2 as int] as nat, t.3, k / h, t.1, t.2, n)
}

/// The layer selector of each row is on for the row's layer and off for the
/// others.
pub open spec fn sel_filled(trace: TraceTable, layers: nat, rows: nat) -> bool {
    forall|r: int, j: int| 0 <= r < rows && 0 <= j < layers
        ==> (#[trigger] trace.cell(SEL0 + j, r)).val() == if j == r % (layers as int) { 1nat } else { 0nat }
}

/// The trace of a transform of size n fits the machine: its rows, its cells
/// and its wire identities.
pub open spec fn ntt_fits(n: nat) -> bool {
    let layers = log2(n);
    let rows = (n / 2) * layers;
    &&& is_pow2(rows)
    &&& (SEL0 + layers) * rows <= usize::MAX
    &&& (layers + 1) * n <= u64::MAX
}

/// Distinct schedule positions write distinct rows.
proof fn lemma_rows_differ(h: nat, l: nat, j: nat, k: nat)
    requires
        h >= 1,
        l >= 1,
        j < k,
        k < l * h,
    ensures
        (j % h) * l + j / h != (k % h) * l + k / h,
{
    let a = j / h;
    let b = k / h;
    let x = j % h;
    let y = k % h;
    vstd::arithmetic::div_mod::lemma_fundamental_div_mod(j as int, h as int);
    vstd::arithmetic::div_mod::lemma_fundamental_div_mod(k as int, h as int);
    assert(a < l && b < l) by (nonlinear_arith)
        requires j == h * a + x, k == h * b + y, x >= 0, y >= 0, j < k, k < l * h, h >= 1;
    if x * l + a == y * l + b {
        assert(x == y) by (nonlinear_arith)
            requires x * l + a == y * l + b, a < l, b < l, a >= 0, b >= 0, x >= 0, y >= 0;
        assert(j == k);
    }
}

/// A schedule position lies in the network: its layer below the layer
/// count and its row below the row count.
proof fn lemma_position(h: nat, l: nat, j: nat)
    requires
        h >= 1,
        j < l * h,
    ensures
        j / h < l,
        j % h < h,
        (j % h) * l + j / h < h * l,
{
    vstd::arithmetic::div_mod::lemma_fundamental_div_mod(j as int, h as int);
    assert(j / h < l) by (nonlinear_arith)
        requires j == h * (j / h) + j % h, j < l * h, h >= 1, j % h >= 0;
    let x = j % h;
    let y = j / h;
    assert(x * l + y < h * l) by (nonlinear_arith)
        requires x < h, y < l, x >= 0, y >= 0;
}

/// A written butterfly stays written when its row keeps its butterfly cells.
proof fn lemma_done_kept(t1: TraceTable, t2: TraceTable, input: Seq<u64>, n: nat, om: nat, j: nat, row: int)
    requires
        n >= 2,
        log2(n) >= 1,
        j < log2(n) * (n / 2),
        bf_done(t1, input, n, om, j),
        (j % (n / 2)) * log2(n) + j / (n / 2) != row,
        t1.spec_length() == (n / 2) * log2(n),
        forall|c: int, r: int| 0 <= c < SEL0 && 0 <= r < t1.spec_length() && r != row
            ==> #[trigger] t2.cell(c, r) == t1.cell(c, r),
    ensures
        bf_done(t2, input, n, om, j),
{
    let h = n / 2;
    let l = log2(n);
    lemma_position(h, l, j);
    let t = bf_spec(n, l, om, j / h, j % h);
    let st = net_state(input, n, om, j);
    assert forall|c: int| 0 <= c < SEL0 implies #[trigger] t2.cell(c, t.0 as int) == t1.cell(c, t.0 as int) by {}
    lemma_bf_row_frame(t1, t2, t.0 as int, st[t.1 as int] as nat, st[t.2 as int] as nat, t.3, j / h, t.1, t.2, n);
}

proof fn lemma_net_state_bound(input: Seq<u64>, n: nat, om: nat, k: nat)
    requires
        is_pow2(n),
        n >= 2,
        input.len() == n,
        forall|i: int| 0 <= i < n ==> #[trigger] input[i] < Q,
        k <= log2(n) * (n / 2),
    ensures
        net_state(input, n, om, k).len() == n,
        forall|i: int| 0 <= i < n ==> #[trigger] net_state(input, n, om, k)[i] < Q,
    decreases k,
{
    if k > 0 {
        let j = (k - 1) as nat;
        lemma_net_state_bound(input, n, om, j);
        let h = n / 2;
        let st = net_state(input, n, om, j);
        let t = bf_spec(n, log2(n), om, j / h, j % h);
        crate::util::lemma_pow2_log2(n);
        lemma_position(h, log2(n), j);
        lemma_bf_indices(n, j / h, j % h);
        let c = bf_cells(st[t.1 as int] as nat, st[t.2 as int] as nat, t.3);
        assert(c.2 < Q && c.4 < Q);
        assert forall|i: int| 0 <= i < n implies #[trigger] net_state(input, n, om, k)[i] < Q by {
            assert(net_state(input, n, om, k) == net_step(st, n, om, j));
        }
    }
}

/// Every row of a transform trace holds a butterfly and meets every single
/// row rule of the description.
proof fn lemma_rows_meet_rules(trace: TraceTable, input: Seq<u64>, n: nat, om: nat)
    requires
        is_pow2(n),
        n >= 2,
        input.len() == n,
        forall|i: int| 0 <= i < n ==> #[trigger] input[i] < Q,
        trace.spec_width() == SEL0 + log2(n),
        trace.spec_length() == (n / 2) * log2(n),
        forall|k: nat| k < log2(n) * (n / 2) ==> #[trigger] bf_done(trace, input, n, om, k),
    ensures
        forall|r: int, k: nat| 0 <= r < trace.spec_length() && k < NTT_RULES
            ==> #[trigger] ntt_rule(k, trace.spec_row(r)) == 0,
{
    let h = n / 2;
    let l = log2(n);
    crate::util::lemma_pow2_log2(n);
    assert forall|r: int, k: nat| 0 <= r < trace.spec_length() && k < NTT_RULES
        implies #[trigger] ntt_rule(k, trace.spec_row(r)) == 0 by {
        vstd::arithmetic::div_mod::lemma_fundamental_div_mod(r, l as int);
        let pp = r / (l as int);
        let step = r % (l as int);
        assert(pp < h) by (nonlinear_arith)
            requires r == l * pp + step, r < h * l, 0 <= step, l >= 1;
        let j = (step * h + pp) as nat;
        assert(j < l * h) by (nonlinear_arith)
            requires step < l, pp < h, j == step * h + pp, pp >= 0;
        vstd::arithmetic::div_mod::lemma_div_multiples_vanish_fancy(step, pp, h as int);
        vstd::arithmetic::div_mod::lemma_mod_multiples_vanish(step, pp, h as int);
        vstd::arithmetic::div_mod::lemma_small_mod(pp as nat, h);
        assert(j / h == step) by {
            vstd::arithmetic::div_mod::lemma_fundamental_div_mod_converse(j as int, h as int, step, pp);
        }
        assert(j % h == pp) by {
            vstd::arithmetic::div_mod::lemma_fundamental_div_mod_converse(j as int, h as int, step, pp);
        }
        assert(bf_done(trace, input, n, om, j));
        let t = bf_spec(n, l, om, j / h, j % h);
        assert(t.0 == r) by (nonlinear_arith)
            requires t.0 == pp * l + step, r == l * pp + step;
        let st = net_state(input, n, om, j);
        lemma_net_state_bound(input, n, om, j);
        lemma_bf_indices(n, j / h, j % h);
        law_butterfly_row_meets_rules(trace, r, st[t.1 as int] as nat, st[t.2 as int] as nat, t.3, j / h, t.1, t.2, n);
    }
}

/// A transform instance: its description, its trace, its input and its
/// output.
pub struct NttInstance {
    pub air: Air,
    pub trace: TraceTable,
    pub input: Vec<u64>,
    pub output: Vec<u64>,
}

/// Runs the butterfly network on an input in bit reversed order and writes
/// every butterfly into its row, with the description of the transform from
/// that input to the output it reached.
#[verifier::rlimit(60)]
pub fn ntt_trace(input: &[u64]) -> (inst: NttInstance)
    requires
        is_pow2(input@.len()),
        input@.len() >= 2,
        has_root_q(input@.len()),
        ntt_fits(input@.len()),
        forall|i: int| 0 <= i < input@.len() ==> input@[i] < Q,
    ensures
        inst.input@ == input@,
        inst.output@ == ntt_output(input@, input@.len()),
        inst.output@.len() == input@.len(),
        describes_ntt(inst.air, input@.len(), spec_root_q(input@.len()), input@, inst.output@),
        inst.trace.spec_width() == SEL0 + log2(input@.len()),
        inst.trace.spec_length() == (input@.len() / 2) * log2(input@.len()),
        forall|k: nat| k < log2(input@.len()) * (input@.len() / 2)
            ==> #[trigger] bf_done(inst.trace, input@, input@.len(), spec_root_q(input@.len()), k),
        sel_filled(inst.trace, log2(input@.len()), (input@.len() / 2) * log2(input@.len())),
        forall|r: int, k: nat| 0 <= r < inst.trace.spec_length() && k < NTT_RULES
            ==> #[trigger] ntt_rule(k, inst.trace.spec_row(r)) == 0,
{
    let n = input.len();
    let layers = count_trailing_zeros(n);
    proof {
        lemma_trailing_zeros(n as nat);
        crate::util::lemma_log2_bound(n as nat);
        crate::util::lemma_pow2_log2(n as nat);
        if layers == 0 {
            assert(two_pow(0) == 1);
        }
    }
    let h = n / 2;
    let l = layers as usize;
    proof {
        assert(h * l <= (SEL0 + l) * (h * l)) by (nonlinear_arith)
            requires h * l >= 0, SEL0 + l >= 1;
        assert(l * h == h * l) by (nonlinear_arith);
    }
    let rows = h * l;
    let omega = root_of_unity_q(n);
    let plan = schedule(n, layers, omega);
    let mut state = crate::crypto::copy_slice(input);
    let mut trace = TraceTable::new(width(layers), rows);
    let ghost om = omega as nat;
    let mut k: usize = 0;
    while k < plan.len()
        invariant
            k <= plan@.len(),
            n == input@.len(),
            h == n / 2,
            h >= 1,
            l == layers,
            l == log2(n as nat),
            1 <= l < 64,
            rows == h * l,
            is_pow2(n as nat),
            n as nat == two_pow(log2(n as nat)),
            (l + 1) * n <= u64::MAX,
            om == omega,
            plan@.len() == l * h,
            forall|step: int, pp: int| 0 <= step < l && 0 <= pp < h
                ==> bf_is(#[trigger] plan@[step * h + pp], n as nat, l as nat, om, step as nat, pp as nat),
            state@ == net_state(input@, n as nat, om, k as nat),
            state@.len() == n,
            forall|i: int| 0 <= i < n ==> state@[i] < Q,
            trace.spec_width() == SEL0 + l,
            trace.spec_length() == rows,
            forall|j: nat| j < k ==> #[trigger] bf_done(trace, input@, n as nat, om, j),
            forall|c: int, r: int| SEL0 <= c < SEL0 + l && 0 <= r < rows ==> (#[trigger] trace.cell(c, r)).val() == 0,
        decreases plan@.len() - k,
    {
        let ghost step = k / h;
        let ghost pp = k % h;
        proof {
            vstd::arithmetic::div_mod::lemma_fundamental_div_mod(k as int, h as int);
            assert(step < l) by (nonlinear_arith)
                requires k == h * step + pp, k < l * h, pp >= 0, h >= 1;
            assert(k == step * h + pp) by (nonlinear_arith)
                requires k == h * step + pp;
            assert(bf_is(plan@[step * h + pp], n as nat, l as nat, om, step as nat, pp as nat));
            lemma_bf_indices(n as nat, step as nat, pp as nat);
            assert(pp * l + step < h * l) by (nonlinear_arith)
                requires pp < h, step < l;
            assert((step + 1) * n + n <= (l + 1) * n) by (nonlinear_arith)
                requires step < l;
        }
        let bf = &plan[k];
        let a = state[bf.i0];
        let b = state[bf.i1];
        let ghost before = trace;
        let (s, d) = fill_butterfly(&mut trace, bf.row, a, b, bf.twiddle, bf.step, bf.i0, bf.i1, n);
        state.set(bf.i0, s);
        state.set(bf.i1, d);
        proof {
            assert(state@ =~= net_state(input@, n as nat, om, (k + 1) as nat));
            assert forall|j: nat| j < k + 1 implies #[trigger] bf_done(trace, input@, n as nat, om, j) by {
                if j < k {
                    lemma_rows_differ(h as nat, l as nat, j, k as nat);
                    lemma_done_kept(before, trace, input@, n as nat, om, j, bf.row as int);
                }
            }
        }
        k = k + 1;
    }
    let ghost filled = trace;
    let mut r: usize = 0;
    while r < rows
        invariant
            r <= rows,
            l >= 1,
            trace.spec_width() == SEL0 + l,
            trace.spec_length() == rows,
            forall|c: int, rr: int| 0 <= c < SEL0 && 0 <= rr < rows ==> #[trigger] trace.cell(c, rr) == filled.cell(c, rr),
            forall|rr: int, j: int| 0 <= rr < r && 0 <= j < l
                ==> (#[trigger] trace.cell(SEL0 + j, rr)).val() == if j == rr % (l as int) { 1nat } else { 0nat },
            forall|c: int, rr: int| SEL0 <= c < SEL0 + l && r <= rr < rows ==> (#[trigger] trace.cell(c, rr)).val() == 0,
        decreases rows - r,
    {
        let ghost before = trace;
        trace.set(SEL0 + r % l, r, Felt::one());
        proof {
            assert forall|rr: int, j: int| 0 <= rr < r + 1 && 0 <= j < l
                implies (#[trigger] trace.cell(SEL0 + j, rr)).val() == if j == rr % (l as int) { 1nat } else { 0nat } by {
                if rr < r || j != r % l {
                    assert(trace.cell(SEL0 + j, rr) == before.cell(SEL0 + j, rr));
                }
            }
            assert forall|c: int, rr: int| SEL0 <= c < SEL0 + l && r + 1 <= rr < rows implies (#[trigger] trace.cell(c, rr)).val() == 0 by {
                assert(trace.cell(c, rr) == before.cell(c, rr));
            }
            assert forall|c: int, rr: int| 0 <= c < SEL0 && 0 <= rr < rows implies #[trigger] trace.cell(c, rr) == filled.cell(c, rr) by {
                assert(trace.cell(c, rr) == before.cell(c, rr));
            }
        }
        r = r + 1;
    }
    proof {
        assert forall|j: nat| j < l * h implies #[trigger] bf_done(trace, input@, n as nat, om, j) by {
            lemma_done_kept(filled, trace, input@, n as nat, om, j, -1);
        }
        assert(l * h == log2(n as nat) * (n / 2) as nat);
    }
    proof {
        lemma_rows_meet_rules(trace, input@, n as nat, om);
    }
    let air = ntt_air(n, input, &state);
    NttInstance { air, trace, input: crate::crypto::copy_slice(input), output: state }
}

proof fn lemma_qpow_double(b: int, e: nat, m: int)
    requires
        m > 0,
    ensures
        pow(b, 2 * e) % m == ((pow(b, e) % m) * (pow(b, e) % m)) % m,
{
    vstd::arithmetic::power::lemma_pow_adds(b, e, e);
    assert(2 * e == e + e);
    vstd::arithmetic::div_mod::lemma_mul_mod_noop(pow(b, e), pow(b, e), m);
}

proof fn lemma_qpow_double_plus(b: int, e: nat, m: int)
    requires
        m > 0,
        0 <= b < m,
    ensures
        pow(b, 2 * e + 1) % m == ((((pow(b, e) % m) * (pow(b, e) % m)) % m) * b) % m,
{
    lemma_qpow_double(b, e, m);
    vstd::arithmetic::power::lemma_pow_adds(b, 2 * e, 1);
    vstd::arithmetic::power::lemma_pow1(b);
    vstd::arithmetic::div_mod::lemma_mul_mod_noop(pow(b, 2 * e), b, m);
    vstd::arithmetic::div_mod::lemma_small_mod(b as nat, m as nat);
    vstd::arithmetic::div_mod::lemma_mod_twice(pow(b, 2 * e), m);
    vstd::arithmetic::div_mod::lemma_mul_mod_noop(pow(b, 2 * e) % m, b, m);
}

/// The search for a root of unity of order two hundred fifty six modulo the
/// lattice prime succeeds: five to the sixteenth part of the group order has
/// order exactly two hundred fifty six.
pub proof fn law_root_q_256_exists()
    ensures
        has_root_q(256),
{
    let m = Q as int;
    assert(pow(5, 1) == 5) by {
        vstd::arithmetic::power::lemma_pow1(5);
    }
    assert(pow(5, 1) % m == 5);
    assert(pow(5, 3) % m == 125) by {
        lemma_qpow_double_plus(5, 1, m);
        assert((((5int * 5int) % 8380417int) * 5int) % 8380417int == 125int) by (nonlinear_arith);
    }
    assert(pow(5, 7) % m == 78125) by {
        lemma_qpow_double_plus(5, 3, m);
        assert((((125int * 125int) % 8380417int) * 5int) % 8380417int == 78125int) by (nonlinear_arith);
    }
    assert(pow(5, 15) % m == 4479828) by {
        lemma_qpow_double_plus(5, 7, m);
        assert((((78125int * 78125int) % 8380417int) * 5int) % 8380417int == 4479828int) by (nonlinear_arith);
    }
    assert(pow(5, 31) % m == 5590449) by {
        lemma_qpow_double_plus(5, 15, m);
        assert((((4479828int * 4479828int) % 8380417int) * 5int) % 8380417int == 5590449int) by (nonlinear_arith);
    }
    assert(pow(5, 63) % m == 3669999) by {
        lemma_qpow_double_plus(5, 31, m);
        assert((((5590449int * 5590449int) % 8380417int) * 5int) % 8380417int == 3669999int) by (nonlinear_arith);
    }
    assert(pow(5, 127) % m == 2156361) by {
        lemma_qpow_double_plus(5, 63, m);
        assert((((3669999int * 3669999int) % 8380417int) * 5int) % 8380417int == 2156361int) by (nonlinear_arith);
    }
    assert(pow(5, 255) % m == 8145185) by {
        lemma_qpow_double_plus(5, 127, m);
        assert((((2156361int * 2156361int) % 8380417int) * 5int) % 8380417int == 8145185int) by (nonlinear_arith);
    }
    assert(pow(5, 511) % m == 7762699) by {
        lemma_qpow_double_plus(5, 255, m);
        assert((((8145185int * 8145185int) % 8380417int) * 5int) % 8380417int == 7762699int) by (nonlinear_arith);
    }
    assert(pow(5, 1023) % m == 283817) by {
        lemma_qpow_double_plus(5, 511, m);
        assert((((7762699int * 7762699int) % 8380417int) * 5int) % 8380417int == 283817int) by (nonlinear_arith);
    }
    assert(pow(5, 2046) % m == 7901702) by {
        lemma_qpow_double(5, 1023, m);
        assert((283817int * 283817int) % 8380417int == 7901702int) by (nonlinear_arith);
    }
    assert(pow(5, 4092) % m == 5548360) by {
        lemma_qpow_double(5, 2046, m);
        assert((7901702int * 7901702int) % 8380417int == 5548360int) by (nonlinear_arith);
    }
    assert(pow(5, 8184) % m == 1718063) by {
        lemma_qpow_double(5, 4092, m);
        assert((5548360int * 5548360int) % 8380417int == 1718063int) by (nonlinear_arith);
    }
    assert(pow(5, 16368) % m == 6757063) by {
        lemma_qpow_double(5, 8184, m);
        assert((1718063int * 1718063int) % 8380417int == 6757063int) by (nonlinear_arith);
    }
    assert(pow(5, 32736) % m == 5801164) by {
        lemma_qpow_double(5, 16368, m);
        assert((6757063int * 6757063int) % 8380417int == 5801164int) by (nonlinear_arith);
    }
    let c = 5801164int;
    assert(pow(c, 1) % m == c) by {
        vstd::arithmetic::power::lemma_pow1(c);
    }
    assert(pow(c, 2) % m == 3415069) by {
        lemma_qpow_double(c, 1, m);
        assert((5801164int * 5801164int) % 8380417int == 3415069int) by (nonlinear_arith);
    }
    assert(pow(c, 4) % m == 5152541) by {
        lemma_qpow_double(c, 2, m);
        assert((3415069int * 3415069int) % 8380417int == 5152541int) by (nonlinear_arith);
    }
    assert(pow(c, 8) % m == 3764867) by {
        lemma_qpow_double(c, 4, m);
        assert((5152541int * 5152541int) % 8380417int == 3764867int) by (nonlinear_arith);
    }
    assert(pow(c, 16) % m == 5234739) by {
        lemma_qpow_double(c, 8, m);
        assert((3764867int * 3764867int) % 8380417int == 5234739int) by (nonlinear_arith);
    }
    assert(pow(c, 32) % m == 3761513) by {
        lemma_qpow_double(c, 16, m);
        assert((5234739int * 5234739int) % 8380417int == 3761513int) by (nonlinear_arith);
    }
    assert(pow(c, 64) % m == 3572223) by {
        lemma_qpow_double(c, 32, m);
        assert((3761513int * 3761513int) % 8380417int == 3572223int) by (nonlinear_arith);
    }
    assert(pow(c, 128) % m == 8380416) by {
        lemma_qpow_double(c, 64, m);
        assert((3572223int * 3572223int) % 8380417int == 8380416int) by (nonlinear_arith);
    }
    assert(pow(c, 256) % m == 1) by {
        lemma_qpow_double(c, 128, m);
        assert((8380416int * 8380416int) % 8380417int == 1int) by (nonlinear_arith);
    }
    assert(((Q - 1) as nat / 256nat) as nat == 32736);
    assert(root_candidate(5, 256) == 5801164);
    assert(mod_pow(5801164, 256, Q as nat) == 1);
    assert(mod_pow(5801164, 128, Q as nat) == 8380416);
    assert(root_works(5, 256));
}

proof fn lemma_rev_acc_shift(value: nat, bits: nat, acc: nat)
    ensures
        rev_acc(value, bits, acc) == acc * two_pow(bits) + rev_acc(value, bits, 0),
    decreases bits,
{
    if bits == 0 {
        assert(two_pow(0) == 1);
    } else {
        let b = (bits - 1) as nat;
        lemma_rev_acc_shift(value / 2, b, 2 * acc + value % 2);
        lemma_rev_acc_shift(value / 2, b, value % 2);
        assert(two_pow(bits) == 2 * two_pow(b));
        assert((2 * acc + value % 2) * two_pow(b) == acc * two_pow(bits) + (value % 2) * two_pow(b)) by (nonlinear_arith)
            requires two_pow(bits) == 2 * two_pow(b);
    }
}

/// Reversing no bits gives zero; reversing b bits puts the lowest bit of the
/// value at the top, bit b less one, above the reversal of the remaining b
/// less one bits.
pub proof fn law_bit_rev(value: nat, bits: nat)
    ensures
        bits == 0 ==> bit_rev(value, bits) == 0,
        bits >= 1 ==> bit_rev(value, bits) == (value % 2) * two_pow((bits - 1) as nat) + bit_rev(value / 2, (bits - 1) as nat),
{
    if bits >= 1 {
        lemma_rev_acc_shift(value / 2, (bits - 1) as nat, value % 2);
        assert(bit_rev(value, bits) == rev_acc(value / 2, (bits - 1) as nat, 2 * 0 + value % 2));
    }
}

/// A butterfly on residues a and b with twiddle w gives the product w b
/// reduced, a plus w b reduced, and a less w b reduced to the least
/// nonnegative residue.
pub proof fn law_butterfly(a: nat, b: nat, w: nat)
    requires
        a < Q,
        b < Q,
        w < Q,
    ensures
        bf_cells(a, b, w).0 == (w * b) % (Q as nat),
        bf_cells(a, b, w).2 == (a + w * b) % (Q as nat),
        bf_cells(a, b, w).4 as int == (a as int - w * b) % (Q as int),
{
    let q = Q as int;
    let m = (w * b) % (Q as nat);
    vstd::arithmetic::div_mod::lemma_mod_bound((w * b) as int, q);
    vstd::arithmetic::div_mod::lemma_add_mod_noop_right(a as int, (w * b) as int, q);
    vstd::arithmetic::div_mod::lemma_sub_mod_noop(a as int, (w * b) as int, q);
    vstd::arithmetic::div_mod::lemma_small_mod(a, Q as nat);
    if a + m >= Q {
        vstd::arithmetic::div_mod::lemma_small_mod((a + m - Q) as nat, Q as nat);
        vstd::arithmetic::div_mod::lemma_mod_sub_multiples_vanish((a + m) as int, q);
    } else {
        vstd::arithmetic::div_mod::lemma_small_mod((a + m) as nat, Q as nat);
    }
    if a >= m {
        vstd::arithmetic::div_mod::lemma_small_mod((a - m) as nat, Q as nat);
    } else {
        vstd::arithmetic::div_mod::lemma_small_mod((a + Q - m) as nat, Q as nat);
        vstd::arithmetic::div_mod::lemma_mod_add_multiples_vanish(a as int - m, q);
    }
}

} // verus!
