//! Powers of two over machine words.
use vstd::prelude::*;

verus! {

/// Two to a power.
pub open spec fn two_pow(k: nat) -> nat
    decreases k,
{
    if k == 0 { 1 } else { 2 * two_pow((k - 1) as nat) }
}

/// A positive power of two.
pub open spec fn is_pow2(n: nat) -> bool
    decreases n,
{
    if n == 0 {
        false
    } else if n == 1 {
        true
    } else {
        n % 2 == 0 && is_pow2(n / 2)
    }
}

/// The base two logarithm, rounded down.
pub open spec fn log2(n: nat) -> nat
    decreases n,
{
    if n <= 1 { 0 } else { 1 + log2(n / 2) }
}

/// A power of two is two to its logarithm.
pub proof fn lemma_pow2_log2(n: nat)
    requires
        is_pow2(n),
    ensures
        n == two_pow(log2(n)),
    decreases n,
{
    if n > 1 {
        lemma_pow2_log2(n / 2);
    }
}

/// Two to any power is a power of two.
pub proof fn lemma_two_pow_is_pow2(k: nat)
    ensures
        is_pow2(two_pow(k)),
        log2(two_pow(k)) == k,
        two_pow(k) >= 1,
    decreases k,
{
    if k > 0 {
        lemma_two_pow_is_pow2((k - 1) as nat);
        assert(two_pow(k) / 2 == two_pow((k - 1) as nat));
    }
}

/// Powers of two grow with the exponent.
pub proof fn lemma_two_pow_monotone(a: nat, b: nat)
    requires
        a <= b,
    ensures
        two_pow(a) <= two_pow(b),
    decreases b,
{
    if a < b {
        lemma_two_pow_monotone(a, (b - 1) as nat);
        lemma_two_pow_is_pow2((b - 1) as nat);
    }
}

/// Tests whether a word is a positive power of two.
pub fn is_power_of_two(n: usize) -> (r: bool)
    ensures
        r == is_pow2(n as nat),
{
    let mut m = n;
    if m == 0 {
        return false;
    }
    while m > 1
        invariant
            m > 0,
            is_pow2(n as nat) == is_pow2(m as nat),
        decreases m,
    {
        if m % 2 != 0 {
            return false;
        }
        m = m / 2;
    }
    true
}

/// The logarithm of a power of two, the count of its trailing zero bits.
pub fn log2_exact(n: usize) -> (r: u32)
    requires
        is_pow2(n as nat),
    ensures
        r == log2(n as nat),
        n == two_pow(r as nat),
{
    let mut m = n;
    let mut r: u32 = 0;
    proof {
        lemma_pow2_log2(n as nat);
        lemma_log2_bound(n as nat);
    }
    while m > 1
        invariant
            is_pow2(m as nat),
            r + log2(m as nat) == log2(n as nat),
            log2(n as nat) < 64,
        decreases m,
    {
        m = m / 2;
        r = r + 1;
    }
    r
}

/// The logarithm of a word is below sixty four.
pub proof fn lemma_log2_bound(n: nat)
    requires
        n <= usize::MAX,
    ensures
        log2(n) < 64,
{
    assert(usize::MAX < two_pow(64)) by {
        reveal_with_fuel(two_pow, 65);
    }
    lemma_log2_below(n, 64);
}

/// A count below two to the k has a logarithm below k.
pub proof fn lemma_log2_below(n: nat, k: nat)
    requires
        n < two_pow(k),
    ensures
        n > 0 ==> log2(n) < k,
    decreases k,
{
    if n > 1 {
        assert(k > 0);
        lemma_log2_below(n / 2, (k - 1) as nat);
    }
}

/// The smallest power of two at or above a word, one for zero.
pub open spec fn next_pow2(n: nat) -> nat
    decreases n,
{
    if n <= 1 { 1 } else { 2 * next_pow2(((n + 1) / 2) as nat) }
}

/// The next power of two is a power of two at or above the input.
pub proof fn lemma_next_pow2(n: nat)
    ensures
        is_pow2(next_pow2(n)),
        n <= next_pow2(n),
        next_pow2(n) >= 1,
        n <= 1 ==> next_pow2(n) == 1,
        is_pow2(n) ==> next_pow2(n) == n,
    decreases n,
{
    if n > 1 {
        lemma_next_pow2(((n + 1) / 2) as nat);
        assert((2 * next_pow2(((n + 1) / 2) as nat)) / 2 == next_pow2(((n + 1) / 2) as nat));
        if is_pow2(n) {
            assert((n + 1) / 2 == n / 2);
        }
    }
}

/// The next power of two stays within any power of two above the input.
pub proof fn lemma_next_pow2_bound(n: nat, k: nat)
    requires
        n <= two_pow(k),
    ensures
        next_pow2(n) <= two_pow(k),
    decreases k,
{
    lemma_two_pow_is_pow2(k);
    if n > 1 {
        assert(k > 0);
        assert(two_pow(k) == 2 * two_pow((k - 1) as nat));
        lemma_next_pow2_bound(((n + 1) / 2) as nat, (k - 1) as nat);
    }
}

/// The smallest power of two at or above a word.
pub fn next_power_of_two(n: usize) -> (r: usize)
    requires
        next_pow2(n as nat) <= usize::MAX,
    ensures
        r == next_pow2(n as nat),
        is_pow2(r as nat),
        n <= r,
        r >= 1,
    decreases n,
{
    proof {
        lemma_next_pow2(n as nat);
    }
    if n <= 1 {
        1
    } else {
        let half = n / 2 + n % 2;
        let r = next_power_of_two(half);
        2 * r
    }
}

/// The power of two agrees with the standard library one.
pub proof fn lemma_two_pow_pow2(k: nat)
    ensures
        two_pow(k) == vstd::arithmetic::power2::pow2(k),
    decreases k,
{
    if k == 0 {
        vstd::arithmetic::power2::lemma2_to64();
    } else {
        lemma_two_pow_pow2((k - 1) as nat);
        vstd::arithmetic::power2::lemma_pow2_unfold(k);
    }
}

/// Shifting one left by the logarithm of a word sized power of two gives it.
pub proof fn lemma_shift_is_pow(k: usize)
    requires
        two_pow(k as nat) <= usize::MAX,
        k < 64,
    ensures
        (1usize << k) as nat == two_pow(k as nat),
        k < usize::BITS,
{
    lemma_two_pow_pow2(k as nat);
    lemma_two_pow_is_pow2(k as nat);
    lemma_log2_bound(two_pow(k as nat));
    assert(k < usize::BITS) by {
        if k >= 32 {
            lemma_two_pow_monotone(32, k as nat);
            assert(two_pow(32) == 0x1_0000_0000) by { reveal_with_fuel(two_pow, 33); }
        }
    }
    vstd::bits::lemma_usize_shl_is_mul(1, k);
}


/// The padded row count of a batch: the next power of two, at least two.
pub open spec fn padded_len(count: nat) -> nat {
    if next_pow2(count) < 2 { 2 } else { next_pow2(count) }
}

/// The padded row count of a batch of the given size.
pub fn padded_length(count: usize) -> (r: usize)
    requires
        next_pow2(count as nat) <= usize::MAX,
    ensures
        r == padded_len(count as nat),
        is_pow2(r as nat),
        r >= 2,
        r >= count,
{
    proof {
        lemma_next_pow2(count as nat);
        reveal_with_fuel(is_pow2, 2);
    }
    let n = next_power_of_two(count);
    if n < 2 { 2 } else { n }
}

/// Powers of two multiply by adding exponents.
pub proof fn lemma_two_pow_add(a: nat, b: nat)
    ensures
        two_pow(a + b) == two_pow(a) * two_pow(b),
    decreases b,
{
    if b > 0 {
        lemma_two_pow_add(a, (b - 1) as nat);
        let x = two_pow(a);
        let y = two_pow((b - 1) as nat);
        assert(two_pow(a + b) == 2 * two_pow((a + b - 1) as nat));
        assert((a + b - 1) as nat == a + (b - 1) as nat);
        assert(two_pow(b) == 2 * y);
        assert(2 * (x * y) == x * (2 * y)) by (nonlinear_arith);
        assert(two_pow(a + (b - 1) as nat) == x * y);
        assert(two_pow(a + b) == 2 * (x * y));
        assert(two_pow(a + b) == x * two_pow(b));
    } else {
        assert(two_pow(0) == 1);
        assert(a + b == a);
    }
}

/// A power of two below another has the smaller exponent, and their quotient
/// is the power of the difference.
pub proof fn lemma_two_pow_quotient(a: nat, b: nat)
    requires
        two_pow(a) <= two_pow(b),
    ensures
        a <= b,
        two_pow(b) / two_pow(a) == two_pow((b - a) as nat),
{
    if a > b {
        lemma_two_pow_monotone(b + 1, a);
        lemma_two_pow_is_pow2(b);
        assert(two_pow(b + 1) == 2 * two_pow(b));
    }
    lemma_two_pow_add(a, (b - a) as nat);
    lemma_two_pow_is_pow2(a);
    vstd::arithmetic::div_mod::lemma_div_multiples_vanish(two_pow((b - a) as nat) as int, two_pow(a) as int);
    vstd::arithmetic::mul::lemma_mul_is_commutative(two_pow(a) as int, two_pow((b - a) as nat) as int);
}
/// Thirty two times a power of two is a power of two.
pub proof fn lemma_pow2_times_32(n: nat)
    requires
        is_pow2(n),
    ensures
        is_pow2(n * 32),
{
    lemma_pow2_double(n);
    lemma_pow2_double(n * 2);
    lemma_pow2_double(n * 4);
    lemma_pow2_double(n * 8);
    lemma_pow2_double(n * 16);
}

/// Twice a power of two is a power of two.
pub proof fn lemma_pow2_double(n: nat)
    requires
        is_pow2(n),
    ensures
        is_pow2(n * 2),
{
    assert((n * 2) % 2 == 0 && (n * 2) / 2 == n);
}

} // verus!
