//! Arithmetic over the Goldilocks prime field.
use vstd::prelude::*;
use vstd::arithmetic::div_mod::*;
use vstd::arithmetic::mul::*;

verus! {

/// The Goldilocks prime, two to the sixty four minus two to the thirty two plus one.
pub const MODULUS: u64 = 18446744069414584321;

/// The multiplicative generator whose powers give the roots of unity.
pub const GENERATOR: u64 = 7;

/// The largest power of two that divides the multiplicative group order.
pub const TWO_ADICITY: u32 = 32;

/// The modulus as a mathematical integer.
pub open spec fn p() -> nat {
    MODULUS as nat
}

/// Modular addition on canonical values.
pub open spec fn fadd(a: nat, b: nat) -> nat {
    (a + b) % p()
}

/// Modular subtraction on canonical values.
pub open spec fn fsub(a: nat, b: nat) -> nat {
    ((a as int - b as int) % (p() as int)) as nat
}

/// Modular multiplication on canonical values.
pub open spec fn fmul(a: nat, b: nat) -> nat {
    (a * b) % p()
}

/// Modular exponentiation by repeated multiplication.
pub open spec fn fpow(x: nat, e: nat) -> nat
    decreases e,
{
    if e == 0 {
        1
    } else {
        fmul(x, fpow(x, (e - 1) as nat))
    }
}

/// The candidate inverse, the power to the modulus minus two.
pub open spec fn finv(x: nat) -> nat {
    fpow(x, (p() - 2) as nat)
}

/// An element of the prime field, held as its canonical representative.
#[derive(Copy, Clone, Debug, PartialEq, Eq, Structural)]
pub struct Felt(pub(crate) u64);

impl Felt {
    #[verifier::type_invariant]
    spec fn canonical(self) -> bool {
        self.0 < MODULUS
    }

    /// The canonical value of the element.
    pub closed spec fn val(self) -> nat {
        self.0 as nat
    }

    /// The element with a given value, for values below the modulus.
    pub closed spec fn from_val(v: nat) -> Felt {
        Felt(v as u64)
    }

    /// An element built from a canonical value has that value.
    pub broadcast proof fn lemma_from_val(v: nat)
        requires
            v < p(),
        ensures
            #[trigger] Felt::from_val(v).val() == v,
    {
    }

    /// Two elements are equal exactly when their values are.
    pub broadcast proof fn lemma_val_injective(a: Felt, b: Felt)
        ensures
            #[trigger] a.val() == #[trigger] b.val() <==> a == b,
    {
    }

    /// The additive identity.
    pub fn zero() -> (r: Felt)
        ensures
            r.val() == 0,
    {
        Felt(0)
    }

    /// The multiplicative identity.
    pub fn one() -> (r: Felt)
        ensures
            r.val() == 1,
    {
        Felt(1)
    }

    /// Reduces a raw word into the field.
    pub fn new(value: u64) -> (r: Felt)
        ensures
            r.val() == value as nat % p(),
    {
        Felt(value % MODULUS)
    }

    /// The canonical representative as a word.
    pub fn to_u64(self) -> (r: u64)
        ensures
            r == self.val(),
            r < MODULUS,
    {
        proof {
            use_type_invariant(&self);
        }
        self.0
    }

    pub fn add(self, other: Felt) -> (r: Felt)
        ensures
            r.val() == fadd(self.val(), other.val()),
    {
        let sum = (self.0 as u128) + (other.0 as u128);
        Felt((sum % (MODULUS as u128)) as u64)
    }

    pub fn sub(self, other: Felt) -> (r: Felt)
        ensures
            r.val() == fsub(self.val(), other.val()),
    {
        proof {
            use_type_invariant(&self);
            use_type_invariant(&other);
        }
        if self.0 >= other.0 {
            let d = self.0 - other.0;
            proof {
                lemma_small_mod(d as nat, p());
            }
            Felt(d)
        } else {
            let d = self.0 + (MODULUS - other.0);
            proof {
                lemma_small_mod(d as nat, p());
                lemma_mod_add_multiples_vanish(self.0 as int - other.0 as int, p() as int);
            }
            Felt(d)
        }
    }

    pub fn mul(self, other: Felt) -> (r: Felt)
        ensures
            r.val() == fmul(self.val(), other.val()),
    {
        proof {
            use_type_invariant(&self);
            use_type_invariant(&other);
            let x = self.0 as int;
            let y = other.0 as int;
            assert(x * y <= 18446744073709551615 * 18446744073709551615) by (nonlinear_arith)
                requires 0 <= x <= 18446744073709551615, 0 <= y <= 18446744073709551615;
        }
        let product = (self.0 as u128) * (other.0 as u128);
        Felt((product % (MODULUS as u128)) as u64)
    }

    /// Raises the element to a word exponent by square and multiply.
    pub fn pow(self, exponent: u64) -> (r: Felt)
        ensures
            r.val() == fpow(self.val(), exponent as nat),
    {
        let mut e = exponent;
        let mut base = self;
        let mut acc = Felt::one();
        proof {
            use_type_invariant(&self);
            lemma_small_mod(1, p());
            lemma_fpow_bound(base.val(), e as nat);
        }
        while e > 0
            invariant
                fmul(acc.val(), fpow(base.val(), e as nat)) == fpow(self.val(), exponent as nat),
                acc.val() < p(),
                base.val() < p(),
            decreases e,
        {
            proof {
                lemma_fpow_halve(base.val(), e as nat);
                lemma_fmul_assoc(acc.val(), base.val(), fpow(fmul(base.val(), base.val()), (e / 2) as nat));
            }
            assert(e & 1 == 1 <==> e % 2 == 1) by (bit_vector);
            assert(e >> 1 == e / 2) by (bit_vector);
            if e & 1 == 1 {
                acc = acc.mul(base);
            }
            base = base.mul(base);
            e = e >> 1;
        }
        proof {
            lemma_small_mod(acc.val(), p());
            lemma_mul_basics(acc.val() as int);
        }
        acc
    }

    /// The inverse, the power to the modulus minus two; zero maps to zero.
    pub fn inv(self) -> (r: Felt)
        ensures
            r.val() == finv(self.val()),
    {
        self.pow(MODULUS - 2)
    }
}

/// The root of unity of order two to the given log, a power of the generator.
pub fn root_of_unity(log_n: u32) -> (r: Felt)
    requires
        log_n <= TWO_ADICITY,
    ensures
        r.val() == fpow(GENERATOR as nat, (((MODULUS - 1) as u64) >> log_n) as nat),
{
    let exponent = (MODULUS - 1) >> log_n;
    proof {
        lemma_small_mod(GENERATOR as nat, p());
    }
    Felt::new(GENERATOR).pow(exponent)
}

/// Addition is commutative, and zero is its identity on canonical values.
pub proof fn law_add_commutative_identity(a: nat, b: nat)
    requires
        a < p(),
    ensures
        fadd(a, b) == fadd(b, a),
        fadd(a, 0) == a,
{
    lemma_small_mod(a, p());
}

/// Addition is associative.
pub proof fn law_add_associative(a: nat, b: nat, c: nat)
    ensures
        fadd(fadd(a, b), c) == fadd(a, fadd(b, c)),
{
    lemma_add_mod_noop_right(c as int, (a + b) as int, p() as int);
    lemma_add_mod_noop_right(a as int, (b + c) as int, p() as int);
    assert(c + (a + b) == a + (b + c));
}

/// Subtraction undoes addition, and an element minus itself is zero.
pub proof fn law_sub_inverts_add(a: nat, b: nat)
    requires
        a < p(),
        b < p(),
    ensures
        fsub(fadd(a, b), b) == a,
        fsub(a, a) == 0,
{
    lemma_fundamental_div_mod((a + b) as int, p() as int);
    lemma_mod_bound((a + b) as int, p() as int);
    let q = (a + b) / p();
    assert(q == 0 || q == 1) by {
        lemma_div_pos_is_pos((a + b) as int, p() as int);
        lemma_div_is_ordered((a + b) as int, (2 * p()) as int, p() as int);
        lemma_div_by_multiple(2, p() as int);
    }
    if q == 0 {
        lemma_small_mod(a, p());
    } else {
        lemma_mul_basics(p() as int);
        lemma_mod_sub_multiples_vanish(a as int, p() as int);
        lemma_small_mod(a, p());
    }
}

/// Multiplication is commutative, one is its identity and zero annihilates.
pub proof fn law_mul_commutative_identity(a: nat, b: nat)
    requires
        a < p(),
    ensures
        fmul(a, b) == fmul(b, a),
        fmul(a, 1) == a,
        fmul(a, 0) == 0,
{
    lemma_mul_is_commutative(a as int, b as int);
    lemma_mul_basics(a as int);
    lemma_small_mod(a, p());
}

/// Multiplication is associative.
pub proof fn law_mul_associative(a: nat, b: nat, c: nat)
    ensures
        fmul(fmul(a, b), c) == fmul(a, fmul(b, c)),
{
    lemma_fmul_assoc(a, b, c);
}

/// Multiplication distributes over addition.
pub proof fn law_mul_distributes(a: nat, b: nat, c: nat)
    ensures
        fmul(a, fadd(b, c)) == fadd(fmul(a, b), fmul(a, c)),
{
    lemma_mul_mod_noop_right(a as int, (b + c) as int, p() as int);
    lemma_mul_is_distributive_add(a as int, b as int, c as int);
    lemma_add_mod_noop((a * b) as int, (a * c) as int, p() as int);
}

/// A power of a canonical value stays canonical.
pub proof fn lemma_fpow_bound(x: nat, e: nat)
    requires
        x < p(),
    ensures
        fpow(x, e) < p(),
    decreases e,
{
    if e == 0 {
    } else {
        lemma_mod_bound((x * fpow(x, (e - 1) as nat)) as int, p() as int);
    }
}

/// Modular multiplication is associative.
pub proof fn lemma_fmul_assoc(a: nat, b: nat, c: nat)
    ensures
        fmul(fmul(a, b), c) == fmul(a, fmul(b, c)),
{
    lemma_mul_mod_noop_left((a * b) as int, c as int, p() as int);
    lemma_mul_mod_noop_right(a as int, (b * c) as int, p() as int);
    lemma_mul_is_associative(a as int, b as int, c as int);
}

/// Modular multiplication is commutative.
pub proof fn lemma_fmul_comm(a: nat, b: nat)
    ensures
        fmul(a, b) == fmul(b, a),
{
    lemma_mul_is_commutative(a as int, b as int);
}

/// Powers add their exponents.
pub proof fn lemma_fpow_add(x: nat, a: nat, b: nat)
    ensures
        fpow(x, a + b) == fmul(fpow(x, a), fpow(x, b)),
    decreases a,
{
    if a == 0 {
        lemma_mul_basics(fpow(x, b) as int);
        lemma_fpow_mod(x, b);
    } else {
        lemma_fpow_add(x, (a - 1) as nat, b);
        assert((a + b - 1) as nat == ((a - 1) as nat + b) as nat);
        lemma_fmul_assoc(x, fpow(x, (a - 1) as nat), fpow(x, b));
    }
}

/// A power is already reduced.
pub proof fn lemma_fpow_mod(x: nat, e: nat)
    ensures
        fpow(x, e) % p() == fpow(x, e),
{
    if e == 0 {
        lemma_small_mod(1, p());
    } else {
        lemma_mod_twice((x * fpow(x, (e - 1) as nat)) as int, p() as int);
    }
}

/// Squaring the base halves the exponent.
pub proof fn lemma_fpow_square(x: nat, e: nat)
    ensures
        fpow(fmul(x, x), e) == fpow(x, 2 * e),
    decreases e,
{
    if e == 0 {
    } else {
        lemma_fpow_square(x, (e - 1) as nat);
        lemma_fpow_add(x, 2, (2 * (e - 1)) as nat);
        assert(2 * e == 2 + 2 * (e - 1));
        assert(fpow(x, 1) == fmul(x, 1)) by { reveal_with_fuel(fpow, 2); }
        lemma_mul_basics(x as int);
        assert(fpow(x, 2) == fmul(x, fmul(x, 1)));
        lemma_mul_mod_noop_right(x as int, x as int, p() as int);
        lemma_mul_mod_noop_right(x as int, (x % p()) as int, p() as int);
        lemma_mod_twice(x as int, p() as int);
        lemma_mul_mod_noop_left(x as int, x as int, p() as int);
        lemma_mul_mod_noop_general(x as int, x as int, p() as int);
        assert(fpow(x, 2) == fmul(x, x));
        lemma_fmul_mod_left(fmul(x, x), fpow(fmul(x, x), (e - 1) as nat));
    }
}

/// Reduction inside a modular product is harmless.
pub proof fn lemma_fmul_mod_left(a: nat, b: nat)
    ensures
        fmul(a % p(), b) == fmul(a, b),
{
    lemma_mul_mod_noop_left(a as int, b as int, p() as int);
}

/// One step of square and multiply.
pub proof fn lemma_fpow_halve(x: nat, e: nat)
    requires
        e > 0,
        x < p(),
    ensures
        e % 2 == 1 ==> fpow(x, e) == fmul(x, fpow(fmul(x, x), e / 2)),
        e % 2 == 0 ==> fpow(x, e) == fpow(fmul(x, x), e / 2),
{
    lemma_fpow_square(x, e / 2);
    if e % 2 == 1 {
        assert(e == 1 + 2 * (e / 2));
        lemma_fpow_add(x, 1, 2 * (e / 2));
        lemma_small_mod(x, p());
        lemma_mul_basics(x as int);
        assert(fpow(x, 1) == fmul(x, 1)) by { reveal_with_fuel(fpow, 2); }
        lemma_fpow_mod(x, 2 * (e / 2));
        lemma_fmul_mod_left(x, fpow(x, 2 * (e / 2)));
    } else {
        assert(e == 2 * (e / 2));
    }
}

/// The value of the root of unity of order two to the log.
pub open spec fn root_of_unity_val(log: u32) -> nat {
    fpow(GENERATOR as nat, (((MODULUS - 1) as u64) >> log) as nat)
}

/// The generator to the power two to the k less one.
pub open spec fn gen_odd(k: nat) -> nat {
    fpow(GENERATOR as nat, (crate::util::two_pow(k) - 1) as nat)
}

/// The generator to the odd part of the group order, squared j times.
pub open spec fn root_chain(j: nat) -> nat
    decreases j,
{
    if j == 0 {
        gen_odd(32)
    } else {
        fmul(root_chain((j - 1) as nat), root_chain((j - 1) as nat))
    }
}

proof fn lemma_gen_odd_step(k: nat)
    ensures
        gen_odd(k + 1) == fmul(fmul(gen_odd(k), gen_odd(k)), GENERATOR as nat),
{
    crate::util::lemma_two_pow_is_pow2(k);
    let e = (crate::util::two_pow(k) - 1) as nat;
    assert(crate::util::two_pow(k + 1) == 2 * crate::util::two_pow(k));
    assert((crate::util::two_pow(k + 1) - 1) as nat == (e + e) + 1);
    lemma_fpow_add(GENERATOR as nat, e + e, 1);
    lemma_fpow_add(GENERATOR as nat, e, e);
    assert(fpow(GENERATOR as nat, 1) == fmul(GENERATOR as nat, 1)) by {
        reveal_with_fuel(fpow, 2);
    }
    lemma_small_mod(GENERATOR as nat, p());
}

/// A power of a power multiplies the exponents.
pub proof fn lemma_fpow_mul(x: nat, a: nat, b: nat)
    ensures
        fpow(x, a * b) == fpow(fpow(x, a), b),
    decreases b,
{
    if b == 0 {
        assert(a * b == 0) by (nonlinear_arith)
            requires b == 0;
    } else {
        lemma_fpow_mul(x, a, (b - 1) as nat);
        assert(a * b == a * (b - 1) + a) by (nonlinear_arith)
            requires b >= 1;
        lemma_fpow_add(x, a * (b - 1) as nat, a);
        lemma_fmul_comm(fpow(x, a * (b - 1) as nat), fpow(x, a));
    }
}

proof fn lemma_chain_bound(j: nat)
    ensures
        root_chain(j) < p(),
    decreases j,
{
    if j == 0 {
        lemma_fpow_mod(GENERATOR as nat, (crate::util::two_pow(32) - 1) as nat);
        lemma_mod_bound(fpow(GENERATOR as nat, (crate::util::two_pow(32) - 1) as nat) as int, p() as int);
    } else {
        lemma_chain_bound((j - 1) as nat);
    }
}

proof fn lemma_chain_pow(j: nat, i: nat)
    ensures
        fpow(root_chain(j), crate::util::two_pow(i)) == root_chain(j + i),
    decreases i,
{
    if i == 0 {
        lemma_chain_bound(j);
        assert(fpow(root_chain(j), 1) == fmul(root_chain(j), 1)) by {
            reveal_with_fuel(fpow, 2);
        }
        lemma_small_mod(root_chain(j), p());
    } else {
        lemma_chain_pow(j, (i - 1) as nat);
        let h = crate::util::two_pow((i - 1) as nat);
        lemma_fpow_add(root_chain(j), h, h);
        assert(root_chain(j + i) == fmul(root_chain((j + i - 1) as nat), root_chain((j + i - 1) as nat)));
    }
}

proof fn lemma_gen_odd_values_0()
    requires
        gen_odd(0) == 1,
    ensures
        gen_odd(4) == 4747561509943,
{
    assert(gen_odd(1) == 7) by {
        lemma_gen_odd_step(0);
        assert(fmul(fmul(1, 1), GENERATOR as nat) == 7) by (nonlinear_arith);
    }
    assert(gen_odd(2) == 343) by {
        lemma_gen_odd_step(1);
        assert(fmul(fmul(7, 7), GENERATOR as nat) == 343) by (nonlinear_arith);
    }
    assert(gen_odd(3) == 823543) by {
        lemma_gen_odd_step(2);
        assert(fmul(fmul(343, 343), GENERATOR as nat) == 823543) by (nonlinear_arith);
    }
    assert(gen_odd(4) == 4747561509943) by {
        lemma_gen_odd_step(3);
        assert(fmul(fmul(823543, 823543), GENERATOR as nat) == 4747561509943) by (nonlinear_arith);
    }
}

proof fn lemma_gen_odd_values_4()
    requires
        gen_odd(4) == 4747561509943,
    ensures
        gen_odd(8) == 8125271997680889877,
{
    assert(gen_odd(5) == 11074261478625843323) by {
        lemma_gen_odd_step(4);
        assert(fmul(fmul(4747561509943, 4747561509943), GENERATOR as nat) == 11074261478625843323) by (nonlinear_arith);
    }
    assert(gen_odd(6) == 12148266161370408270) by {
        lemma_gen_odd_step(5);
        assert(fmul(fmul(11074261478625843323, 11074261478625843323), GENERATOR as nat) == 12148266161370408270) by (nonlinear_arith);
    }
    assert(gen_odd(7) == 7007601668316978083) by {
        lemma_gen_odd_step(6);
        assert(fmul(fmul(12148266161370408270, 12148266161370408270), GENERATOR as nat) == 7007601668316978083) by (nonlinear_arith);
    }
    assert(gen_odd(8) == 8125271997680889877) by {
        lemma_gen_odd_step(7);
        assert(fmul(fmul(7007601668316978083, 7007601668316978083), GENERATOR as nat) == 8125271997680889877) by (nonlinear_arith);
    }
}

proof fn lemma_gen_odd_values_8()
    requires
        gen_odd(8) == 8125271997680889877,
    ensures
        gen_odd(12) == 11981551684735969599,
{
    assert(gen_odd(9) == 2624486902016877951) by {
        lemma_gen_odd_step(8);
        assert(fmul(fmul(8125271997680889877, 8125271997680889877), GENERATOR as nat) == 2624486902016877951) by (nonlinear_arith);
    }
    assert(gen_odd(10) == 8253119735826302939) by {
        lemma_gen_odd_step(9);
        assert(fmul(fmul(2624486902016877951, 2624486902016877951), GENERATOR as nat) == 8253119735826302939) by (nonlinear_arith);
    }
    assert(gen_odd(11) == 3543566522599720475) by {
        lemma_gen_odd_step(10);
        assert(fmul(fmul(8253119735826302939, 8253119735826302939), GENERATOR as nat) == 3543566522599720475) by (nonlinear_arith);
    }
    assert(gen_odd(12) == 11981551684735969599) by {
        lemma_gen_odd_step(11);
        assert(fmul(fmul(3543566522599720475, 3543566522599720475), GENERATOR as nat) == 11981551684735969599) by (nonlinear_arith);
    }
}

proof fn lemma_gen_odd_values_12()
    requires
        gen_odd(12) == 11981551684735969599,
    ensures
        gen_odd(16) == 12134830135347446949,
{
    assert(gen_odd(13) == 10062120588441922115) by {
        lemma_gen_odd_step(12);
        assert(fmul(fmul(11981551684735969599, 11981551684735969599), GENERATOR as nat) == 10062120588441922115) by (nonlinear_arith);
    }
    assert(gen_odd(14) == 10485806445487905393) by {
        lemma_gen_odd_step(13);
        assert(fmul(fmul(10062120588441922115, 10062120588441922115), GENERATOR as nat) == 10485806445487905393) by (nonlinear_arith);
    }
    assert(gen_odd(15) == 4139485063330164956) by {
        lemma_gen_odd_step(14);
        assert(fmul(fmul(10485806445487905393, 10485806445487905393), GENERATOR as nat) == 4139485063330164956) by (nonlinear_arith);
    }
    assert(gen_odd(16) == 12134830135347446949) by {
        lemma_gen_odd_step(15);
        assert(fmul(fmul(4139485063330164956, 4139485063330164956), GENERATOR as nat) == 12134830135347446949) by (nonlinear_arith);
    }
}

proof fn lemma_gen_odd_values_16()
    requires
        gen_odd(16) == 12134830135347446949,
    ensures
        gen_odd(20) == 1855730417186139594,
{
    assert(gen_odd(17) == 4326791766630348883) by {
        lemma_gen_odd_step(16);
        assert(fmul(fmul(12134830135347446949, 12134830135347446949), GENERATOR as nat) == 4326791766630348883) by (nonlinear_arith);
    }
    assert(gen_odd(18) == 206761543466863628) by {
        lemma_gen_odd_step(17);
        assert(fmul(fmul(4326791766630348883, 4326791766630348883), GENERATOR as nat) == 206761543466863628) by (nonlinear_arith);
    }
    assert(gen_odd(19) == 10086585273483141421) by {
        lemma_gen_odd_step(18);
        assert(fmul(fmul(206761543466863628, 206761543466863628), GENERATOR as nat) == 10086585273483141421) by (nonlinear_arith);
    }
    assert(gen_odd(20) == 1855730417186139594) by {
        lemma_gen_odd_step(19);
        assert(fmul(fmul(10086585273483141421, 10086585273483141421), GENERATOR as nat) == 1855730417186139594) by (nonlinear_arith);
    }
}

proof fn lemma_gen_odd_values_20()
    requires
        gen_odd(20) == 1855730417186139594,
    ensures
        gen_odd(24) == 8935258787870022506,
{
    assert(gen_odd(21) == 7626447102712710903) by {
        lemma_gen_odd_step(20);
        assert(fmul(fmul(1855730417186139594, 1855730417186139594), GENERATOR as nat) == 7626447102712710903) by (nonlinear_arith);
    }
    assert(gen_odd(22) == 7790920094560990216) by {
        lemma_gen_odd_step(21);
        assert(fmul(fmul(7626447102712710903, 7626447102712710903), GENERATOR as nat) == 7790920094560990216) by (nonlinear_arith);
    }
    assert(gen_odd(23) == 5901922255895126089) by {
        lemma_gen_odd_step(22);
        assert(fmul(fmul(7790920094560990216, 7790920094560990216), GENERATOR as nat) == 5901922255895126089) by (nonlinear_arith);
    }
    assert(gen_odd(24) == 8935258787870022506) by {
        lemma_gen_odd_step(23);
        assert(fmul(fmul(5901922255895126089, 5901922255895126089), GENERATOR as nat) == 8935258787870022506) by (nonlinear_arith);
    }
}

proof fn lemma_gen_odd_values_24()
    requires
        gen_odd(24) == 8935258787870022506,
    ensures
        gen_odd(28) == 13064848991504552222,
{
    assert(gen_odd(25) == 13093775858033092690) by {
        lemma_gen_odd_step(24);
        assert(fmul(fmul(8935258787870022506, 8935258787870022506), GENERATOR as nat) == 13093775858033092690) by (nonlinear_arith);
    }
    assert(gen_odd(26) == 11243737384857129666) by {
        lemma_gen_odd_step(25);
        assert(fmul(fmul(13093775858033092690, 13093775858033092690), GENERATOR as nat) == 11243737384857129666) by (nonlinear_arith);
    }
    assert(gen_odd(27) == 2063617152444052883) by {
        lemma_gen_odd_step(26);
        assert(fmul(fmul(11243737384857129666, 11243737384857129666), GENERATOR as nat) == 2063617152444052883) by (nonlinear_arith);
    }
    assert(gen_odd(28) == 13064848991504552222) by {
        lemma_gen_odd_step(27);
        assert(fmul(fmul(2063617152444052883, 2063617152444052883), GENERATOR as nat) == 13064848991504552222) by (nonlinear_arith);
    }
}

proof fn lemma_gen_odd_values_28()
    requires
        gen_odd(28) == 13064848991504552222,
    ensures
        gen_odd(32) == 1753635133440165772,
{
    assert(gen_odd(29) == 16593403251012455084) by {
        lemma_gen_odd_step(28);
        assert(fmul(fmul(13064848991504552222, 13064848991504552222), GENERATOR as nat) == 16593403251012455084) by (nonlinear_arith);
    }
    assert(gen_odd(30) == 5859133952941131217) by {
        lemma_gen_odd_step(29);
        assert(fmul(fmul(16593403251012455084, 16593403251012455084), GENERATOR as nat) == 5859133952941131217) by (nonlinear_arith);
    }
    assert(gen_odd(31) == 15659105665374529263) by {
        lemma_gen_odd_step(30);
        assert(fmul(fmul(5859133952941131217, 5859133952941131217), GENERATOR as nat) == 15659105665374529263) by (nonlinear_arith);
    }
    assert(gen_odd(32) == 1753635133440165772) by {
        lemma_gen_odd_step(31);
        assert(fmul(fmul(15659105665374529263, 15659105665374529263), GENERATOR as nat) == 1753635133440165772) by (nonlinear_arith);
    }
}

proof fn lemma_chain_values_0()
    requires
        root_chain(0) == 1753635133440165772,
    ensures
        root_chain(4) == 6414415596519834757,
{
    assert(root_chain(1) == 4614640910117430873) by {
        assert(fmul(1753635133440165772, 1753635133440165772) == 4614640910117430873) by (nonlinear_arith);
    }
    assert(root_chain(2) == 9123114210336311365) by {
        assert(fmul(4614640910117430873, 4614640910117430873) == 9123114210336311365) by (nonlinear_arith);
    }
    assert(root_chain(3) == 16116352524544190054) by {
        assert(fmul(9123114210336311365, 9123114210336311365) == 16116352524544190054) by (nonlinear_arith);
    }
    assert(root_chain(4) == 6414415596519834757) by {
        assert(fmul(16116352524544190054, 16116352524544190054) == 6414415596519834757) by (nonlinear_arith);
    }
}

proof fn lemma_chain_values_4()
    requires
        root_chain(4) == 6414415596519834757,
    ensures
        root_chain(8) == 9713644485405565297,
{
    assert(root_chain(5) == 1213594585890690845) by {
        assert(fmul(6414415596519834757, 6414415596519834757) == 1213594585890690845) by (nonlinear_arith);
    }
    assert(root_chain(6) == 17096174751763063430) by {
        assert(fmul(1213594585890690845, 1213594585890690845) == 17096174751763063430) by (nonlinear_arith);
    }
    assert(root_chain(7) == 5456943929260765144) by {
        assert(fmul(17096174751763063430, 17096174751763063430) == 5456943929260765144) by (nonlinear_arith);
    }
    assert(root_chain(8) == 9713644485405565297) by {
        assert(fmul(5456943929260765144, 5456943929260765144) == 9713644485405565297) by (nonlinear_arith);
    }
}

proof fn lemma_chain_values_8()
    requires
        root_chain(8) == 9713644485405565297,
    ensures
        root_chain(12) == 3511170319078647661,
{
    assert(root_chain(9) == 16905767614792059275) by {
        assert(fmul(9713644485405565297, 9713644485405565297) == 16905767614792059275) by (nonlinear_arith);
    }
    assert(root_chain(10) == 5416168637041100469) by {
        assert(fmul(16905767614792059275, 16905767614792059275) == 5416168637041100469) by (nonlinear_arith);
    }
    assert(root_chain(11) == 17654865857378133588) by {
        assert(fmul(5416168637041100469, 5416168637041100469) == 17654865857378133588) by (nonlinear_arith);
    }
    assert(root_chain(12) == 3511170319078647661) by {
        assert(fmul(17654865857378133588, 17654865857378133588) == 3511170319078647661) by (nonlinear_arith);
    }
}

proof fn lemma_chain_values_12()
    requires
        root_chain(12) == 3511170319078647661,
    ensures
        root_chain(16) == 6115771955107415310,
{
    assert(root_chain(13) == 18146160046829613826) by {
        assert(fmul(3511170319078647661, 3511170319078647661) == 18146160046829613826) by (nonlinear_arith);
    }
    assert(root_chain(14) == 9306717745644682924) by {
        assert(fmul(18146160046829613826, 18146160046829613826) == 9306717745644682924) by (nonlinear_arith);
    }
    assert(root_chain(15) == 12380578893860276750) by {
        assert(fmul(9306717745644682924, 9306717745644682924) == 12380578893860276750) by (nonlinear_arith);
    }
    assert(root_chain(16) == 6115771955107415310) by {
        assert(fmul(12380578893860276750, 12380578893860276750) == 6115771955107415310) by (nonlinear_arith);
    }
}

proof fn lemma_chain_values_16()
    requires
        root_chain(16) == 6115771955107415310,
    ensures
        root_chain(20) == 17492915097719143606,
{
    assert(root_chain(17) == 17776499369601055404) by {
        assert(fmul(6115771955107415310, 6115771955107415310) == 17776499369601055404) by (nonlinear_arith);
    }
    assert(root_chain(18) == 16207902636198568418) by {
        assert(fmul(17776499369601055404, 17776499369601055404) == 16207902636198568418) by (nonlinear_arith);
    }
    assert(root_chain(19) == 1532612707718625687) by {
        assert(fmul(16207902636198568418, 16207902636198568418) == 1532612707718625687) by (nonlinear_arith);
    }
    assert(root_chain(20) == 17492915097719143606) by {
        assert(fmul(1532612707718625687, 1532612707718625687) == 17492915097719143606) by (nonlinear_arith);
    }
}

proof fn lemma_chain_values_20()
    requires
        root_chain(20) == 17492915097719143606,
    ensures
        root_chain(24) == 13797081185216407910,
{
    assert(root_chain(21) == 455906449640507599) by {
        assert(fmul(17492915097719143606, 17492915097719143606) == 455906449640507599) by (nonlinear_arith);
    }
    assert(root_chain(22) == 11353340290879379826) by {
        assert(fmul(455906449640507599, 455906449640507599) == 11353340290879379826) by (nonlinear_arith);
    }
    assert(root_chain(23) == 1803076106186727246) by {
        assert(fmul(11353340290879379826, 11353340290879379826) == 1803076106186727246) by (nonlinear_arith);
    }
    assert(root_chain(24) == 13797081185216407910) by {
        assert(fmul(1803076106186727246, 1803076106186727246) == 13797081185216407910) by (nonlinear_arith);
    }
}

proof fn lemma_chain_values_24()
    requires
        root_chain(24) == 13797081185216407910,
    ensures
        root_chain(28) == 17293822564807737345,
{
    assert(root_chain(25) == 17870292113338400769) by {
        assert(fmul(13797081185216407910, 13797081185216407910) == 17870292113338400769) by (nonlinear_arith);
    }
    assert(root_chain(26) == 549755813888) by {
        assert(fmul(17870292113338400769, 17870292113338400769) == 549755813888) by (nonlinear_arith);
    }
    assert(root_chain(27) == 70368744161280) by {
        assert(fmul(549755813888, 549755813888) == 70368744161280) by (nonlinear_arith);
    }
    assert(root_chain(28) == 17293822564807737345) by {
        assert(fmul(70368744161280, 70368744161280) == 17293822564807737345) by (nonlinear_arith);
    }
}

proof fn lemma_chain_values_28()
    requires
        root_chain(28) == 17293822564807737345,
    ensures
        root_chain(32) == 1,
{
    assert(root_chain(29) == 18446744069397807105) by {
        assert(fmul(17293822564807737345, 17293822564807737345) == 18446744069397807105) by (nonlinear_arith);
    }
    assert(root_chain(30) == 281474976710656) by {
        assert(fmul(18446744069397807105, 18446744069397807105) == 281474976710656) by (nonlinear_arith);
    }
    assert(root_chain(31) == 18446744069414584320) by {
        assert(fmul(281474976710656, 281474976710656) == 18446744069414584320) by (nonlinear_arith);
    }
    assert(root_chain(32) == 1) by {
        assert(fmul(18446744069414584320, 18446744069414584320) == 1) by (nonlinear_arith);
    }
}

proof fn lemma_chain_values()
    ensures
        root_chain(31) == p() - 1,
        root_chain(32) == 1,
{
    assert(gen_odd(0) == 1) by {
        assert(crate::util::two_pow(0) == 1);
    }
    lemma_gen_odd_values_0();
    lemma_gen_odd_values_4();
    lemma_gen_odd_values_8();
    lemma_gen_odd_values_12();
    lemma_gen_odd_values_16();
    lemma_gen_odd_values_20();
    lemma_gen_odd_values_24();
    lemma_gen_odd_values_28();
    assert(root_chain(0) == 1753635133440165772);
    lemma_chain_values_0();
    lemma_chain_values_4();
    lemma_chain_values_8();
    lemma_chain_values_12();
    lemma_chain_values_16();
    lemma_chain_values_20();
    lemma_chain_values_24();
    lemma_chain_values_28();
    assert(root_chain(31) == 18446744069414584320) by {
        lemma_chain_values_28();
        assert(root_chain(29) == 18446744069397807105) by { assert(fmul(17293822564807737345, 17293822564807737345) == 18446744069397807105); }
        assert(root_chain(30) == 281474976710656) by { assert(fmul(18446744069397807105, 18446744069397807105) == 281474976710656); }
        assert(fmul(281474976710656, 281474976710656) == 18446744069414584320) by (nonlinear_arith);
    }
}

/// The root of unity for a log size from one up to the two adicity has
/// order exactly two to the log: raised to two to the log it gives one, and
/// raised to half that it gives minus one.
#[verifier::rlimit(40)]
pub proof fn law_root_of_unity_order(log: u32)
    requires
        1 <= log <= TWO_ADICITY,
    ensures
        fpow(root_of_unity_val(log), crate::util::two_pow(log as nat)) == 1,
        fpow(root_of_unity_val(log), crate::util::two_pow((log - 1) as nat)) == p() - 1,
{
    let x: u64 = (MODULUS - 1) as u64;
    let sh: u64 = log as u64;
    vstd::bits::lemma_u64_shr_is_div(x, sh);
    assert(x >> log == x >> sh) by (bit_vector)
        requires sh == log as u64;
    let k = (32 - log) as nat;
    crate::util::lemma_two_pow_pow2(log as nat);
    crate::util::lemma_two_pow_pow2(32);
    crate::util::lemma_two_pow_pow2(k);
    assert(crate::util::two_pow(32) == 0x1_0000_0000) by {
        reveal_with_fuel(crate::util::two_pow, 33);
    }
    lemma_two_pow_split(log as nat, k);
    let q = (0x1_0000_0000 - 1) as nat;
    assert(x as nat == q * crate::util::two_pow(32));
    assert(x as nat == (q * crate::util::two_pow(k)) * crate::util::two_pow(log as nat)) by (nonlinear_arith)
        requires x as nat == q * crate::util::two_pow(32),
            crate::util::two_pow(32) == crate::util::two_pow(log as nat) * crate::util::two_pow(k);
    assert(x as nat / crate::util::two_pow(log as nat) == q * crate::util::two_pow(k)) by {
        lemma_div_multiples_vanish((q * crate::util::two_pow(k)) as int, crate::util::two_pow(log as nat) as int);
    }
    assert(root_of_unity_val(log) == fpow(GENERATOR as nat, q * crate::util::two_pow(k)));
    lemma_fpow_mul(GENERATOR as nat, q, crate::util::two_pow(k));
    assert(gen_odd(32) == fpow(GENERATOR as nat, q));
    lemma_chain_pow(0, k);
    lemma_chain_pow(k, log as nat);
    lemma_chain_pow(k, (log - 1) as nat);
    lemma_chain_values();
}

/// The exponent of the root of a log size: the odd part of the group order
/// times two to the thirty two less the log.
proof fn lemma_root_exponent(log: u32)
    requires
        log <= TWO_ADICITY,
    ensures
        root_of_unity_val(log) == fpow(GENERATOR as nat, 0xffff_ffff * crate::util::two_pow((32 - log) as nat)),
{
    let x: u64 = (MODULUS - 1) as u64;
    let sh: u64 = log as u64;
    vstd::bits::lemma_u64_shr_is_div(x, sh);
    assert(x >> log == x >> sh) by (bit_vector)
        requires sh == log as u64;
    let k = (32 - log) as nat;
    crate::util::lemma_two_pow_pow2(log as nat);
    crate::util::lemma_two_pow_pow2(32);
    crate::util::lemma_two_pow_pow2(k);
    assert(crate::util::two_pow(32) == 0x1_0000_0000) by {
        reveal_with_fuel(crate::util::two_pow, 33);
    }
    lemma_two_pow_split(log as nat, k);
    let q = 0xffff_ffffnat;
    assert(x as nat == (q * crate::util::two_pow(k)) * crate::util::two_pow(log as nat)) by (nonlinear_arith)
        requires x as nat == q * crate::util::two_pow(32),
            crate::util::two_pow(32) == crate::util::two_pow(log as nat) * crate::util::two_pow(k);
    lemma_div_multiples_vanish((q * crate::util::two_pow(k)) as int, crate::util::two_pow(log as nat) as int);
}

/// The root of each log size from one up to the two adicity squares to the
/// root one log size down, and the root of log size zero is one.
pub proof fn law_root_of_unity_squares(log: u32)
    requires
        1 <= log <= TWO_ADICITY,
    ensures
        fmul(root_of_unity_val(log), root_of_unity_val(log)) == root_of_unity_val((log - 1) as u32),
        root_of_unity_val(0) == 1,
{
    lemma_root_exponent(log);
    lemma_root_exponent((log - 1) as u32);
    let e = (0xffff_ffff * crate::util::two_pow((32 - log) as nat)) as nat;
    assert(crate::util::two_pow((32 - (log - 1)) as nat) == 2 * crate::util::two_pow((32 - log) as nat)) by {
        assert((32 - (log - 1)) as nat == ((32 - log) as nat + 1) as nat);
    }
    assert(e + e == 0xffff_ffff * crate::util::two_pow((32 - (log - 1)) as nat)) by (nonlinear_arith)
        requires e == 0xffff_ffff * crate::util::two_pow((32 - log) as nat),
            crate::util::two_pow((32 - (log - 1)) as nat) == 2 * crate::util::two_pow((32 - log) as nat);
    lemma_fpow_add(GENERATOR as nat, e, e);
    // log size zero: the root of log one squared, which is one
    law_root_of_unity_order(1);
    lemma_root_exponent(1);
    lemma_root_exponent(0);
    let e1 = (0xffff_ffff * crate::util::two_pow(31)) as nat;
    assert(crate::util::two_pow(32) == 2 * crate::util::two_pow(31));
    assert(e1 + e1 == 0xffff_ffff * crate::util::two_pow(32)) by (nonlinear_arith)
        requires e1 == 0xffff_ffff * crate::util::two_pow(31), crate::util::two_pow(32) == 2 * crate::util::two_pow(31);
    lemma_fpow_add(GENERATOR as nat, e1, e1);
    let r1 = root_of_unity_val(1);
    assert(crate::util::two_pow(1) == 2) by {
        reveal_with_fuel(crate::util::two_pow, 2);
    }
    assert(fpow(r1, 2) == fmul(r1, fmul(r1, 1))) by {
        reveal_with_fuel(fpow, 3);
    }
    lemma_fpow_bound(GENERATOR as nat, e1);
    lemma_small_mod(r1, p());
    lemma_mul_basics(r1 as int);
}

proof fn lemma_two_pow_split(a: nat, b: nat)
    requires
        a + b == 32,
    ensures
        crate::util::two_pow(32) == crate::util::two_pow(a) * crate::util::two_pow(b),
    decreases a,
{
    crate::util::lemma_two_pow_pow2(a);
    crate::util::lemma_two_pow_pow2(b);
    crate::util::lemma_two_pow_pow2(32);
    vstd::arithmetic::power2::lemma_pow2_adds(a, b);
}

} // verus!
