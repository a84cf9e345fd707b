//! The cubic extension of the base field by the root of x cubed minus two.
use vstd::prelude::*;
use crate::field::{Felt, MODULUS, p, fadd, fsub, fmul, finv};

verus! {

broadcast use Felt::lemma_val_injective;

/// The constant c of the reduction polynomial x cubed minus c.
pub const NON_RESIDUE: u64 = 2;

/// The product of two extension elements given by their coefficient values.
pub open spec fn ext_mul(a: (nat, nat, nat), b: (nat, nat, nat)) -> (nat, nat, nat) {
    let c = NON_RESIDUE as nat;
    let t0 = fmul(a.0, b.0);
    let t1 = fadd(fmul(a.0, b.1), fmul(a.1, b.0));
    let t2 = fadd(fadd(fmul(a.0, b.2), fmul(a.1, b.1)), fmul(a.2, b.0));
    let t3 = fadd(fmul(a.1, b.2), fmul(a.2, b.1));
    let t4 = fmul(a.2, b.2);
    (fadd(t0, fmul(c, t3)), fadd(t1, fmul(c, t4)), t2)
}

/// The sum of two extension elements.
pub open spec fn ext_add(a: (nat, nat, nat), b: (nat, nat, nat)) -> (nat, nat, nat) {
    (fadd(a.0, b.0), fadd(a.1, b.1), fadd(a.2, b.2))
}

/// The difference of two extension elements.
pub open spec fn ext_sub(a: (nat, nat, nat), b: (nat, nat, nat)) -> (nat, nat, nat) {
    (fsub(a.0, b.0), fsub(a.1, b.1), fsub(a.2, b.2))
}

/// An extension element scaled by a base element.
pub open spec fn ext_scale(a: (nat, nat, nat), s: nat) -> (nat, nat, nat) {
    (fmul(a.0, s), fmul(a.1, s), fmul(a.2, s))
}

/// The norm of an extension element, a cubic form in its coefficients.
pub open spec fn ext_norm(a: (nat, nat, nat)) -> nat {
    let c = NON_RESIDUE as nat;
    let a0_cubed = fmul(fmul(a.0, a.0), a.0);
    let a1_cubed = fmul(fmul(a.1, a.1), a.1);
    let a2_cubed = fmul(fmul(a.2, a.2), a.2);
    let cross = fmul(fmul(a.0, a.1), a.2);
    let three_c = fmul(c, 3);
    fsub(fadd(fadd(a0_cubed, fmul(c, a1_cubed)), fmul(fmul(c, c), a2_cubed)), fmul(three_c, cross))
}

/// The adjugate, whose product with the element is its norm.
pub open spec fn ext_adjugate(a: (nat, nat, nat)) -> (nat, nat, nat) {
    let c = NON_RESIDUE as nat;
    (
        fsub(fmul(a.0, a.0), fmul(fmul(c, a.1), a.2)),
        fsub(fmul(fmul(c, a.2), a.2), fmul(a.0, a.1)),
        fsub(fmul(a.1, a.1), fmul(a.0, a.2)),
    )
}

/// Square and multiply from an accumulator: the accumulator times the base to
/// each set bit of the exponent, least significant bit first.
pub open spec fn ext_pow_from(acc: (nat, nat, nat), base: (nat, nat, nat), e: nat) -> (nat, nat, nat)
    decreases e,
{
    if e == 0 {
        acc
    } else {
        let next_acc = if e % 2 == 1 { ext_mul(acc, base) } else { acc };
        ext_pow_from(next_acc, ext_mul(base, base), e / 2)
    }
}

/// The power of an extension element by square and multiply from one.
pub open spec fn ext_pow(a: (nat, nat, nat), e: nat) -> (nat, nat, nat) {
    ext_pow_from((1, 0, 0), a, e)
}

/// An element of the cubic extension field.
#[derive(Copy, Clone, Debug, PartialEq, Eq, Structural)]
pub struct Fp3 {
    a0: Felt,
    a1: Felt,
    a2: Felt,
}

impl Fp3 {
    /// The coefficient values, constant term first.
    pub closed spec fn val(self) -> (nat, nat, nat) {
        (self.a0.val(), self.a1.val(), self.a2.val())
    }

    /// The coefficients as field elements.
    pub closed spec fn limbs(self) -> (Felt, Felt, Felt) {
        (self.a0, self.a1, self.a2)
    }

    /// The value is read off the coefficients.
    pub broadcast proof fn lemma_val_limbs(a: Fp3)
        ensures
            #[trigger] a.val() == (a.limbs().0.val(), a.limbs().1.val(), a.limbs().2.val()),
    {
    }

    /// The element with the given coefficients.
    pub closed spec fn from_limbs_spec(a0: Felt, a1: Felt, a2: Felt) -> Fp3 {
        Fp3 { a0, a1, a2 }
    }

    /// An element built from coefficients reads them back.
    pub broadcast proof fn lemma_from_limbs(a0: Felt, a1: Felt, a2: Felt)
        ensures
            #[trigger] Fp3::from_limbs_spec(a0, a1, a2).limbs() == (a0, a1, a2),
            Fp3::from_limbs_spec(a0, a1, a2).val() == (a0.val(), a1.val(), a2.val()),
    {
    }

    /// Two elements are equal exactly when their coefficient values are.
    pub broadcast proof fn lemma_val_injective(a: Fp3, b: Fp3)
        ensures
            #[trigger] a.val() == #[trigger] b.val() <==> a == b,
    {
        if a.val() == b.val() {
            assert(a.a0 == b.a0);
            assert(a.a1 == b.a1);
            assert(a.a2 == b.a2);
        }
    }

    /// The additive identity.
    pub fn zero() -> (r: Fp3)
        ensures
            r.val() == (0nat, 0nat, 0nat),
    {
        Fp3 { a0: Felt::zero(), a1: Felt::zero(), a2: Felt::zero() }
    }

    /// The multiplicative identity.
    pub fn one() -> (r: Fp3)
        ensures
            r.val() == (1nat, 0nat, 0nat),
    {
        Fp3 { a0: Felt::one(), a1: Felt::zero(), a2: Felt::zero() }
    }

    pub fn new(a0: Felt, a1: Felt, a2: Felt) -> (r: Fp3)
        ensures
            r.limbs() == (a0, a1, a2),
            r.val() == (a0.val(), a1.val(), a2.val()),
    {
        Fp3 { a0, a1, a2 }
    }

    /// Embeds a base element as a constant.
    pub fn from_base(value: Felt) -> (r: Fp3)
        ensures
            r.val() == (value.val(), 0nat, 0nat),
            r.limbs().0 == value,
    {
        Fp3 { a0: value, a1: Felt::zero(), a2: Felt::zero() }
    }

    pub fn coefficients(self) -> (r: [Felt; 3])
        ensures
            r@ == seq![self.limbs().0, self.limbs().1, self.limbs().2],
    {
        [self.a0, self.a1, self.a2]
    }

    pub fn to_u64s(self) -> (r: [u64; 3])
        ensures
            r@ == seq![self.val().0 as u64, self.val().1 as u64, self.val().2 as u64],
            r[0] < MODULUS && r[1] < MODULUS && r[2] < MODULUS,
            r[0] == self.val().0 && r[1] == self.val().1 && r[2] == self.val().2,
    {
        [self.a0.to_u64(), self.a1.to_u64(), self.a2.to_u64()]
    }

    pub fn from_u64s(raw: [u64; 3]) -> (r: Fp3)
        ensures
            r.val() == (raw[0] as nat % p(), raw[1] as nat % p(), raw[2] as nat % p()),
    {
        Fp3 { a0: Felt::new(raw[0]), a1: Felt::new(raw[1]), a2: Felt::new(raw[2]) }
    }

    pub fn add(self, other: Fp3) -> (r: Fp3)
        ensures
            r.val() == ext_add(self.val(), other.val()),
    {
        Fp3 { a0: self.a0.add(other.a0), a1: self.a1.add(other.a1), a2: self.a2.add(other.a2) }
    }

    pub fn sub(self, other: Fp3) -> (r: Fp3)
        ensures
            r.val() == ext_sub(self.val(), other.val()),
    {
        Fp3 { a0: self.a0.sub(other.a0), a1: self.a1.sub(other.a1), a2: self.a2.sub(other.a2) }
    }

    pub fn mul(self, other: Fp3) -> (r: Fp3)
        ensures
            r.val() == ext_mul(self.val(), other.val()),
    {
        let c = Felt::new(NON_RESIDUE);
        proof {
            vstd::arithmetic::div_mod::lemma_small_mod(2, p());
        }
        let (a0, a1, a2) = (self.a0, self.a1, self.a2);
        let (b0, b1, b2) = (other.a0, other.a1, other.a2);
        let t0 = a0.mul(b0);
        let t1 = a0.mul(b1).add(a1.mul(b0));
        let t2 = a0.mul(b2).add(a1.mul(b1)).add(a2.mul(b0));
        let t3 = a1.mul(b2).add(a2.mul(b1));
        let t4 = a2.mul(b2);
        let r0 = t0.add(c.mul(t3));
        let r1 = t1.add(c.mul(t4));
        let r2 = t2;
        Fp3 { a0: r0, a1: r1, a2: r2 }
    }

    pub fn scale(self, scalar: Felt) -> (r: Fp3)
        ensures
            r.val() == ext_scale(self.val(), scalar.val()),
    {
        Fp3 { a0: self.a0.mul(scalar), a1: self.a1.mul(scalar), a2: self.a2.mul(scalar) }
    }

    pub fn add_base(self, scalar: Felt) -> (r: Fp3)
        ensures
            r.val() == (fadd(self.val().0, scalar.val()), self.val().1, self.val().2),
    {
        Fp3 { a0: self.a0.add(scalar), a1: self.a1, a2: self.a2 }
    }

    pub fn sub_base(self, scalar: Felt) -> (r: Fp3)
        ensures
            r.val() == (fsub(self.val().0, scalar.val()), self.val().1, self.val().2),
    {
        Fp3 { a0: self.a0.sub(scalar), a1: self.a1, a2: self.a2 }
    }

    pub fn neg(self) -> (r: Fp3)
        ensures
            r.val() == ext_sub((0nat, 0nat, 0nat), self.val()),
    {
        Fp3::zero().sub(self)
    }

    fn norm(self) -> (r: Felt)
        ensures
            r.val() == ext_norm(self.val()),
    {
        let c = Felt::new(NON_RESIDUE);
        let three = Felt::new(3);
        proof {
            vstd::arithmetic::div_mod::lemma_small_mod(2, p());
            vstd::arithmetic::div_mod::lemma_small_mod(3, p());
        }
        let (a0, a1, a2) = (self.a0, self.a1, self.a2);
        let a0_cubed = a0.mul(a0).mul(a0);
        let a1_cubed = a1.mul(a1).mul(a1);
        let a2_cubed = a2.mul(a2).mul(a2);
        let cross = a0.mul(a1).mul(a2);
        let three_c = c.mul(three);
        a0_cubed.add(c.mul(a1_cubed)).add(c.mul(c).mul(a2_cubed)).sub(three_c.mul(cross))
    }

    fn adjugate(self) -> (r: Fp3)
        ensures
            r.val() == ext_adjugate(self.val()),
    {
        let c = Felt::new(NON_RESIDUE);
        proof {
            vstd::arithmetic::div_mod::lemma_small_mod(2, p());
        }
        let (a0, a1, a2) = (self.a0, self.a1, self.a2);
        let b0 = a0.mul(a0).sub(c.mul(a1).mul(a2));
        let b1 = c.mul(a2).mul(a2).sub(a0.mul(a1));
        let b2 = a1.mul(a1).sub(a0.mul(a2));
        Fp3 { a0: b0, a1: b1, a2: b2 }
    }

    /// The inverse, the adjugate scaled by the inverse of the norm.
    pub fn inv(self) -> (r: Fp3)
        ensures
            r.val() == ext_scale(ext_adjugate(self.val()), finv(ext_norm(self.val()))),
    {
        let norm_inv = self.norm().inv();
        self.adjugate().scale(norm_inv)
    }

    pub fn pow(self, exponent: u64) -> (r: Fp3)
        ensures
            r.val() == ext_pow(self.val(), exponent as nat),
    {
        let mut e = exponent;
        let mut base = self;
        let mut acc = Fp3::one();
        while e > 0
            invariant
                ext_pow_from(acc.val(), base.val(), e as nat) == ext_pow(self.val(), exponent as nat),
            decreases e,
        {
            assert(e & 1 == 1 <==> e % 2 == 1) by (bit_vector);
            assert(e >> 1 == e / 2) by (bit_vector);
            if e & 1 == 1 {
                acc = acc.mul(base);
            }
            base = base.mul(base);
            e = e >> 1;
        }
        acc
    }

    pub fn is_base(self) -> (r: bool)
        ensures
            r == (self.val().1 == 0 && self.val().2 == 0),
    {
        self.a1.to_u64() == 0 && self.a2.to_u64() == 0
    }
}

/// The product of two extension elements is their product as polynomials
/// in x reduced by x cubed equal to two, each coefficient taken modulo the
/// field order.
pub proof fn law_ext_mul_polynomial(a: (nat, nat, nat), b: (nat, nat, nat))
    ensures
        ext_mul(a, b).0 == (a.0 * b.0 + 2 * (a.1 * b.2 + a.2 * b.1)) % p(),
        ext_mul(a, b).1 == (a.0 * b.1 + a.1 * b.0 + 2 * (a.2 * b.2)) % p(),
        ext_mul(a, b).2 == (a.0 * b.2 + a.1 * b.1 + a.2 * b.0) % p(),
{
    let m = p() as int;
    let (a0, a1, a2) = (a.0 as int, a.1 as int, a.2 as int);
    let (b0, b1, b2) = (b.0 as int, b.1 as int, b.2 as int);
    // t3 and t4 scaled by two
    let t3 = fadd(fmul(a.1, b.2), fmul(a.2, b.1));
    lemma_fadd_fmul(a1 * b2, a2 * b1);
    lemma_scale_two(t3 as int, a1 * b2 + a2 * b1);
    lemma_fadd_mod(a0 * b0, 2 * (a1 * b2 + a2 * b1), fmul(a.0, b.0) as int, fmul(2, t3) as int);
    let t4 = fmul(a.2, b.2);
    lemma_scale_two(t4 as int, a2 * b2);
    lemma_fadd_fmul(a0 * b1, a1 * b0);
    let t1 = fadd(fmul(a.0, b.1), fmul(a.1, b.0));
    lemma_fadd_mod(a0 * b1 + a1 * b0, 2 * (a2 * b2), t1 as int, fmul(2, t4) as int);
    lemma_fadd_fmul(a0 * b2, a1 * b1);
    let s = fadd(fmul(a.0, b.2), fmul(a.1, b.1));
    lemma_fadd_mod(a0 * b2 + a1 * b1, a2 * b0, s as int, fmul(a.2, b.0) as int);
    vstd::arithmetic::div_mod::lemma_mod_twice(a0 * b0, m);
    vstd::arithmetic::div_mod::lemma_mod_twice(a2 * b0, m);
}

proof fn lemma_fadd_fmul(x: int, y: int)
    requires
        x >= 0,
        y >= 0,
    ensures
        fadd((x % (p() as int)) as nat, (y % (p() as int)) as nat) == (x + y) % (p() as int),
{
    vstd::arithmetic::div_mod::lemma_add_mod_noop(x, y, p() as int);
}

proof fn lemma_scale_two(t: int, v: int)
    requires
        t == v % (p() as int),
        t >= 0,
    ensures
        fmul(2, t as nat) == (2 * v) % (p() as int),
{
    vstd::arithmetic::div_mod::lemma_mul_mod_noop_right(2, v, p() as int);
}

proof fn lemma_fadd_mod(x: int, y: int, tx: int, ty: int)
    requires
        tx == x % (p() as int),
        ty == y % (p() as int),
        tx >= 0,
        ty >= 0,
    ensures
        fadd(tx as nat, ty as nat) == (x + y) % (p() as int),
{
    vstd::arithmetic::div_mod::lemma_add_mod_noop(x, y, p() as int);
}

/// Multiplication in the extension commutes.
pub proof fn law_ext_mul_commutes(a: (nat, nat, nat), b: (nat, nat, nat))
    ensures
        ext_mul(a, b) == ext_mul(b, a),
{
    law_ext_mul_polynomial(a, b);
    law_ext_mul_polynomial(b, a);
    assert(a.0 * b.0 == b.0 * a.0) by (nonlinear_arith);
    assert(a.1 * b.2 + a.2 * b.1 == b.1 * a.2 + b.2 * a.1) by (nonlinear_arith);
    assert(a.0 * b.1 + a.1 * b.0 == b.0 * a.1 + b.1 * a.0) by (nonlinear_arith);
    assert(a.2 * b.2 == b.2 * a.2) by (nonlinear_arith);
    assert(a.0 * b.2 + a.1 * b.1 + a.2 * b.0 == b.0 * a.2 + b.1 * a.1 + b.2 * a.0) by (nonlinear_arith);
}

} // verus!
