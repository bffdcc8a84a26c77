//! The laws of field arithmetic, stated over the operators' specifications.

use super::{FieldElement, PRIME};
use vstd::arithmetic::div_mod::*;
use vstd::arithmetic::mul::*;
use vstd::arithmetic::power::*;
use vstd::prelude::*;
use vstd::std_specs::ops::{AddSpec, MulSpec, NegSpec, SubSpec};

verus! {

impl FieldElement {
    /// Adding the elements that two integers stand for gives the element
    /// that their sum stands for.
    pub proof fn lemma_of_add(m: int, n: int)
        ensures
            FieldElement::of(m).add_spec(FieldElement::of(n)) == FieldElement::of(m + n),
    {
        lemma_add_mod_noop(m, n, PRIME as int);
    }

    /// Subtracting the elements that two integers stand for gives the
    /// element that their difference stands for.
    pub proof fn lemma_of_sub(m: int, n: int)
        ensures
            FieldElement::of(m).sub_spec(FieldElement::of(n)) == FieldElement::of(m - n),
    {
        lemma_sub_mod_noop(m, n, PRIME as int);
    }

    /// Negating the element that an integer stands for gives the element
    /// that its negation stands for.
    pub proof fn lemma_of_neg(m: int)
        ensures
            FieldElement::of(m).neg_spec() == FieldElement::of(-m),
    {
        lemma_sub_mod_noop_right(0, m, PRIME as int);
    }

    /// Multiplying the elements that two integers stand for gives the
    /// element that their product stands for.
    pub proof fn lemma_of_mul(m: int, n: int)
        ensures
            FieldElement::of(m).mul_spec(FieldElement::of(n)) == FieldElement::of(m * n),
    {
        lemma_mul_mod_noop(m, n, PRIME as int);
    }

    /// Raising the element that an integer stands for to a power gives the
    /// element that the integer's power stands for.
    pub proof fn lemma_of_power(m: int, e: nat)
        ensures
            FieldElement::of(m).power(e) == FieldElement::of(pow(m, e)),
    {
        lemma_pow_mod_noop(m, e, PRIME as int);
    }

    /// Powers of one element multiply by adding their exponents.
    pub proof fn lemma_power_adds(self, m: nat, n: nat)
        ensures
            self.power(m).mul_spec(self.power(n)) == self.power(m + n),
    {
        FieldElement::lemma_of_mul(pow(self@, m), pow(self@, n));
        lemma_pow_adds(self@, m, n);
    }

    /// A power of a power is the power by the product of the exponents.
    pub proof fn lemma_power_multiplies(self, m: nat, n: nat)
        ensures
            self.power(m).power(n) == self.power(m * n),
    {
        FieldElement::lemma_of_power(pow(self@, m), n);
        lemma_pow_multiplies(self@, m, n);
    }

    /// The first power of an element is the element.
    pub proof fn lemma_power_one(self)
        requires
            self.wf(),
        ensures
            self.power(1) == self,
    {
        lemma_pow1(self@);
    }

    /// What raising to a power gives for the exponents zero and one and for
    /// the base zero.
    pub proof fn lemma_exp_special(self, exponent: FieldElement)
        requires
            self.wf(),
            exponent.wf(),
        ensures
            exponent == FieldElement::zero() ==> self.exp_spec(exponent) == FieldElement::one(),
            self == FieldElement::zero() && exponent != FieldElement::zero() ==> self.exp_spec(
                exponent,
            ) == FieldElement::zero(),
            exponent == FieldElement::one() ==> self.exp_spec(exponent) == self,
    {
        lemma_pow0(self@);
        lemma_pow1(self@);
        if exponent@ > 0 {
            lemma0_pow(exponent@ as nat);
        }
    }

    /// A power raised to a further power and multiplied by a third power is
    /// the power by the first two exponents' product plus the third.
    pub proof fn lemma_power_chain(self, m: nat, k: nat, n: nat)
        ensures
            self.power(m).power(k).mul_spec(self.power(n)) == self.power(m * k + n),
    {
        self.lemma_power_multiplies(m, k);
        self.lemma_power_adds(m * k, n);
    }

    /// The square of an element is its second power.
    pub proof fn lemma_square_is_power(self)
        ensures
            self.mul_spec(self) == self.power(2),
    {
        lemma_square_is_pow2(self@);
    }

    /// The cube of an element is its third power.
    pub proof fn lemma_cube_is_power(self)
        ensures
            self.mul_spec(self).mul_spec(self) == self.power(3),
    {
        let a = self@;
        lemma_mul_mod_noop_left(a * a, a, PRIME as int);
        lemma_square_is_pow2(a);
        lemma_pow1(a);
        lemma_pow_adds(a, 2, 1);
    }
}

/// Addition is commutative.
pub proof fn lemma_add_commutative(a: FieldElement, b: FieldElement)
    ensures
        a.add_spec(b) == b.add_spec(a),
{
}

/// Addition is associative.
pub proof fn lemma_add_associative(a: FieldElement, b: FieldElement, c: FieldElement)
    ensures
        a.add_spec(b).add_spec(c) == a.add_spec(b.add_spec(c)),
{
    let p = PRIME as int;
    FieldElement::lemma_of_congruent((a@ + b@) % p + c@, a@ + (b@ + c@) % p);
    lemma_add_mod_noop_right(c@, a@ + b@, p);
    lemma_add_mod_noop_right(a@, b@ + c@, p);
}

/// Zero is the identity of addition.
pub proof fn lemma_add_zero(a: FieldElement)
    requires
        a.wf(),
    ensures
        a.add_spec(FieldElement::zero()) == a,
{
    FieldElement::lemma_of_view(0);
    a.lemma_of_canonical();
}

/// An element and its negation add to zero.
pub proof fn lemma_add_negation(a: FieldElement)
    ensures
        a.add_spec(a.neg_spec()) == FieldElement::zero(),
{
    let p = PRIME as int;
    FieldElement::lemma_of_congruent(a@ + (-a@) % p, 0);
    lemma_add_mod_noop_right(a@, -a@, p);
}

/// Subtracting is adding the negation.
pub proof fn lemma_sub_is_add_negation(a: FieldElement, b: FieldElement)
    ensures
        a.sub_spec(b) == a.add_spec(b.neg_spec()),
{
    let p = PRIME as int;
    FieldElement::lemma_of_congruent(a@ - b@, a@ + (-b@) % p);
    lemma_add_mod_noop_right(a@, -b@, p);
}

/// Multiplication is commutative.
pub proof fn lemma_mul_commutative(a: FieldElement, b: FieldElement)
    ensures
        a.mul_spec(b) == b.mul_spec(a),
{
    lemma_mul_is_commutative(a@, b@);
}

/// Multiplication is associative.
pub proof fn lemma_mul_associative(a: FieldElement, b: FieldElement, c: FieldElement)
    ensures
        a.mul_spec(b).mul_spec(c) == a.mul_spec(b.mul_spec(c)),
{
    let p = PRIME as int;
    FieldElement::lemma_of_congruent(((a@ * b@) % p) * c@, a@ * ((b@ * c@) % p));
    lemma_mul_mod_noop_left(a@ * b@, c@, p);
    lemma_mul_mod_noop_right(a@, b@ * c@, p);
    lemma_mul_is_associative(a@, b@, c@);
}

/// One is the identity of multiplication.
pub proof fn lemma_mul_one(a: FieldElement)
    requires
        a.wf(),
    ensures
        a.mul_spec(FieldElement::one()) == a,
{
    FieldElement::lemma_of_view(1);
    let one = FieldElement::one()@;
    assert(a@ * one == a@) by (nonlinear_arith)
        requires
            one == 1,
    ;
    a.lemma_of_canonical();
}

/// The product with zero is zero.
pub proof fn lemma_mul_zero(a: FieldElement)
    ensures
        a.mul_spec(FieldElement::zero()) == FieldElement::zero(),
{
    FieldElement::lemma_of_view(0);
    let zero = FieldElement::zero()@;
    assert(a@ * zero == 0) by (nonlinear_arith)
        requires
            zero == 0,
    ;
}

/// Multiplication distributes over addition.
pub proof fn lemma_mul_distributive(a: FieldElement, b: FieldElement, c: FieldElement)
    ensures
        a.mul_spec(b.add_spec(c)) == a.mul_spec(b).add_spec(a.mul_spec(c)),
{
    let p = PRIME as int;
    FieldElement::lemma_of_congruent(a@ * ((b@ + c@) % p), (a@ * b@) % p + (a@ * c@) % p);
    lemma_mul_mod_noop_right(a@, b@ + c@, p);
    lemma_add_mod_noop(a@ * b@, a@ * c@, p);
    lemma_mul_is_distributive_add(a@, b@, c@);
}

} // verus!
