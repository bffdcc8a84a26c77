//! The field operators, and their compound assignment forms.

use super::inversion::lemma_division;
use super::{reduce, FieldElement, PRIME};
use vstd::arithmetic::div_mod::*;
use vstd::arithmetic::power::*;
use vstd::prelude::*;
use vstd::std_specs::ops::{AddSpec, DivSpec, MulSpec, NegSpec, SubSpec};

verus! {

impl vstd::std_specs::ops::AddSpecImpl for FieldElement {
    open spec fn obeys_add_spec() -> bool {
        true
    }

    open spec fn add_req(self, rhs: FieldElement) -> bool {
        true
    }

    /// The sum of two elements.
    open spec fn add_spec(self, rhs: FieldElement) -> FieldElement {
        FieldElement::of(self@ + rhs@)
    }
}

impl core::ops::Add for FieldElement {
    type Output = FieldElement;

    /// Adds in 64 bits; where the sum wraps, one subtraction of `PRIME`
    /// brings it back.
    fn add(self, rhs: FieldElement) -> (r: FieldElement)
        ensures
            r@ == (self@ + rhs@) % (PRIME as int),
    {
        proof {
            use_type_invariant(self);
            use_type_invariant(rhs);
        }
        let sum: u64 = self.value.wrapping_add(rhs.value);
        let wrapped: u64 = if sum < self.value {
            sum.wrapping_sub(PRIME)
        } else {
            sum
        };
        FieldElement::new(wrapped)
    }
}

impl vstd::std_specs::ops::SubSpecImpl for FieldElement {
    open spec fn obeys_sub_spec() -> bool {
        true
    }

    open spec fn sub_req(self, rhs: FieldElement) -> bool {
        true
    }

    /// The difference of two elements.
    open spec fn sub_spec(self, rhs: FieldElement) -> FieldElement {
        FieldElement::of(self@ - rhs@)
    }
}

impl core::ops::Sub for FieldElement {
    type Output = FieldElement;

    /// Subtracts in 64 bits; where the difference wraps, one addition of
    /// `PRIME` brings it back.
    fn sub(self, rhs: FieldElement) -> (r: FieldElement)
        ensures
            r@ == (self@ - rhs@) % (PRIME as int),
    {
        proof {
            use_type_invariant(self);
            use_type_invariant(rhs);
        }
        let diff: u64 = self.value.wrapping_sub(rhs.value);
        let wrapped: u64 = if self.value < rhs.value {
            diff.wrapping_add(PRIME)
        } else {
            diff
        };
        FieldElement::new(wrapped)
    }
}

impl vstd::std_specs::ops::NegSpecImpl for FieldElement {
    open spec fn obeys_neg_spec() -> bool {
        true
    }

    open spec fn neg_req(self) -> bool {
        true
    }

    /// The additive inverse of an element.
    open spec fn neg_spec(self) -> FieldElement {
        FieldElement::of(-self@)
    }
}

impl core::ops::Neg for FieldElement {
    type Output = FieldElement;

    /// Zero is its own negation; any other `v` becomes `PRIME - v`.
    fn neg(self) -> (r: FieldElement)
        ensures
            r@ == (-self@) % (PRIME as int),
            r@ == if self@ == 0 { 0 } else { PRIME - self@ },
    {
        proof {
            use_type_invariant(self);
        }
        let value: u64 = self.value;
        if value == 0 {
            FieldElement { value }
        } else {
            proof {
                lemma_mod_multiples_vanish(1, -(value as int), PRIME as int);
            }
            FieldElement { value: PRIME - value }
        }
    }
}

impl vstd::std_specs::ops::MulSpecImpl for FieldElement {
    open spec fn obeys_mul_spec() -> bool {
        true
    }

    open spec fn mul_req(self, rhs: FieldElement) -> bool {
        true
    }

    /// The product of two elements.
    open spec fn mul_spec(self, rhs: FieldElement) -> FieldElement {
        FieldElement::of(self@ * rhs@)
    }
}

impl core::ops::Mul for FieldElement {
    type Output = FieldElement;

    /// Multiplies in 128 bits and reduces the product.
    fn mul(self, rhs: FieldElement) -> (r: FieldElement)
        ensures
            r@ == (self@ * rhs@) % (PRIME as int),
    {
        proof {
            use_type_invariant(self);
            use_type_invariant(rhs);
            assert(self.value * rhs.value <= u128::MAX) by (nonlinear_arith)
                requires
                    self.value <= u64::MAX,
                    rhs.value <= u64::MAX,
            ;
        }
        let reduced: u64 = reduce((self.value as u128) * (rhs.value as u128));
        proof {
            lemma_mod_twice(reduced as int, PRIME as int);
        }
        FieldElement::new(reduced)
    }
}

impl vstd::std_specs::ops::DivSpecImpl for FieldElement {
    open spec fn obeys_div_spec() -> bool {
        true
    }

    /// The divisor is not zero.
    open spec fn div_req(self, rhs: FieldElement) -> bool {
        rhs != FieldElement::zero()
    }

    /// The product of the dividend with the divisor's inverse.
    open spec fn div_spec(self, rhs: FieldElement) -> FieldElement {
        self.mul_spec(rhs.inv_spec())
    }
}

impl core::ops::Div for FieldElement {
    type Output = FieldElement;

    /// Multiplies by the inverse of the divisor. To divide by zero is to
    /// break the contract; no error is returned for it.
    fn div(self, rhs: FieldElement) -> (r: FieldElement)
        ensures
            r@ == (self@ * (pow(rhs@, (PRIME - 2) as nat) % (PRIME as int))) % (PRIME as int),
            r.mul_spec(rhs) == self,
    {
        proof {
            use_type_invariant(self);
            use_type_invariant(rhs);
            lemma_division(self, rhs);
        }
        self * rhs.inv()
    }
}

impl core::ops::AddAssign for FieldElement {
    /// Replaces the element by its sum with `rhs`.
    fn add_assign(&mut self, rhs: FieldElement)
        ensures
            *final(self) == old(self).add_spec(rhs),
    {
        *self = *self + rhs;
    }
}

impl core::ops::SubAssign for FieldElement {
    /// Replaces the element by its difference with `rhs`.
    fn sub_assign(&mut self, rhs: FieldElement)
        ensures
            *final(self) == old(self).sub_spec(rhs),
    {
        *self = *self - rhs;
    }
}

impl core::ops::MulAssign for FieldElement {
    /// Replaces the element by its product with `rhs`.
    fn mul_assign(&mut self, rhs: FieldElement)
        ensures
            *final(self) == old(self).mul_spec(rhs),
    {
        *self = *self * rhs;
    }
}

impl core::ops::DivAssign for FieldElement {
    /// Replaces the element by its quotient by `rhs`, which is not zero.
    fn div_assign(&mut self, rhs: FieldElement)
        requires
            rhs != FieldElement::zero(),
        ensures
            *final(self) == old(self).div_spec(rhs),
    {
        *self = *self / rhs;
    }
}

} // verus!
