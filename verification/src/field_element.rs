//! Elements of the prime field of order `PRIME`, held as their canonical
//! representative in `0..PRIME`.

use vstd::arithmetic::div_mod::*;
use vstd::arithmetic::mul::*;
use vstd::arithmetic::power::*;
use vstd::arithmetic::power2::*;
use vstd::prelude::*;
use vstd::std_specs::ops::{AddSpec, MulSpec};

pub mod algebra;
pub mod convert;
pub mod encoding;
pub mod errors;
pub mod inversion;
pub mod ops;

verus! {

/// The field's modulus, 2^64 - 2^32 + 1.
pub const PRIME: u64 = 0xFFFF_FFFF_0000_0001;

/// An element of the field. The representative it holds is always below
/// `PRIME`, so two elements are equal exactly when their representatives are.
#[derive(Clone, Copy, Debug, PartialEq, Eq, Structural)]
pub struct FieldElement {
    value: u64,
}

impl View for FieldElement {
    type V = int;

    /// The canonical representative.
    closed spec fn view(&self) -> int {
        self.value as int
    }
}

impl FieldElement {
    /// The representative lies in `0..PRIME`.
    #[verifier::type_invariant]
    pub open spec fn wf(self) -> bool {
        0 <= self@ < PRIME
    }

    /// The element that the integer `n` stands for: the one whose
    /// representative is `n mod PRIME`.
    pub closed spec fn of(n: int) -> FieldElement {
        FieldElement { value: (n % (PRIME as int)) as u64 }
    }

    /// The representative of the element that `n` stands for is `n mod PRIME`.
    pub broadcast proof fn lemma_of_view(n: int)
        ensures
            (#[trigger] FieldElement::of(n))@ == n % (PRIME as int),
            FieldElement::of(n).wf(),
    {
    }

    /// A well-formed element is the one that its representative stands for.
    pub proof fn lemma_of_canonical(self)
        requires
            self.wf(),
        ensures
            FieldElement::of(self@) == self,
    {
    }

    /// Two integers stand for the same element exactly when they are
    /// congruent modulo `PRIME`.
    pub proof fn lemma_of_congruent(m: int, n: int)
        ensures
            FieldElement::of(m) == FieldElement::of(n) <==> m % (PRIME as int) == n % (PRIME
                as int),
    {
    }

    /// Elements with the same representative are equal.
    pub proof fn lemma_view_injective(self, other: FieldElement)
        ensures
            self@ == other@ <==> self == other,
    {
    }

    /// The additive identity, as a specification value.
    pub open spec fn spec_zero() -> FieldElement {
        FieldElement::of(0)
    }

    /// The multiplicative identity, as a specification value.
    pub open spec fn spec_one() -> FieldElement {
        FieldElement::of(1)
    }

    /// The additive identity.
    #[verifier::when_used_as_spec(spec_zero)]
    pub fn zero() -> (r: FieldElement)
        ensures
            r == FieldElement::spec_zero(),
            r@ == 0,
    {
        FieldElement { value: 0 }
    }

    /// The multiplicative identity.
    #[verifier::when_used_as_spec(spec_one)]
    pub fn one() -> (r: FieldElement)
        ensures
            r == FieldElement::spec_one(),
            r@ == 1,
    {
        FieldElement { value: 1 }
    }

    /// The element that holds `value mod PRIME`.
    pub fn new(value: u64) -> (r: FieldElement)
        ensures
            r == FieldElement::of(value as int),
            r@ == value % PRIME,
    {
        FieldElement { value: value % PRIME }
    }

    /// The canonical representative.
    pub fn value(&self) -> (r: u64)
        ensures
            r == self@,
            r < PRIME,
    {
        proof {
            use_type_invariant(self);
        }
        self.value
    }

    /// This element raised to the power `e`.
    pub open spec fn power(self, e: nat) -> FieldElement {
        FieldElement::of(pow(self@, e))
    }

    /// This element raised to the power that the representative of
    /// `exponent` gives. Anything to the power zero is one.
    pub open spec fn exp_spec(self, exponent: FieldElement) -> FieldElement {
        self.power(exponent@ as nat)
    }

    /// This element raised to the power `PRIME - 2`, which is its
    /// multiplicative inverse where the element is not zero.
    pub open spec fn inv_spec(self) -> FieldElement {
        self.power((PRIME - 2) as nat)
    }

    /// The sum of the element with itself.
    pub fn double(&self) -> (r: FieldElement)
        ensures
            r == self.add_spec(*self),
            r@ == (2 * self@) % (PRIME as int),
    {
        proof {
            use_type_invariant(self);
        }
        let sum: u64 = self.value.wrapping_add(self.value);
        let wrapped: u64 = if sum < self.value {
            sum.wrapping_sub(PRIME)
        } else {
            sum
        };
        FieldElement::new(wrapped)
    }

    /// The product of the element with itself.
    pub fn square(&self) -> (r: FieldElement)
        ensures
            r == self.mul_spec(*self),
            r == self.power(2),
            r@ == (self@ * self@) % (PRIME as int),
    {
        proof {
            self.lemma_square_is_power();
        }
        *self * *self
    }

    /// The product of the element's square with the element.
    pub fn cube(&self) -> (r: FieldElement)
        ensures
            r == self.mul_spec(*self).mul_spec(*self),
            r == self.power(3),
            r@ == (self@ * self@ * self@) % (PRIME as int),
    {
        proof {
            self.lemma_cube_is_power();
            lemma_mul_mod_noop_left(self@ * self@, self@, PRIME as int);
        }
        self.square() * *self
    }

    /// The element raised to the power that the representative of `exponent`
    /// gives, by squaring and multiplying along the bits of the exponent
    /// from the least significant one. The number of multiplications
    /// depends on the exponent.
    pub fn exp(self, exponent: FieldElement) -> (r: FieldElement)
        ensures
            r == self.exp_spec(exponent),
            r@ == pow(self@, exponent@ as nat) % (PRIME as int),
            exponent == FieldElement::zero() ==> r == FieldElement::one(),
            self == FieldElement::zero() && exponent != FieldElement::zero() ==> r
                == FieldElement::zero(),
            exponent == FieldElement::one() ==> r == self,
    {
        proof {
            use_type_invariant(self);
            use_type_invariant(exponent);
            self.lemma_exp_special(exponent);
        }
        if exponent == FieldElement::zero() {
            return FieldElement::one();
        } else if self == FieldElement::zero() {
            return FieldElement::zero();
        }
        let mut base: FieldElement = self;
        let bits: u64 = exponent.value;
        let mut res: FieldElement = if (bits & 1) == 1 {
            base
        } else {
            FieldElement::one()
        };
        let mut pow_val: u64 = bits >> 1;
        proof {
            assert((bits & 1) == 1 <==> bits % 2 == 1) by (bit_vector);
            assert(bits >> 1 == bits / 2) by (bit_vector);
            lemma_pow1(self@);
            lemma_pow_adds(self@, 1, (2 * pow_val) as nat);
        }
        while pow_val > 0
            invariant
                base.wf(),
                res.wf(),
                FieldElement::of(res@ * pow(base@, (2 * pow_val) as nat)) == self.exp_spec(
                    exponent,
                ),
            decreases pow_val,
        {
            proof {
                assert((pow_val & 1) == 1 <==> pow_val % 2 == 1) by (bit_vector);
                assert(pow_val >> 1 == pow_val / 2) by (bit_vector);
                lemma_exp_step(res@, base@, pow_val as nat);
            }
            base = base.square();
            if (pow_val & 1) == 1 {
                res = res * base;
            }
            pow_val = pow_val >> 1;
        }
        proof {
            lemma_pow0(base@);
        }
        res
    }

    /// The multiplicative inverse of an element that is not zero, computed
    /// as its power `PRIME - 2` along a fixed chain of 72 multiplications,
    /// whatever the element. Zero has no inverse: to pass it is to break the
    /// contract, and no error is returned for it.
    pub fn inv(self) -> (r: FieldElement)
        requires
            self != FieldElement::zero(),
        ensures
            r == self.inv_spec(),
            r@ == pow(self@, (PRIME - 2) as nat) % (PRIME as int),
            self.mul_spec(r) == FieldElement::one(),
    {
        proof {
            use_type_invariant(self);
            self.lemma_power_one();
            lemma2_to64();
            inversion::lemma_inverse(self);
        }
        // The exponent in binary, from the top: 31 ones, a zero, 32 ones.
        let t2: FieldElement = self.cube();
        let t3: FieldElement = t2.square() * self;
        proof {
            self.lemma_power_chain(3, 2, 1);
        }
        let t6: FieldElement = exp_acc::<3>(t3, t3);
        proof {
            self.lemma_power_chain(7, 8, 7);
        }
        let t12: FieldElement = exp_acc::<6>(t6, t6);
        proof {
            self.lemma_power_chain(63, 64, 63);
        }
        let t24: FieldElement = exp_acc::<12>(t12, t12);
        proof {
            self.lemma_power_chain(4095, 4096, 4095);
        }
        let t30: FieldElement = exp_acc::<6>(t24, t6);
        proof {
            self.lemma_power_chain(16777215, 64, 63);
        }
        let t31: FieldElement = t30.square() * self;
        proof {
            self.lemma_power_chain(1073741823, 2, 1);
        }
        let t63: FieldElement = exp_acc::<32>(t31, t31);
        proof {
            self.lemma_power_chain(2147483647, 4294967296, 2147483647);
        }
        let r: FieldElement = t63.square() * self;
        proof {
            self.lemma_power_chain(9223372034707292159, 2, 1);
        }
        r
    }

}

/// What `reduce` returns: with `x = low + 2^64 * mid + 2^96 * high`, where
/// `low < 2^64` and `mid < 2^32`, the sum `low - high + (2^32 - 1) * mid`,
/// brought into the range of a `u64` by adding `PRIME` once where the
/// difference is negative and taking `PRIME` off once where the sum is too
/// large.
pub open spec fn reduce_spec(x: u128) -> int {
    let low = (x as int) % 0x1_0000_0000_0000_0000;
    let mid = ((x as int) / 0x1_0000_0000_0000_0000) % 0x1_0000_0000;
    let high = (x as int) / 0x1_0000_0000_0000_0000_0000_0000;
    let diff = if low < high {
        low - high + PRIME
    } else {
        low - high
    };
    let sum = diff + 0xFFFF_FFFF * mid;
    if sum > u64::MAX {
        sum - PRIME
    } else {
        sum
    }
}

/// `reduce_spec(x)` fits a `u64` and is congruent to `x` modulo `PRIME`.
pub proof fn lemma_reduce_spec(x: u128)
    ensures
        0 <= reduce_spec(x) <= u64::MAX,
        reduce_spec(x) % (PRIME as int) == (x as int) % (PRIME as int),
{
    let p = PRIME as int;
    let low = (x as int) % 0x1_0000_0000_0000_0000;
    let mid_high = (x as int) / 0x1_0000_0000_0000_0000;
    let mid = mid_high % 0x1_0000_0000;
    let high = (x as int) / 0x1_0000_0000_0000_0000_0000_0000;
    assert(high == mid_high / 0x1_0000_0000);
    assert(x as int == low + 0x1_0000_0000_0000_0000 * mid
        + 0x1_0000_0000_0000_0000_0000_0000 * high);
    let borrow: int = if low < high { 1 } else { 0 };
    let diff = low - high + borrow * p;
    let sum = diff + 0xFFFF_FFFF * mid;
    let carry: int = if sum > u64::MAX { 1 } else { 0 };
    let r = reduce_spec(x);
    assert(r == sum - carry * p);
    let k = mid + 0x1_0000_0001 * high - borrow + carry;
    assert(x as int == p * k + r);
    lemma_mod_multiples_vanish(k, r, p);
}

/// Reduces a 128-bit integer to a 64-bit integer in the same residue class
/// modulo `PRIME`. The result is not always the canonical representative:
/// it can lie in `PRIME..2^64`.
pub fn reduce(x: u128) -> (r: u64)
    ensures
        r == reduce_spec(x),
        r as int % (PRIME as int) == (x as int) % (PRIME as int),
{
    let low: u64 = #[verifier::truncate] (x as u64);
    let middle_high: u64 = (x >> 64) as u64;
    let middle: u64 = (#[verifier::truncate] (middle_high as u32)) as u64;
    let high: u64 = middle_high >> 32;
    proof {
        assert(low == x % 0x1_0000_0000_0000_0000) by (bit_vector)
            requires
                low == x as u64,
        ;
        assert((x >> 64) == x / 0x1_0000_0000_0000_0000 && (x >> 64) <= 0xFFFF_FFFF_FFFF_FFFF)
            by (bit_vector);
        assert(middle == middle_high % 0x1_0000_0000) by (bit_vector)
            requires
                middle == (middle_high as u32) as u64,
        ;
        assert(high == middle_high / 0x1_0000_0000) by (bit_vector)
            requires
                high == middle_high >> 32,
        ;
        assert((x as int) / 0x1_0000_0000_0000_0000 / 0x1_0000_0000 == (x as int)
            / 0x1_0000_0000_0000_0000_0000_0000);
    }
    let diff: u64 = if low < high {
        low.wrapping_sub(high).wrapping_add(PRIME)
    } else {
        low - high
    };
    let shifted: u64 = middle << 32;
    proof {
        assert(shifted == middle * 0x1_0000_0000) by (bit_vector)
            requires
                shifted == middle << 32,
                middle <= 0xFFFF_FFFF,
        ;
    }
    let product: u64 = shifted - middle;
    let sum: u64 = diff.wrapping_add(product);
    let r: u64 = if sum < diff {
        sum.wrapping_sub(PRIME)
    } else {
        sum
    };
    proof {
        lemma_reduce_spec(x);
    }
    r
}

/// Squares `base` `N` times and multiplies the result by `tail`.
fn exp_acc<const N: usize>(base: FieldElement, tail: FieldElement) -> (r: FieldElement)
    ensures
        r == base.power(pow2(N as nat)).mul_spec(tail),
{
    let mut result: FieldElement = base;
    let mut i: usize = 0;
    proof {
        use_type_invariant(base);
        base.lemma_power_one();
        lemma2_to64();
    }
    while i < N
        invariant
            i <= N,
            result == base.power(pow2(i as nat)),
        decreases N - i,
    {
        proof {
            base.lemma_power_multiplies(pow2(i as nat), 2);
            lemma_pow2_unfold((i + 1) as nat);
        }
        result = result.square();
        i += 1;
    }
    result * tail
}

/// One round of squaring and multiplying keeps the running product's
/// residue: with `b2` the reduced square of `b`, the accumulator `r` times
/// the power of `b` by twice the exponent `e` is congruent to the new
/// accumulator times the power of `b2` by twice the halved exponent.
proof fn lemma_exp_step(r: int, b: int, e: nat)
    requires
        e > 0,
    ensures
        ({
            let p = PRIME as int;
            let b2 = (b * b) % p;
            let r2 = if e % 2 == 1 {
                (r * b2) % p
            } else {
                r
            };
            (r2 * pow(b2, (2 * (e / 2)) as nat)) % p == (r * pow(b, (2 * e) as nat)) % p
        }),
{
    let p = PRIME as int;
    let b2 = (b * b) % p;
    let half = (e / 2) as nat;
    // Powers of the reduced square are congruent to powers of `b` by twice
    // the exponent.
    assert(pow(b2, e) % p == pow(b, (2 * e) as nat) % p) by {
        lemma_pow_mod_noop(b * b, e, p);
        lemma_square_is_pow2(b);
        lemma_pow_multiplies(b, 2, e);
    }
    if e % 2 == 1 {
        assert(pow(b2, e) == b2 * pow(b2, (2 * half) as nat)) by {
            lemma_pow1(b2);
            lemma_pow_adds(b2, 1, (2 * half) as nat);
        }
        let t = pow(b2, (2 * half) as nat);
        assert(((r * b2) % p) * t % p == (r * pow(b2, e)) % p) by {
            lemma_mul_mod_noop_left(r * b2, t, p);
            lemma_mul_is_associative(r, b2, t);
        }
    }
    lemma_mul_mod_noop_right(r, pow(b2, e), p);
    lemma_mul_mod_noop_right(r, pow(b, (2 * e) as nat), p);
}

} // verus!
