//! The modulus is prime, and so the power `PRIME - 2` of an element that is
//! not zero is its inverse.

use super::algebra::{lemma_mul_associative, lemma_mul_one};
use super::{FieldElement, PRIME};
use crate::primes::{is_prime, lemma_fermat_little, lemma_least_divisor};
use vstd::arithmetic::div_mod::*;
use vstd::arithmetic::mul::*;
use vstd::arithmetic::power::*;
use vstd::arithmetic::power2::*;
use vstd::prelude::*;
use vstd::std_specs::ops::MulSpec;

verus! {

/// A number whose powers run through 2^32 residues modulo `PRIME` before
/// they come back to one: the power `2^32 - 1` of seven.
pub open spec fn root_of_unity() -> int {
    1753635133440165772
}

/// The square of `x`, reduced modulo `PRIME`.
pub open spec fn squared(x: int) -> int {
    (x * x) % (PRIME as int)
}

/// `x` squared `k` times, reduced modulo `PRIME`.
pub open spec fn squared_times(x: int, k: nat) -> int
    decreases k,
{
    if k == 0 {
        x % (PRIME as int)
    } else {
        squared(squared_times(x, (k - 1) as nat))
    }
}

/// Squaring `k` times raises to the power `2^k`.
pub proof fn lemma_squared_times_is_power(x: int, k: nat)
    ensures
        squared_times(x, k) == pow(x, pow2(k)) % (PRIME as int),
    decreases k,
{
    let p = PRIME as int;
    if k == 0 {
        lemma2_to64();
        lemma_pow1(x);
    } else {
        let k1 = (k - 1) as nat;
        lemma_squared_times_is_power(x, k1);
        let y = pow(x, pow2(k1));
        lemma_mul_mod_noop(y, y, p);
        lemma_pow_adds(x, pow2(k1), pow2(k1));
        lemma_pow2_unfold(k);
    }
}

/// The power `2^31` of the root of unity is minus one modulo `PRIME`.
pub proof fn lemma_root_of_unity()
    ensures
        pow(root_of_unity(), pow2(31)) % (PRIME as int) == PRIME - 1,
{
    let c = root_of_unity();
    assert(squared_times(c, 0) == c);
    assert(squared(1753635133440165772) == 4614640910117430873);
    assert(squared(4614640910117430873) == 9123114210336311365);
    assert(squared(9123114210336311365) == 16116352524544190054);
    assert(squared(16116352524544190054) == 6414415596519834757);
    assert(squared(6414415596519834757) == 1213594585890690845);
    assert(squared(1213594585890690845) == 17096174751763063430);
    assert(squared(17096174751763063430) == 5456943929260765144);
    assert(squared(5456943929260765144) == 9713644485405565297);
    assert(squared(9713644485405565297) == 16905767614792059275);
    assert(squared(16905767614792059275) == 5416168637041100469);
    assert(squared(5416168637041100469) == 17654865857378133588);
    assert(squared(17654865857378133588) == 3511170319078647661);
    assert(squared(3511170319078647661) == 18146160046829613826);
    assert(squared(18146160046829613826) == 9306717745644682924);
    assert(squared(9306717745644682924) == 12380578893860276750);
    assert(squared(12380578893860276750) == 6115771955107415310);
    assert(squared(6115771955107415310) == 17776499369601055404);
    assert(squared(17776499369601055404) == 16207902636198568418);
    assert(squared(16207902636198568418) == 1532612707718625687);
    assert(squared(1532612707718625687) == 17492915097719143606);
    assert(squared(17492915097719143606) == 455906449640507599);
    assert(squared(455906449640507599) == 11353340290879379826);
    assert(squared(11353340290879379826) == 1803076106186727246);
    assert(squared(1803076106186727246) == 13797081185216407910);
    assert(squared(13797081185216407910) == 17870292113338400769);
    assert(squared(17870292113338400769) == 549755813888);
    assert(squared(549755813888) == 70368744161280);
    assert(squared(70368744161280) == 17293822564807737345);
    assert(squared(17293822564807737345) == 18446744069397807105);
    assert(squared(18446744069397807105) == 281474976710656);
    assert(squared(281474976710656) == 18446744069414584320);
    reveal_with_fuel(squared_times, 32);
    assert(squared_times(c, 31) == PRIME - 1);
    lemma_squared_times_is_power(c, 31);
}

/// A positive number is a power of two times an odd number.
proof fn lemma_odd_part(e: int) -> (r: (nat, int))
    requires
        e > 0,
    ensures
        e == pow2(r.0) * r.1,
        r.1 > 0,
        r.1 % 2 == 1,
    decreases e,
{
    if e % 2 == 1 {
        lemma2_to64();
        lemma_mul_basics(e);
        (0, e)
    } else {
        let (j, t) = lemma_odd_part(e / 2);
        let half = pow2(j) as int;
        lemma_pow2_unfold(j + 1);
        assert(e == (2 * half) * t) by (nonlinear_arith)
            requires
                e == 2 * (e / 2),
                e / 2 == half * t,
        ;
        (j + 1, t)
    }
}

/// An odd power of minus one is minus one.
proof fn lemma_odd_power_of_minus_one(t: nat)
    requires
        t % 2 == 1,
    ensures
        pow(-1, t) == -1,
    decreases t,
{
    if t == 1 {
        lemma_pow1(-1);
    } else {
        lemma_odd_power_of_minus_one((t - 2) as nat);
        lemma_pow_adds(-1, 2, (t - 2) as nat);
        lemma_square_is_pow2(-1);
    }
}

/// No prime whose square is at most `PRIME` divides `PRIME`: modulo such a
/// prime the root of unity would have an order that divides both `2^32` and
/// a positive number below `2^32`, and yet not `2^31`.
proof fn lemma_no_small_prime_divisor(q: int)
    requires
        is_prime(q),
        q * q <= PRIME,
    ensures
        (PRIME as int) % q != 0,
{
    let p = PRIME as int;
    if p % q == 0 {
        let c = root_of_unity();
        let x = pow(c, pow2(31));
        assert(q < 0x1_0000_0000) by (nonlinear_arith)
            requires
                q * q <= 0xFFFF_FFFF_0000_0001,
                q >= 2,
        ;
        // Modulo q the power 2^31 of the root is minus one as well.
        assert(x % q == q - 1) by {
            lemma_root_of_unity();
            let m = p / q;
            lemma_fundamental_div_mod(p, q);
            lemma_mod_mod(x, q, m);
            assert(p - 1 == (m - 1) * q + (q - 1)) by (nonlinear_arith)
                requires
                    p == q * m,
            ;
            lemma_fundamental_div_mod_converse(p - 1, q, m - 1, q - 1);
        }
        // So q does not divide the root, and Fermat's theorem holds of it.
        assert(c % q != 0) by {
            if c % q == 0 {
                lemma_pow_mod_noop(c, pow2(31), q);
                lemma_pow2_pos(31);
                lemma0_pow(pow2(31));
                lemma_small_mod(0, q as nat);
            }
        }
        lemma_fermat_little(q, c as nat);
        let (j, t) = lemma_odd_part(q - 1);
        assert(j <= 31) by {
            lemma2_to64();
            if j >= 32 {
                let high = pow2((j - 32) as nat) as int;
                let whole = pow2(j) as int;
                lemma_pow2_adds(32, (j - 32) as nat);
                lemma_pow2_pos((j - 32) as nat);
                assert(whole * t >= 0x1_0000_0000) by (nonlinear_arith)
                    requires
                        whole == 0x1_0000_0000 * high,
                        high >= 1,
                        t >= 1,
                ;
            }
        }
        let rest = (31 - j) as nat;
        let big = pow2(31) * t;
        assert(big == (q - 1) * pow2(rest)) by {
            lemma_pow2_adds(j, rest);
            assert(pow2(31) * t == (pow2(j) * t) * pow2(rest)) by (nonlinear_arith)
                requires
                    pow2(31) == pow2(j) * pow2(rest),
            ;
        }
        // Raised to the odd part, minus one stays minus one.
        assert(pow(c, big as nat) % q == q - 1) by {
            lemma_pow_multiplies(c, pow2(31), t as nat);
            lemma_pow_mod_noop(x, t as nat, q);
            lemma_pow_mod_noop(-1, t as nat, q);
            lemma_odd_power_of_minus_one(t as nat);
            lemma_fundamental_div_mod_converse(-1, q, -1, q - 1);
        }
        // Raised to a power of two, one stays one.
        assert(pow(c, big as nat) % q == 1) by {
            lemma_pow_multiplies(c, (q - 1) as nat, pow2(rest));
            lemma_pow_mod_noop(pow(c, (q - 1) as nat), pow2(rest), q);
            lemma1_pow(pow2(rest));
            lemma_small_mod(1, q as nat);
        }
        assert(q == 2);
        assert(p % 2 == 1);
    }
}

/// The modulus is prime.
pub proof fn lemma_modulus_is_prime()
    ensures
        is_prime(PRIME as int),
{
    let q = lemma_least_divisor(PRIME as int);
    if q < PRIME {
        lemma_no_small_prime_divisor(q);
    }
}

/// Since the modulus is prime, the power `PRIME - 2` of an element that is
/// not zero is its inverse: their product is one.
pub proof fn lemma_inverse(a: FieldElement)
    requires
        a.wf(),
        a != FieldElement::zero(),
    ensures
        a.mul_spec(a.inv_spec()) == FieldElement::one(),
        a.inv_spec().mul_spec(a) == FieldElement::one(),
{
    let p = PRIME as int;
    let x = pow(a@, (PRIME - 2) as nat);
    FieldElement::lemma_of_view(0);
    FieldElement::lemma_of_view(x);
    a.lemma_view_injective(FieldElement::zero());
    lemma_modulus_is_prime();
    lemma_small_mod(a@ as nat, p as nat);
    lemma_fermat_little(p, a@ as nat);
    assert(pow(a@, (PRIME - 1) as nat) == a@ * x) by {
        lemma_pow1(a@);
        lemma_pow_adds(a@, 1, (PRIME - 2) as nat);
    }
    lemma_mul_mod_noop_right(a@, x, p);
    lemma_mul_is_commutative(a@, x % p);
    FieldElement::lemma_of_congruent(a@ * (x % p), 1);
    lemma_small_mod(1, p as nat);
}

/// Multiplying by the inverse of an element that is not zero, and then by
/// the element, gives the first factor back: division undoes multiplication.
pub proof fn lemma_division(a: FieldElement, b: FieldElement)
    requires
        a.wf(),
        b.wf(),
        b != FieldElement::zero(),
    ensures
        a.mul_spec(b.inv_spec()).mul_spec(b) == a,
{
    lemma_inverse(b);
    lemma_mul_associative(a, b.inv_spec(), b);
    lemma_mul_one(a);
}

} // verus!
