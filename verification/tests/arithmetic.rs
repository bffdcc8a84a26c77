use rescue_field::field_element::{reduce, FieldElement, PRIME};
use std::ops::{Add, Div, Mul, Neg, Sub};

fn samples() -> Vec<FieldElement> {
    vec![
        FieldElement::zero(),
        FieldElement::one(),
        FieldElement::new(2),
        FieldElement::new(5),
        FieldElement::new(69),
        FieldElement::new(4294967295),
        FieldElement::new(4294967296),
        FieldElement::new(1234567890123456789),
        FieldElement::new(PRIME - 2),
        FieldElement::new(PRIME - 1),
    ]
}

#[test]
fn new_reduces_modulo_prime() {
    assert_eq!(FieldElement::new(0).value(), 0);
    assert_eq!(FieldElement::new(PRIME - 1).value(), PRIME - 1);
    assert_eq!(FieldElement::new(PRIME).value(), 0);
    assert_eq!(FieldElement::new(PRIME + 1).value(), 1);
    assert_eq!(FieldElement::new(u64::MAX).value(), 4294967294);
    for x in [0u64, 1, 17, PRIME - 1, PRIME, PRIME + 5, u64::MAX] {
        assert_eq!(FieldElement::new(x).value(), x % PRIME);
        assert!(FieldElement::new(x).value() < PRIME);
    }
}

#[test]
fn zero_and_one_are_the_identities() {
    assert_eq!(FieldElement::zero().value(), 0);
    assert_eq!(FieldElement::one().value(), 1);
    assert_eq!(FieldElement::zero(), FieldElement::new(0));
    assert_eq!(FieldElement::one(), FieldElement::new(1));
}

#[test]
fn conversions_from_integers_reduce() {
    assert_eq!(FieldElement::from(255u8).value(), 255);
    assert_eq!(FieldElement::from(65535u16).value(), 65535);
    assert_eq!(FieldElement::from(4294967295u32).value(), 4294967295);
    assert_eq!(FieldElement::from(u64::MAX).value(), 4294967294);
    assert_eq!(FieldElement::from(PRIME), FieldElement::zero());
}

#[test]
fn reduce_gives_the_documented_values() {
    assert_eq!(reduce(0), 0);
    assert_eq!(reduce(1), 1);
    // Below 2^64 the input comes back as it is, canonical or not.
    assert_eq!(reduce(PRIME as u128), PRIME);
    assert_eq!(reduce(u64::MAX as u128), u64::MAX);
    // 2^64 is congruent to 2^32 - 1.
    assert_eq!(reduce(1u128 << 64), 4294967295);
    // 2^96 is congruent to -1: the difference borrows, and PRIME is added once.
    assert_eq!(reduce(1u128 << 96), PRIME - 1);
    // The sum carries, and PRIME is taken off once.
    assert_eq!(reduce(u128::MAX), 18446744065119617024);
    assert_eq!(reduce(((PRIME - 1) as u128) * ((PRIME - 1) as u128)), PRIME + 1);
    assert_eq!(reduce((1u128 << 72) - 1), 1099511627519);
    assert_eq!(reduce(12345678901234567890123456789), 7972185955187910115);
}

#[test]
fn reduce_keeps_the_residue() {
    let p = PRIME as u128;
    for x in [
        0u128,
        1,
        p - 1,
        p,
        p + 1,
        u64::MAX as u128,
        1 << 64,
        (1 << 64) + 12345,
        1 << 96,
        (1 << 96) - 1,
        (p - 1) * (p - 1),
        u128::MAX,
        u128::MAX - 987654321,
        0x0123456789abcdef0123456789abcdef,
    ] {
        assert_eq!((reduce(x) as u128) % p, x % p);
    }
}

#[test]
fn addition_is_commutative_and_associative() {
    for a in samples() {
        for b in samples() {
            assert_eq!(a + b, b + a);
            for c in samples() {
                assert_eq!((a + b) + c, a + (b + c));
            }
        }
    }
}

#[test]
fn negation_is_the_additive_inverse() {
    assert_eq!(-FieldElement::zero(), FieldElement::zero());
    assert_eq!((-FieldElement::one()).value(), PRIME - 1);
    for a in samples() {
        assert_eq!(a + (-a), FieldElement::zero());
        assert_eq!(FieldElement::zero() - a, -a);
    }
}

#[test]
fn subtraction_undoes_addition() {
    for a in samples() {
        for b in samples() {
            assert_eq!((a + b) - b, a);
            assert_eq!(a - b, a + (-b));
        }
    }
}

#[test]
fn multiplication_laws() {
    let zero = FieldElement::zero();
    let one = FieldElement::one();
    for a in samples() {
        assert_eq!(a * one, a);
        assert_eq!(a * zero, zero);
        for b in samples() {
            assert_eq!(a * b, b * a);
            let expected = ((a.value() as u128) * (b.value() as u128) % (PRIME as u128)) as u64;
            assert_eq!((a * b).value(), expected);
            for c in samples() {
                assert_eq!((a * b) * c, a * (b * c));
                assert_eq!(a * (b + c), a * b + a * c);
            }
        }
    }
}

#[test]
fn inverse_times_element_is_one() {
    let one = FieldElement::one();
    for a in samples() {
        if a != FieldElement::zero() {
            assert_eq!(a * a.inv(), one);
            assert_eq!(a.inv().inv(), a);
        }
    }
    assert_eq!(FieldElement::new(7).inv().value(), 2635249152773512046);
    assert_eq!(FieldElement::new(3).inv().value(), 12297829379609722881);
    assert_eq!(FieldElement::new(PRIME - 1).inv().value(), PRIME - 1);
}

#[test]
fn inverse_is_the_power_prime_minus_two() {
    for a in samples() {
        if a != FieldElement::zero() {
            assert_eq!(a.inv(), a.exp(FieldElement::new(PRIME - 2)));
        }
    }
}

#[test]
fn division_multiplies_by_the_inverse() {
    let a = FieldElement::new(15);
    let b = FieldElement::new(5);
    assert_eq!(a / b, FieldElement::new(3));
    assert_eq!(FieldElement::one() / b, FieldElement::new(14757395255531667457));
    for a in samples() {
        for b in samples() {
            if b != FieldElement::zero() {
                assert_eq!(a / b, a * b.inv());
                assert_eq!((a / b) * b, a);
            }
        }
    }
}

#[test]
fn double_square_cube_match_the_operators() {
    for a in samples() {
        assert_eq!(a.double(), a + a);
        assert_eq!(a.square(), a * a);
        assert_eq!(a.cube(), a.square() * a);
    }
    assert_eq!(FieldElement::new(PRIME - 1).square(), FieldElement::one());
    assert_eq!(FieldElement::new(PRIME - 1).cube().value(), PRIME - 1);
    assert_eq!(FieldElement::new(4294967296).square().value(), 4294967295);
}

#[test]
fn exp_special_cases() {
    let zero = FieldElement::zero();
    let one = FieldElement::one();
    for a in samples() {
        assert_eq!(a.exp(zero), one);
        assert_eq!(a.exp(one), a);
        assert_eq!(a.exp(FieldElement::new(2)), a.square());
        assert_eq!(a.exp(FieldElement::new(3)), a.cube());
    }
    for b in samples() {
        if b != zero {
            assert_eq!(zero.exp(b), zero);
        }
    }
}

#[test]
fn exp_gives_the_documented_values() {
    assert_eq!(FieldElement::new(69).exp(FieldElement::new(6)).value(), 107918163081);
    assert_eq!(FieldElement::new(2).exp(FieldElement::new(64)).value(), 4294967295);
    assert_eq!(FieldElement::new(2).exp(FieldElement::new(96)).value(), PRIME - 1);
    assert_eq!(FieldElement::new(2).exp(FieldElement::new(192)).value(), 1);
    // Fermat: every nonzero element to the power PRIME - 1 is one.
    assert_eq!(FieldElement::new(7).exp(FieldElement::new(PRIME - 1)).value(), 1);
}

#[test]
fn exp_with_large_exponents() {
    assert_eq!(
        FieldElement::new(3).exp(FieldElement::new(1234567890123456789)).value(),
        8958155469058982884
    );
    assert_eq!(
        FieldElement::new(1234567890123456789).exp(FieldElement::new(987654321)).value(),
        5715234969911550016
    );
    assert_eq!(FieldElement::new(PRIME - 1).exp(FieldElement::new(PRIME - 1)).value(), 1);
    assert_eq!(FieldElement::new(PRIME - 1).exp(FieldElement::new(PRIME - 2)).value(), PRIME - 1);
    assert_eq!(FieldElement::new(2).exp(FieldElement::new(PRIME - 2)).value(), 9223372034707292161);
}

#[test]
fn division_gives_the_documented_value() {
    let a = FieldElement::new(1234567890123456789);
    let b = FieldElement::new(987654321);
    assert_eq!((a / b).value(), 15308423850492975904);
    assert_eq!(a / a, FieldElement::one());
    assert_eq!(FieldElement::zero() / b, FieldElement::zero());
}

#[test]
fn named_operator_methods() {
    let a = FieldElement::new(PRIME - 3);
    let b = FieldElement::new(11);
    assert_eq!(a.add(b), FieldElement::new(8));
    assert_eq!(a.sub(b), FieldElement::new(PRIME - 14));
    assert_eq!(a.mul(b), FieldElement::new(PRIME - 33));
    assert_eq!(a.neg(), FieldElement::new(3));
    assert_eq!(a.div(b).mul(b), a);
}

#[test]
fn compound_assignment_matches_the_operators() {
    let a = FieldElement::new(PRIME - 7);
    let b = FieldElement::new(1234567);

    let mut x = a;
    x += b;
    assert_eq!(x, a + b);

    let mut x = a;
    x -= b;
    assert_eq!(x, a - b);

    let mut x = a;
    x *= b;
    assert_eq!(x, a * b);

    let mut x = a;
    x /= b;
    assert_eq!(x, a / b);
}
