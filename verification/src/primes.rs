//! Prime numbers: inverses modulo a prime, Euclid's lemma, least divisors
//! and Fermat's little theorem.

use vstd::arithmetic::div_mod::*;
use vstd::arithmetic::mul::*;
use vstd::arithmetic::power::*;
use vstd::prelude::*;

verus! {

/// `q` is at least two and no number strictly between one and `q` divides
/// it.
pub open spec fn is_prime(q: int) -> bool {
    &&& q >= 2
    &&& forall|d: int| 1 < d < q ==> #[trigger] (q % d) != 0
}

/// Modulo a prime, every residue but zero has an inverse.
pub proof fn lemma_inverse_exists(q: int, k: int) -> (x: int)
    requires
        is_prime(q),
        0 < k < q,
    ensures
        (k * x) % q == 1,
    decreases k,
{
    if k == 1 {
        lemma_small_mod(1, q as nat);
        1
    } else {
        let r = q % k;
        let d = q / k;
        lemma_fundamental_div_mod(q, k);
        lemma_mod_bound(q, k);
        let y = lemma_inverse_exists(q, r);
        let x = -(d * y);
        assert(k * x == q * (-y) + r * y) by (nonlinear_arith)
            requires
                q == k * d + r,
                x == -(d * y),
        ;
        lemma_mod_multiples_vanish(-y, r * y, q);
        x
    }
}

/// A prime that divides a product divides one of the factors.
pub proof fn lemma_prime_divides_factor(q: int, a: int, b: int)
    requires
        is_prime(q),
        (a * b) % q == 0,
        a % q != 0,
    ensures
        b % q == 0,
{
    let k = a % q;
    lemma_mod_bound(a, q);
    let x = lemma_inverse_exists(q, k);
    // b is congruent to b * (k * x), and b * k to b * a, which is zero.
    assert((b * (k * x)) % q == b % q) by {
        lemma_mul_mod_noop_right(b, k * x, q);
        lemma_mul_basics(b);
    }
    assert((b * k) % q == 0) by {
        lemma_mul_mod_noop_right(b, a, q);
        lemma_mul_is_commutative(a, b);
    }
    assert((b * (k * x)) % q == 0) by {
        lemma_mul_is_associative(b, k, x);
        lemma_mul_mod_noop_left(b * k, x, q);
        lemma_mul_basics(x);
        lemma_small_mod(0, q as nat);
    }
}

/// The least divisor of `n` that is at least `k`, where no number between
/// one and `k` divides `n`.
proof fn lemma_least_divisor_from(n: int, k: int) -> (q: int)
    requires
        2 <= k <= n,
        forall|d: int| 1 < d < k ==> #[trigger] (n % d) != 0,
    ensures
        k <= q <= n,
        n % q == 0,
        forall|d: int| 1 < d < q ==> #[trigger] (n % d) != 0,
    decreases n - k,
{
    if n % k == 0 {
        k
    } else {
        lemma_mod_self_0(n);
        lemma_least_divisor_from(n, k + 1)
    }
}

/// What divides a divisor of `n` divides `n`.
proof fn lemma_divides_transitive(n: int, q: int, d: int)
    requires
        q > 0,
        d > 0,
        n % q == 0,
        q % d == 0,
    ensures
        n % d == 0,
{
    let a = n / q;
    let b = q / d;
    lemma_fundamental_div_mod(n, q);
    lemma_fundamental_div_mod(q, d);
    assert(n == (b * a) * d) by (nonlinear_arith)
        requires
            n == q * a,
            q == d * b,
    ;
    lemma_mod_multiples_basic(b * a, d);
}

/// The least divisor of `n` above one: it is prime, and where it is not `n`
/// itself, its square is at most `n`.
pub proof fn lemma_least_divisor(n: int) -> (q: int)
    requires
        n >= 2,
    ensures
        is_prime(q),
        2 <= q <= n,
        n % q == 0,
        q < n ==> q * q <= n,
{
    let q = lemma_least_divisor_from(n, 2);
    assert forall|d: int| 1 < d < q implies #[trigger] (q % d) != 0 by {
        if q % d == 0 {
            lemma_divides_transitive(n, q, d);
        }
    }
    if q < n {
        let m = n / q;
        lemma_fundamental_div_mod(n, q);
        assert(m > 1) by (nonlinear_arith)
            requires
                n == q * m,
                2 <= q < n,
        ;
        lemma_mul_is_commutative(q, m);
        lemma_mod_multiples_basic(q, m);
        if m < q {
            assert(n % m != 0);
        }
        lemma_mul_inequality(q, m, q);
    }
    q
}

/// The binomial coefficient, by Pascal's rule.
pub open spec fn binomial(n: nat, k: nat) -> nat
    decreases n,
{
    if k == 0 {
        1
    } else if n == 0 {
        0
    } else {
        binomial((n - 1) as nat, (k - 1) as nat) + binomial((n - 1) as nat, k)
    }
}

/// No way to choose more than there is.
pub proof fn lemma_binomial_above(n: nat, k: nat)
    requires
        k > n,
    ensures
        binomial(n, k) == 0,
    decreases n,
{
    if n > 0 {
        lemma_binomial_above((n - 1) as nat, (k - 1) as nat);
        lemma_binomial_above((n - 1) as nat, k);
    }
}

/// One way to choose everything.
pub proof fn lemma_binomial_all(n: nat)
    ensures
        binomial(n, n) == 1,
    decreases n,
{
    if n > 0 {
        lemma_binomial_all((n - 1) as nat);
        lemma_binomial_above((n - 1) as nat, n);
    }
}

/// `k * C(n, k) == n * C(n - 1, k - 1)`.
pub proof fn lemma_binomial_absorption(n: nat, k: nat)
    requires
        n >= 1,
        k >= 1,
    ensures
        k * binomial(n, k) == n * binomial((n - 1) as nat, (k - 1) as nat),
    decreases n,
{
    let n1 = (n - 1) as nat;
    let k1 = (k - 1) as nat;
    let x = binomial(n1, k1) as int;
    let y = binomial(n1, k) as int;
    assert(binomial(n, k) == x + y);
    if n == 1 {
        if k > 1 {
            lemma_binomial_above(0, k1);
            lemma_binomial_above(0, k);
        }
        assert(k * (x + y) == n * x) by (nonlinear_arith)
            requires
                n == 1,
                y == 0,
                k == 1 || x == 0,
        ;
    } else if k == 1 {
        lemma_binomial_absorption(n1, 1);
        let v = binomial((n1 - 1) as nat, 0) as int;
        assert(k * (x + y) == n * x) by (nonlinear_arith)
            requires
                k == 1,
                x == 1,
                v == 1,
                1 * y == n1 * v,
                n1 == n - 1,
        ;
    } else {
        let n2 = (n - 2) as nat;
        let k2 = (k - 2) as nat;
        lemma_binomial_absorption(n1, k);
        lemma_binomial_absorption(n1, k1);
        let u = binomial(n2, k2) as int;
        let v = binomial(n2, k1) as int;
        assert(x == u + v);
        assert(k * (x + y) == n * x) by (nonlinear_arith)
            requires
                x == u + v,
                k * y == n1 * v,
                k1 * x == n1 * u,
                k1 == k - 1,
                n1 == n - 1,
        ;
    }
}

/// A prime divides every binomial coefficient of its row but the first and
/// the last.
pub proof fn lemma_prime_divides_binomial(q: int, k: int)
    requires
        is_prime(q),
        0 < k < q,
    ensures
        binomial(q as nat, k as nat) % (q as nat) == 0,
{
    lemma_binomial_absorption(q as nat, k as nat);
    let b = binomial(q as nat, k as nat) as int;
    let c = binomial((q - 1) as nat, (k - 1) as nat) as int;
    assert(k * b == q * c);
    lemma_mod_multiples_basic(c, q);
    lemma_mul_is_commutative(c, q);
    lemma_small_mod(k as nat, q as nat);
    lemma_prime_divides_factor(q, k, b);
}

/// The first `m + 1` terms of the binomial expansion of `(1 + a)^n`.
pub open spec fn binomial_sum(n: nat, a: int, m: nat) -> int
    decreases m,
{
    binomial(n, m) * pow(a, m) + if m == 0 {
        0
    } else {
        binomial_sum(n, a, (m - 1) as nat)
    }
}

/// Multiplying a partial expansion by `1 + a` gives the partial expansion of
/// the next row and one term more.
pub proof fn lemma_binomial_sum_step(n: nat, a: int, m: nat)
    ensures
        (1 + a) * binomial_sum(n, a, m) == binomial_sum(n + 1, a, m) + binomial(n, m) * pow(
            a,
            m + 1,
        ),
    decreases m,
{
    let t = binomial(n, m) as int;
    let am = pow(a, m);
    assert(pow(a, m + 1) == a * am) by {
        lemma_pow1(a);
        lemma_pow_adds(a, 1, m);
    }
    if m == 0 {
        assert(binomial_sum(n, a, 0) == t * am);
        assert(binomial_sum(n + 1, a, 0) == binomial(n + 1, 0) * am);
        assert(am == 1) by {
            lemma_pow0(a);
        }
        assert((1 + a) * (t * am) == 1 * am + t * (a * am)) by (nonlinear_arith)
            requires
                t == 1,
        ;
    } else {
        let m1 = (m - 1) as nat;
        lemma_binomial_sum_step(n, a, m1);
        let s = binomial_sum(n, a, m1);
        let s2 = binomial_sum(n + 1, a, m1);
        let t1 = binomial(n, m1) as int;
        let t2 = binomial(n + 1, m) as int;
        assert(t2 == t1 + t);
        assert(binomial_sum(n, a, m) == t * am + s);
        assert(binomial_sum(n + 1, a, m) == t2 * am + s2);
        assert((1 + a) * s == s2 + t1 * am);
        assert((1 + a) * (t * am + s) == (t2 * am + s2) + t * (a * am)) by (nonlinear_arith)
            requires
                t2 == t1 + t,
                (1 + a) * s == s2 + t1 * am,
        ;
    }
}

/// The binomial theorem for `(1 + a)^n`.
pub proof fn lemma_binomial_theorem(n: nat, a: int)
    ensures
        pow(1 + a, n) == binomial_sum(n, a, n),
    decreases n,
{
    if n == 0 {
        lemma_pow0(1 + a);
        lemma_pow0(a);
        assert(binomial_sum(0, a, 0) == binomial(0, 0) * pow(a, 0));
    } else {
        let n1 = (n - 1) as nat;
        lemma_binomial_theorem(n1, a);
        lemma_binomial_sum_step(n1, a, n1);
        lemma_binomial_all(n1);
        lemma_binomial_all(n);
        assert(pow(1 + a, n) == (1 + a) * pow(1 + a, n1)) by {
            lemma_pow1(1 + a);
            lemma_pow_adds(1 + a, 1, n1);
        }
        assert(binomial_sum(n, a, n) == binomial(n, n) * pow(a, n) + binomial_sum(n, a, n1));
        assert(binomial(n1, n1) * pow(a, n) == pow(a, n)) by {
            lemma_mul_basics(pow(a, n));
        }
        assert(binomial(n, n) * pow(a, n) == pow(a, n)) by {
            lemma_mul_basics(pow(a, n));
        }
    }
}

/// Modulo a prime, the expansion of a power by the prime is one as long as
/// it leaves out the last term.
pub proof fn lemma_binomial_sum_mod(q: int, a: int, m: nat)
    requires
        is_prime(q),
        m < q,
    ensures
        binomial_sum(q as nat, a, m) % q == 1,
    decreases m,
{
    if m == 0 {
        lemma_pow0(a);
        assert(binomial_sum(q as nat, a, 0) == binomial(q as nat, 0) * pow(a, 0));
        lemma_small_mod(1, q as nat);
    } else {
        let m1 = (m - 1) as nat;
        lemma_binomial_sum_mod(q, a, m1);
        lemma_prime_divides_binomial(q, m as int);
        let b = binomial(q as nat, m) as int;
        let term = b * pow(a, m);
        assert(term % q == 0) by {
            lemma_mul_mod_noop_left(b, pow(a, m), q);
            lemma_mul_basics(pow(a, m));
            lemma_small_mod(0, q as nat);
        }
        assert(binomial_sum(q as nat, a, m) == term + binomial_sum(q as nat, a, m1));
        lemma_add_mod_noop(term, binomial_sum(q as nat, a, m1), q);
        lemma_small_mod(1, q as nat);
    }
}

/// Modulo a prime `q`, the `q`-th power of a natural number is the number.
pub proof fn lemma_fermat_power(q: int, a: nat)
    requires
        is_prime(q),
    ensures
        pow(a as int, q as nat) % q == a % (q as nat),
    decreases a,
{
    if a == 0 {
        lemma0_pow(q as nat);
    } else {
        let b = (a - 1) as int;
        lemma_fermat_power(q, b as nat);
        lemma_binomial_theorem(q as nat, b);
        lemma_binomial_all(q as nat);
        let q1 = (q - 1) as nat;
        lemma_binomial_sum_mod(q, b, q1);
        let last = pow(b, q as nat);
        let rest = binomial_sum(q as nat, b, q1);
        assert(binomial_sum(q as nat, b, q as nat) == binomial(q as nat, q as nat) * last + rest);
        assert(binomial(q as nat, q as nat) * last == last) by {
            lemma_mul_basics(last);
        }
        assert(pow(a as int, q as nat) == last + rest);
        lemma_add_mod_noop(last, rest, q);
        lemma_add_mod_noop(b, 1, q);
        lemma_small_mod(1, q as nat);
    }
}

/// Fermat's little theorem: modulo a prime `q`, the power `q - 1` of a
/// natural number that `q` does not divide is one.
pub proof fn lemma_fermat_little(q: int, a: nat)
    requires
        is_prime(q),
        a % (q as nat) != 0,
    ensures
        pow(a as int, (q - 1) as nat) % q == 1,
{
    let x = pow(a as int, (q - 1) as nat);
    lemma_fermat_power(q, a);
    assert(pow(a as int, q as nat) == a * x) by {
        lemma_pow1(a as int);
        lemma_pow_adds(a as int, 1, (q - 1) as nat);
    }
    assert((a * (x - 1)) % q == 0) by {
        lemma_mul_is_distributive_sub(a as int, x, 1);
        lemma_mod_equivalence(a * x, a as int, q);
    }
    lemma_prime_divides_factor(q, a as int, x - 1);
    lemma_mod_equivalence(x, 1, q);
    lemma_small_mod(1, q as nat);
}

} // verus!
