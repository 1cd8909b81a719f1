//! The multiplicity of a prime in `n!`, and the proof that Legendre's sum
//! computes it.

use vstd::arithmetic::div_mod::{
    lemma_fundamental_div_mod, lemma_fundamental_div_mod_converse, lemma_mod_multiples_basic,
};
use vstd::arithmetic::power::pow;
use vstd::prelude::*;
use crate::legendre::{legendre, legendre_partial};
use crate::primes::is_prime;

verus! {

/// `n! = 1 * 2 * ... * n`.
pub open spec fn factorial(n: nat) -> nat
    decreases n,
{
    if n == 0 {
        1
    } else {
        n * factorial((n - 1) as nat)
    }
}

/// The number of times `p` divides `m`: the largest `e` with `p^e` dividing
/// `m` (taken as 0 for `m == 0` or `p < 2`).
pub open spec fn multiplicity(p: nat, m: nat) -> nat
    decreases m,
    via multiplicity_decreases
{
    if p >= 2 && m > 0 && m % p == 0 {
        1 + multiplicity(p, m / p)
    } else {
        0
    }
}

#[via_fn]
proof fn multiplicity_decreases(p: nat, m: nat) {
    if p >= 2 && m > 0 {
        assert(m / p < m) by (nonlinear_arith)
            requires
                p >= 2,
                m > 0,
        ;
    }
}

/// `x` is a multiple of `p` exactly when it is `p` times something.
proof fn lemma_multiple(x: int, p: int, c: int)
    requires
        p > 0,
        x == p * c,
    ensures
        x % p == 0,
{
    lemma_mod_multiples_basic(c, p);
    assert(c * p == p * c) by (nonlinear_arith);
}

/// Euclid's lemma: a prime that divides a product divides one of its factors.
pub proof fn lemma_euclid(p: nat, a: nat, b: nat)
    requires
        is_prime(p),
        (a * b) % p == 0,
    ensures
        a % p == 0 || b % p == 0,
    decreases a,
{
    if a % p != 0 {
        let pi = p as int;
        lemma_fundamental_div_mod(a as int, pi);
        lemma_fundamental_div_mod((a * b) as int, pi);
        let q = a as int / pi;
        let r = a as int % pi;
        let c = (a * b) as int / pi;
        assert(r * b == pi * (c - q * b)) by (nonlinear_arith)
            requires
                a == pi * q + r,
                a * b == pi * c + 0,
        ;
        lemma_multiple(r * b, pi, c - q * b);
        if r == 1 {
            assert(b % p == 0);
        } else {
            assert(p % (r as nat) != 0);
            lemma_fundamental_div_mod(pi, r);
            let t = pi / r;
            let s = pi % r;
            assert(s * b == pi * (b - t * ((c - q * b)))) by (nonlinear_arith)
                requires
                    pi == r * t + s,
                    r * b == pi * (c - q * b),
            ;
            lemma_multiple(s * b, pi, b - t * (c - q * b));
            lemma_fundamental_div_mod_converse(s, pi, 0, s);
            lemma_euclid(p, s as nat, b);
        }
    }
}

/// The multiplicity of a prime in a product is the sum of its multiplicities
/// in the factors.
pub proof fn lemma_multiplicity_product(p: nat, a: nat, b: nat)
    requires
        is_prime(p),
        a > 0,
        b > 0,
    ensures
        multiplicity(p, a * b) == multiplicity(p, a) + multiplicity(p, b),
    decreases a + b,
{
    let pi = p as int;
    assert(a * b > 0) by (nonlinear_arith)
        requires
            a > 0,
            b > 0,
    ;
    if (a * b) % p != 0 {
        if a % p == 0 {
            lemma_fundamental_div_mod(a as int, pi);
            assert(a * b == pi * ((a as int / pi) * b)) by (nonlinear_arith)
                requires
                    a == pi * (a as int / pi) + 0,
            ;
            lemma_multiple((a * b) as int, pi, (a as int / pi) * b);
        }
        if b % p == 0 {
            lemma_fundamental_div_mod(b as int, pi);
            assert(a * b == pi * (a * (b as int / pi))) by (nonlinear_arith)
                requires
                    b == pi * (b as int / pi) + 0,
            ;
            lemma_multiple((a * b) as int, pi, a * (b as int / pi));
        }
    } else {
        lemma_euclid(p, a, b);
        if a % p == 0 {
            lemma_fundamental_div_mod(a as int, pi);
            let a1 = a / p;
            assert(a == p * a1);
            assert(a1 > 0 && a1 < a) by (nonlinear_arith)
                requires
                    a == p * a1,
                    a > 0,
                    p >= 2,
            ;
            assert(a * b == p * (a1 * b)) by (nonlinear_arith)
                requires
                    a == p * a1,
            ;
            vstd::arithmetic::div_mod::lemma_div_multiples_vanish((a1 * b) as int, pi);
            lemma_multiplicity_product(p, a1, b);
        } else {
            lemma_fundamental_div_mod(b as int, pi);
            let b1 = b / p;
            assert(b == p * b1);
            assert(b1 > 0 && b1 < b) by (nonlinear_arith)
                requires
                    b == p * b1,
                    b > 0,
                    p >= 2,
            ;
            assert(a * b == p * (a * b1)) by (nonlinear_arith)
                requires
                    b == p * b1,
            ;
            vstd::arithmetic::div_mod::lemma_div_multiples_vanish((a * b1) as int, pi);
            lemma_multiplicity_product(p, a, b1);
        }
    }
}

/// `p^k` divides `n > 0` exactly when `k` is at most the multiplicity of `p` in `n`.
proof fn lemma_power_divides(p: nat, n: nat, k: nat)
    requires
        p >= 2,
        n > 0,
        k >= 1,
    ensures
        (n as int % pow(p as int, k) == 0) == (k <= multiplicity(p, n)),
    decreases k,
{
    let pi = p as int;
    vstd::arithmetic::power::lemma_pow_adds(pi, 1, (k - 1) as nat);
    vstd::arithmetic::power::lemma_pow1(pi);
    vstd::arithmetic::power::lemma_pow_positive(pi, (k - 1) as nat);
    let rest = pow(pi, (k - 1) as nat);
    assert(pow(pi, k) == pi * rest);
    if k == 1 {
        vstd::arithmetic::power::lemma_pow0(pi);
        assert(pi * 1 == pi);
    } else {
        vstd::arithmetic::div_mod::lemma_mod_breakdown(n as int, pi, rest);
        let m = n as int % (pi * rest);
        let inner = (n as int / pi) % rest;
        vstd::arithmetic::div_mod::lemma_mod_pos_bound(n as int / pi, rest);
        if n % p == 0 {
            lemma_fundamental_div_mod(n as int, pi);
            assert(n / p > 0) by (nonlinear_arith)
                requires
                    n == p * (n / p) + 0,
                    n > 0,
            ;
            lemma_power_divides(p, n / p, (k - 1) as nat);
            assert((m == 0) == (inner == 0)) by (nonlinear_arith)
                requires
                    m == pi * inner + 0,
                    pi >= 2,
            ;
        } else {
            assert(m != 0) by (nonlinear_arith)
                requires
                    m == pi * inner + (n as int % pi),
                    n as int % pi > 0,
                    inner >= 0,
                    pi >= 2,
            ;
        }
    }
}

/// Going from `n - 1` to `n`, the quotient by `q` grows by one exactly when
/// `q` divides `n`.
proof fn lemma_quotient_step(n: int, q: int)
    requires
        n > 0,
        q > 0,
    ensures
        n / q == (n - 1) / q + (if n % q == 0 { 1int } else { 0 }),
{
    lemma_fundamental_div_mod(n - 1, q);
    vstd::arithmetic::div_mod::lemma_mod_pos_bound(n - 1, q);
    let a = (n - 1) / q;
    let r = (n - 1) % q;
    if r == q - 1 {
        assert(n == (a + 1) * q + 0) by (nonlinear_arith)
            requires
                n - 1 == q * a + r,
                r == q - 1,
        ;
        lemma_fundamental_div_mod_converse(n, q, a + 1, 0);
    } else {
        assert(n == a * q + (r + 1)) by (nonlinear_arith)
            requires
                n - 1 == q * a + r,
        ;
        lemma_fundamental_div_mod_converse(n, q, a, r + 1);
    }
}

/// The first `k` terms of Legendre's sum for `n` exceed those for `n - 1` by
/// the number of powers `p^1, ..., p^k` that divide `n`.
proof fn lemma_legendre_partial_step(n: nat, p: nat, k: nat)
    requires
        p >= 2,
        n > 0,
    ensures
        legendre_partial(n, p, k) == legendre_partial((n - 1) as nat, p, k) + (if k
            <= multiplicity(p, n) {
            k
        } else {
            multiplicity(p, n)
        }),
    decreases k,
{
    if k > 0 {
        lemma_legendre_partial_step(n, p, (k - 1) as nat);
        vstd::arithmetic::power::lemma_pow_positive(p as int, k);
        lemma_quotient_step(n as int, pow(p as int, k));
        lemma_power_divides(p, n, k);
    }
}

/// `p^k > k` for `p >= 2`.
proof fn lemma_power_exceeds(p: nat, k: nat)
    requires
        p >= 2,
    ensures
        pow(p as int, k) > k,
    decreases k,
{
    if k == 0 {
        vstd::arithmetic::power::lemma_pow0(p as int);
    } else {
        lemma_power_exceeds(p, (k - 1) as nat);
        vstd::arithmetic::power::lemma_pow_adds(p as int, 1, (k - 1) as nat);
        vstd::arithmetic::power::lemma_pow1(p as int);
        let prev = pow(p as int, (k - 1) as nat);
        assert(p * prev > k) by (nonlinear_arith)
            requires
                prev > k - 1,
                p >= 2,
                k >= 1,
        ;
    }
}

/// The multiplicity of `p` in `m` is at most `m`.
proof fn lemma_multiplicity_bound(p: nat, m: nat)
    ensures
        multiplicity(p, m) <= m,
    decreases m,
{
    if p >= 2 && m > 0 && m % p == 0 {
        assert(m / p < m) by (nonlinear_arith)
            requires
                p >= 2,
                m > 0,
        ;
        lemma_multiplicity_bound(p, m / p);
    }
}

/// Legendre's sum for `n` is that for `n - 1` plus the multiplicity of `p` in `n`.
proof fn lemma_legendre_step(n: nat, p: nat)
    requires
        p >= 2,
        n > 0,
    ensures
        legendre(n, p) == legendre((n - 1) as nat, p) + multiplicity(p, n),
{
    lemma_legendre_partial_step(n, p, n);
    lemma_multiplicity_bound(p, n);
    lemma_power_exceeds(p, n);
    let m = (n - 1) as int;
    vstd::arithmetic::div_mod::lemma_basic_div(m, pow(p as int, n));
}

/// `n!` is positive.
proof fn lemma_factorial_positive(n: nat)
    ensures
        factorial(n) > 0,
    decreases n,
{
    if n > 0 {
        lemma_factorial_positive((n - 1) as nat);
        assert(n * factorial((n - 1) as nat) > 0) by (nonlinear_arith)
            requires
                n > 0,
                factorial((n - 1) as nat) > 0,
        ;
    }
}

/// Legendre's formula: for a prime `p`, the sum `n / p + n / p^2 + ...` is the
/// multiplicity of `p` in `n!`.
pub proof fn lemma_legendre_formula(n: nat, p: nat)
    requires
        is_prime(p),
    ensures
        legendre(n, p) == multiplicity(p, factorial(n)),
    decreases n,
{
    if n == 0 {
        assert(1nat % p == 1) by (nonlinear_arith)
            requires
                p >= 2,
        ;
    } else {
        let prev = (n - 1) as nat;
        lemma_legendre_formula(prev, p);
        lemma_factorial_positive(prev);
        lemma_multiplicity_product(p, n, factorial(prev));
        lemma_legendre_step(n, p);
    }
}

} // verus!
