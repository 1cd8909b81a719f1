//! Legendre's formula: the exponent of a prime `p` in `n!` is the sum over
//! `k >= 1` of `n / p^k`.

use vstd::prelude::*;
use vstd::arithmetic::power::pow;

verus! {

/// The first `k` terms of Legendre's sum: `n / p + n / p^2 + ... + n / p^k`.
pub open spec fn legendre_partial(n: nat, p: nat, k: nat) -> nat
    decreases k,
{
    if k == 0 {
        0
    } else {
        legendre_partial(n, p, (k - 1) as nat) + (n as int / pow(p as int, k)) as nat
    }
}

/// The exponent of `p` in `n!`: Legendre's sum with its first `n` terms, past
/// which (for `p >= 2`) every term is zero.
pub open spec fn legendre(n: nat, p: nat) -> nat {
    legendre_partial(n, p, n)
}

/// The terms shrink fast enough that the partial sum plus twice the next
/// term never exceeds `n`.
pub proof fn lemma_legendre_partial_bound(n: nat, p: nat, k: nat)
    requires
        p >= 2,
    ensures
        legendre_partial(n, p, k) + 2 * (n as int / pow(p as int, k + 1)) <= n,
    decreases k,
{
    vstd::arithmetic::power::lemma_pow_positive(p as int, k + 1);
    if k == 0 {
        vstd::arithmetic::power::lemma_pow1(p as int);
        assert(2 * (n as int / p as int) <= n) by (nonlinear_arith)
            requires
                p >= 2,
        ;
    } else {
        let km1 = (k - 1) as nat;
        lemma_legendre_partial_bound(n, p, km1);
        let q = n as int / pow(p as int, k);
        vstd::arithmetic::power::lemma_pow_positive(p as int, k);
        vstd::arithmetic::div_mod::lemma_div_denominator(n as int, pow(p as int, k), p as int);
        vstd::arithmetic::power::lemma_pow_adds(p as int, k, 1);
        vstd::arithmetic::power::lemma_pow1(p as int);
        assert(pow(p as int, k + 1) == pow(p as int, k) * p);
        assert(n as int / pow(p as int, k + 1) == q / p as int);
        assert(q >= 0) by (nonlinear_arith)
            requires
                pow(p as int, k) > 0,
                q == n as int / pow(p as int, k),
                n >= 0,
        ;
        assert(2 * (q / p as int) <= q) by (nonlinear_arith)
            requires
                p >= 2,
                q >= 0,
        ;
    }
}

/// Legendre's sum never exceeds `n`.
pub proof fn lemma_legendre_bound(n: nat, p: nat)
    requires
        p >= 2,
    ensures
        legendre(n, p) <= n,
{
    lemma_legendre_partial_bound(n, p, n);
    vstd::arithmetic::power::lemma_pow_positive(p as int, n + 1);
    assert(n as int / pow(p as int, n + 1) >= 0) by (nonlinear_arith)
        requires
            pow(p as int, n + 1) > 0,
    ;
}

/// Once `p^(k+1)` exceeds `n`, the terms after the `k`-th add nothing.
pub proof fn lemma_legendre_tail(n: nat, p: nat, k: nat, m: nat)
    requires
        p >= 2,
        k <= m,
        pow(p as int, k + 1) > n,
    ensures
        legendre_partial(n, p, m) == legendre_partial(n, p, k),
    decreases m,
{
    if m > k {
        lemma_legendre_tail(n, p, k, (m - 1) as nat);
        vstd::arithmetic::power::lemma_pow_increases(p, k + 1, m);
        assert(n as int / pow(p as int, m) == 0) by (nonlinear_arith)
            requires
                pow(p as int, m) > n,
                n >= 0,
        ;
    }
}

} // verus!
