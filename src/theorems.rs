//! What holds of the factorizations and of the cache across calls, stated
//! over the contracts of `FactorialEngine`.

use vstd::arithmetic::power::pow;
use vstd::prelude::*;
use crate::engine::{cache_after, cache_wf, factorial_factorization};
use crate::legendre::{legendre, legendre_partial, lemma_legendre_bound, lemma_legendre_tail};
use crate::multiplicity::{factorial, lemma_legendre_formula, multiplicity};
use crate::primes::{
    is_prime, lemma_primes_upto, lemma_primes_upto_gap, lemma_primes_upto_prefix, primes_upto,
};

verus! {

/// `0!` and `1!` have no prime factors: their factorization is empty.
pub proof fn lemma_small_factorial_empty(n: u64)
    requires
        n < 2,
    ensures
        factorial_factorization(n) == Map::<u64, u64>::empty(),
{
    assert(factorial_factorization(n) =~= Map::<u64, u64>::empty());
}

/// Every key of the factorization of `n!` is a prime no larger than `n`, and
/// its value is exactly Legendre's sum `n / p + n / p^2 + ...`, which is the
/// number of times `p` divides `n!`.
pub proof fn lemma_factorization_entries(n: u64)
    ensures
        forall|p: u64| #[trigger]
            factorial_factorization(n).contains_key(p) ==> p <= n && is_prime(p as nat)
                && factorial_factorization(n)[p] as nat == legendre(n as nat, p as nat)
                && factorial_factorization(n)[p] as nat == multiplicity(p as nat, factorial(n as nat)),
{
    assert forall|p: u64| #[trigger]
        factorial_factorization(n).contains_key(p) implies p <= n && is_prime(p as nat)
            && factorial_factorization(n)[p] as nat == legendre(n as nat, p as nat)
            && factorial_factorization(n)[p] as nat == multiplicity(p as nat, factorial(n as nat)) by {
        lemma_legendre_bound(n as nat, p as nat);
        lemma_legendre_formula(n as nat, p as nat);
    }
}

/// Legendre's sum only grows with the number of terms taken.
proof fn lemma_legendre_partial_grows(n: nat, p: nat, k: nat, m: nat)
    requires
        p >= 2,
        k <= m,
    ensures
        legendre_partial(n, p, k) <= legendre_partial(n, p, m),
    decreases m,
{
    if k < m {
        lemma_legendre_partial_grows(n, p, k, (m - 1) as nat);
        vstd::arithmetic::power::lemma_pow_positive(p as int, m);
        assert(n as int / pow(p as int, m) >= 0) by (nonlinear_arith)
            requires
                pow(p as int, m) > 0,
        ;
    }
}

/// No prime above `n` and no prime that does not divide `n!` is a key of the
/// factorization of `n!`; every prime `p <= n` is one.
pub proof fn lemma_factorization_keys(n: u64)
    ensures
        forall|p: u64| p > n ==> !#[trigger] factorial_factorization(n).contains_key(p),
        forall|p: u64|
            is_prime(p as nat) && multiplicity(p as nat, factorial(n as nat)) == 0
                ==> !#[trigger] factorial_factorization(n).contains_key(p),
        forall|p: u64|
            p <= n && is_prime(p as nat) ==> #[trigger] factorial_factorization(n).contains_key(p),
{
    assert forall|p: u64|
        is_prime(p as nat) && multiplicity(p as nat, factorial(n as nat)) == 0
            implies !#[trigger] factorial_factorization(n).contains_key(p) by {
        lemma_legendre_formula(n as nat, p as nat);
    }
    assert forall|p: u64| p <= n && is_prime(p as nat) implies #[trigger] factorial_factorization(
        n,
    ).contains_key(p) by {
        lemma_legendre_partial_grows(n as nat, p as nat, 1, n as nat);
        vstd::arithmetic::power::lemma_pow1(p as int);
        assert(legendre_partial(n as nat, p as nat, 0) == 0);
        assert(legendre_partial(n as nat, p as nat, 1) == n as nat / p as nat);
        assert(n as nat / p as nat >= 1) by (nonlinear_arith)
            requires
                p <= n,
                p >= 2,
        ;
    }
}

/// The factorization of `n!` is exact: for every prime `p`, the number of
/// times `p` divides `n!` is its value in the map, or 0 where it is no key.
pub proof fn lemma_factorization_exact(n: u64)
    ensures
        forall|p: nat|
            is_prime(p) ==> #[trigger] multiplicity(p, factorial(n as nat)) == if p <= n
                && factorial_factorization(n).contains_key(p as u64) {
                factorial_factorization(n)[p as u64] as nat
            } else {
                0
            },
{
    lemma_factorization_entries(n);
    lemma_factorization_keys(n);
    assert forall|p: nat| is_prime(p) implies #[trigger] multiplicity(p, factorial(n as nat)) == if p
        <= n && factorial_factorization(n).contains_key(p as u64) {
        factorial_factorization(n)[p as u64] as nat
    } else {
        0
    } by {
        lemma_legendre_formula(n as nat, p);
        if p > n {
            vstd::arithmetic::power::lemma_pow1(p as int);
            lemma_legendre_tail(n as nat, p, 0, n as nat);
        } else {
            assert(factorial_factorization(n).contains_key(p as u64));
        }
    }
}

/// Two factorizations of `n!` in a row give the same map, and the second
/// leaves the cache as the first left it.
pub proof fn lemma_repeat_call(n: u64, c0: Seq<u64>, r1: Map<u64, u64>, r2: Map<u64, u64>)
    requires
        cache_wf(c0),
        r1 == factorial_factorization(n),
        r2 == factorial_factorization(n),
    ensures
        r1 == r2,
        cache_after(cache_after(c0, n), n) == cache_after(c0, n),
{
}

/// A cache is a prefix of what any factorization leaves: it never shrinks.
pub proof fn lemma_cache_grows(c: Seq<u64>, n: u64)
    requires
        cache_wf(c),
    ensures
        c.len() <= cache_after(c, n).len(),
        cache_after(c, n).take(c.len() as int) == c,
{
    if cache_after(c, n) == c {
        assert(c.take(c.len() as int) =~= c);
    } else if c.len() == 0 {
        assert(cache_after(c, n).take(0) =~= c);
    } else {
        lemma_primes_upto_prefix(c.last(), n);
        assert(cache_after(c, n).take(c.len() as int) =~= primes_upto(n).subrange(0, c.len() as int));
    }
}

/// After a factorization of `n1!`, one of a smaller `n2!` leaves the cache as
/// it is, and the cache never shrank from where it started.
pub proof fn lemma_smaller_call_reuses_cache(n1: u64, n2: u64, c0: Seq<u64>)
    requires
        cache_wf(c0),
        n2 < n1,
    ensures
        cache_after(cache_after(c0, n1), n2) == cache_after(c0, n1),
        c0.len() <= cache_after(cache_after(c0, n1), n2).len(),
        cache_after(cache_after(c0, n1), n2).take(c0.len() as int) == c0,
{
    lemma_cache_grows(c0, n1);
    let c1 = cache_after(c0, n1);
    if n2 >= 2 && !(c0.len() > 0 && c0.last() >= n1) {
        let s = primes_upto(n1);
        lemma_primes_upto(n1);
        assert(is_prime(2));
        assert(s.contains(2));
        if s.last() < n2 {
            assert forall|p: u64| n2 < p <= n1 implies !is_prime(p as nat) by {
                if is_prime(p as nat) {
                    assert(s.contains(p));
                    let k = choose|k: int| 0 <= k < s.len() && s[k] == p;
                    assert(s[k] <= s[s.len() - 1]);
                }
            }
            lemma_primes_upto_gap(n2, n1);
        }
    }
}

} // verus!
