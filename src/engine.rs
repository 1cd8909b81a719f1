//! The engine: a cache of primes, grown by a sieve, and the factorization of
//! `n!` read off it.

use std::collections::HashMap;
use vstd::arithmetic::power::pow;
use vstd::prelude::*;
use crate::legendre::{legendre, legendre_partial, lemma_legendre_partial_bound, lemma_legendre_tail};
use crate::primes::{
    is_prime, lemma_multiple_of_composite, lemma_next_multiple, lemma_primes_upto,
    lemma_primes_upto_last, lemma_survives_step, lemma_survivor_is_prime, primes_upto,
    strictly_increasing, survives,
};

verus! {

/// Computes the prime factorization of factorials. It keeps the primes found
/// so far, so that later calls reuse them.
pub struct FactorialEngine {
    primes_cache: Vec<u64>,
}

/// A cache is well formed when it is empty or is the full list of primes up
/// to its own largest entry.
pub open spec fn cache_wf(c: Seq<u64>) -> bool {
    c.len() == 0 || c == primes_upto(c.last())
}

/// The prime factorization of `n!`: each prime `p <= n` whose exponent in
/// `n!` (Legendre's sum) is nonzero, mapped to that exponent.
pub open spec fn factorial_factorization(n: u64) -> Map<u64, u64> {
    Map::new(
        |p: u64| p <= n && is_prime(p as nat) && legendre(n as nat, p as nat) > 0,
        |p: u64| legendre(n as nat, p as nat) as u64,
    )
}

/// The exponents in `n!` of the entries of `s`, where nonzero.
pub open spec fn exponents_of(n: u64, s: Seq<u64>) -> Map<u64, u64> {
    Map::new(
        |p: u64| s.contains(p) && legendre(n as nat, p as nat) > 0,
        |p: u64| legendre(n as nat, p as nat) as u64,
    )
}

/// How a factorization of `n!` leaves the cache: unchanged where it already
/// reaches `n` (or `n < 2`), else the primes up to `n`.
pub open spec fn cache_after(before: Seq<u64>, n: u64) -> Seq<u64> {
    if n < 2 || (before.len() > 0 && before.last() >= n) {
        before
    } else {
        primes_upto(n)
    }
}

impl FactorialEngine {
    /// The cached primes, in ascending order.
    pub closed spec fn cache(&self) -> Seq<u64> {
        self.primes_cache@
    }

    /// The engine's invariant: its cache is well formed.
    pub open spec fn wf(&self) -> bool {
        cache_wf(self.cache())
    }

    /// Fills the cache with every prime up to `limit`, replacing what was there.
    fn sieve_primes(&mut self, limit: u64)
        requires
            limit < usize::MAX,
        ensures
            final(self).cache() == primes_upto(limit),
            final(self).wf(),
    {
        if limit < 2 {
            self.primes_cache = Vec::new();
            return;
        }
        let size = (limit + 1) as usize;
        let mut marks: Vec<bool> = vec![true; size];
        marks.set(0, false);
        marks.set(1, false);
        let mut p: u64 = 2;
        while p <= limit / p
            invariant
                2 <= p <= limit,
                limit < usize::MAX,
                marks@.len() == limit + 1,
                forall|i: int| 0 <= i <= limit ==> #[trigger] marks@[i] == survives(i as nat, p as nat),
            decreases limit - p,
        {
            assert(p * p <= limit) by (nonlinear_arith)
                requires
                    p <= limit / p,
                    p >= 2,
            ;
            if marks[p as usize] {
                let mut i: u64 = p * p;
                proof {
                    vstd::arithmetic::div_mod::lemma_mod_multiples_basic(p as int, p as int);
                }
                loop
                    invariant_except_break
                        forall|j: int|
                            0 <= j <= limit ==> #[trigger] marks@[j] == (survives(j as nat, p as nat) && !(
                            p * p <= j < i && j % p as int == 0)),
                    invariant
                        2 <= p,
                        limit < usize::MAX,
                        p * p <= i <= limit,
                        i % p == 0,
                        marks@.len() == limit + 1,
                    ensures
                        marks@.len() == limit + 1,
                        forall|j: int|
                            0 <= j <= limit ==> #[trigger] marks@[j] == survives(j as nat, (p + 1) as nat),
                    decreases limit - i,
                {
                    let ghost before = marks@;
                    marks.set(i as usize, false);
                    if limit - i < p {
                        assert forall|j: int| 0 <= j <= limit implies #[trigger] marks@[j] == survives(
                            j as nat,
                            (p + 1) as nat,
                        ) by {
                            if p * p <= j && j % p as int == 0 && j > i {
                                lemma_next_multiple(i as int, j as int, p as int);
                            }
                            assert(marks@[j] == if j == i { false } else { before[j] });
                            lemma_survives_step(j as nat, p as nat);
                        }
                        break;
                    }
                    proof {
                        vstd::arithmetic::div_mod::lemma_mod_adds(i as int, p as int, p as int);
                        vstd::arithmetic::div_mod::lemma_mod_self_0(p as int);
                    }
                    assert forall|j: int| 0 <= j <= limit implies #[trigger] marks@[j] == (survives(
                        j as nat,
                        p as nat,
                    ) && !(p * p <= j < i + p && j % p as int == 0)) by {
                        assert(marks@[j] == if j == i { false } else { before[j] });
                        if i < j < i + p && j % p as int == 0 {
                            lemma_next_multiple(i as int, j as int, p as int);
                        }
                    }
                    i = i + p;
                }
            } else {
                assert(!marks@[p as int]);
                assert forall|j: int| 0 <= j <= limit implies #[trigger] marks@[j] == survives(
                    j as nat,
                    (p + 1) as nat,
                ) by {
                    assert(marks@[p as int] == survives(p as nat, p as nat));
                    if p * p <= j && j % p as int == 0 {
                        lemma_multiple_of_composite(j as nat, p as nat);
                    }
                    lemma_survives_step(j as nat, p as nat);
                }
            }
            assert(p + 1 <= limit) by (nonlinear_arith)
                requires
                    p * p <= limit,
                    p >= 2,
            ;
            p = p + 1;
        }
        assert forall|j: int| 0 <= j <= limit implies #[trigger] marks@[j] == is_prime(j as nat) by {
            assert(limit < p * p) by (nonlinear_arith)
                requires
                    p > limit / p,
                    p >= 2,
            ;
            lemma_survivor_is_prime(j as nat, p as nat);
        }
        let mut found: Vec<u64> = Vec::new();
        let mut i: u64 = 2;
        while i <= limit
            invariant
                2 <= i <= limit + 1,
                limit < usize::MAX,
                marks@.len() == limit + 1,
                forall|j: int| 0 <= j <= limit ==> #[trigger] marks@[j] == is_prime(j as nat),
                found@ == primes_upto((i - 1) as u64),
            decreases limit + 1 - i,
        {
            if marks[i as usize] {
                found.push(i);
            }
            i = i + 1;
        }
        self.primes_cache = found;
        proof {
            lemma_primes_upto_last(limit);
        }
    }

    /// The exponent of the prime `p` in `n!`, by Legendre's formula. The
    /// running power stops before it would overflow: by then it exceeds `n`,
    /// so every term left out is zero.
    fn calculate_exponent(&self, n: u64, p: u64) -> (r: u64)
        requires
            p >= 2,
        ensures
            r == legendre(n as nat, p as nat),
    {
        let mut exponent: u64 = 0;
        let mut p_power: u64 = p;
        let ghost mut k: nat = 1;
        proof {
            vstd::arithmetic::power::lemma_pow1(p as int);
        }
        loop
            invariant_except_break
                exponent == legendre_partial(n as nat, p as nat, (k - 1) as nat),
            invariant
                p >= 2,
                k >= 1,
                k <= p_power,
                k - 1 <= n,
                p_power == pow(p as int, k),
            ensures
                exponent == legendre(n as nat, p as nat),
            decreases u64::MAX - p_power,
        {
            if p_power > n {
                proof {
                    assert(((k - 1) as nat) + 1 == k);
                    lemma_legendre_tail(n as nat, p as nat, (k - 1) as nat, n as nat);
                }
                break;
            }
            proof {
                lemma_legendre_partial_bound(n as nat, p as nat, (k - 1) as nat);
                vstd::arithmetic::power::lemma_pow_adds(p as int, k, 1);
                vstd::arithmetic::power::lemma_pow1(p as int);
            }
            exponent = exponent + n / p_power;
            if p > u64::MAX / p_power {
                proof {
                    assert(p_power * p > u64::MAX) by (nonlinear_arith)
                        requires
                            p > u64::MAX / p_power,
                            p_power > 0,
                    ;
                    lemma_legendre_tail(n as nat, p as nat, k, n as nat);
                }
                break;
            }
            proof {
                assert(p_power * p >= k + 1) by (nonlinear_arith)
                    requires
                        k <= p_power,
                        p >= 2,
                        k >= 1,
                ;
                assert(p_power * p <= u64::MAX) by (nonlinear_arith)
                    requires
                        p <= u64::MAX / p_power,
                        p_power > 0,
                ;
                assert(p_power * p > p_power) by (nonlinear_arith)
                    requires
                        p_power >= 1,
                        p >= 2,
                ;
                k = k + 1;
            }
            p_power = p_power * p;
        }
        exponent
    }

    /// Creates an engine; with `Some(limit)` its cache holds the primes up to
    /// `limit` from the start, with `None` it starts empty.
    pub fn new(sieve_up_to: Option<u64>) -> (r: Self)
        requires
            sieve_up_to matches Some(limit) ==> limit < usize::MAX,
        ensures
            r.wf(),
            r.cache() == match sieve_up_to {
                Some(limit) => primes_upto(limit),
                None => Seq::<u64>::empty(),
            },
    {
        let mut engine = FactorialEngine { primes_cache: Vec::new() };
        if let Some(limit) = sieve_up_to {
            engine.sieve_primes(limit);
        }
        engine
    }

    /// The prime factorization of `n!`, as a map from prime to exponent. The
    /// cache is sieved anew up to `n` only where it does not reach `n` yet.
    pub fn get_factorial_factorization(&mut self, n: u64) -> (r: HashMap<u64, u64>)
        requires
            old(self).wf(),
            n < usize::MAX,
        ensures
            final(self).wf(),
            final(self).cache() == cache_after(old(self).cache(), n),
            r@ == factorial_factorization(n),
    {
        broadcast use vstd::std_specs::hash::group_hash_axioms;

        if n < 2 {
            let empty: HashMap<u64, u64> = HashMap::new();
            assert(empty@ =~= factorial_factorization(n));
            return empty;
        }
        let len = self.primes_cache.len();
        let ghost top: u64 = if len == 0 || self.primes_cache@.last() < n {
            n
        } else {
            self.primes_cache@.last()
        };
        if len == 0 || self.primes_cache[len - 1] < n {
            self.sieve_primes(n);
        }
        proof {
            lemma_primes_upto(top);
        }
        let mut factorization: HashMap<u64, u64> = HashMap::new();
        let mut i: usize = 0;
        while i < self.primes_cache.len() && self.primes_cache[i] <= n
            invariant
                self.wf(),
                self.cache() == cache_after(old(self).cache(), n),
                n <= top,
                self.primes_cache@ == primes_upto(top),
                strictly_increasing(self.primes_cache@),
                forall|j: int|
                    0 <= j < self.primes_cache@.len() ==> is_prime(#[trigger] self.primes_cache@[j] as nat)
                        && self.primes_cache@[j] <= top,
                forall|p: u64| p <= top && is_prime(p as nat) ==> #[trigger] self.primes_cache@.contains(p),
                i <= self.primes_cache@.len(),
                i > 0 ==> self.primes_cache@[i - 1] <= n,
                factorization@ == exponents_of(n, self.primes_cache@.take(i as int)),
            decreases self.primes_cache@.len() - i,
        {
            let p = self.primes_cache[i];
            let exponent = self.calculate_exponent(n, p);
            let ghost before = self.primes_cache@.take(i as int);
            let ghost after = self.primes_cache@.take(i + 1);
            assert(after =~= before.push(p));
            assert forall|q: u64| after.contains(q) <==> (before.contains(q) || q == p) by {
                if after.contains(q) && q != p {
                    let k = choose|k: int| 0 <= k < after.len() && after[k] == q;
                    assert(before[k] == q);
                }
                if q == p {
                    assert(after[i as int] == q);
                }
                if before.contains(q) {
                    let k = choose|k: int| 0 <= k < before.len() && before[k] == q;
                    assert(after[k] == q);
                }
            }
            if exponent > 0 {
                factorization.insert(p, exponent);
                assert(factorization@ =~= exponents_of(n, after));
            } else {
                assert(factorization@ =~= exponents_of(n, after));
            }
            i = i + 1;
        }
        proof {
            let c = self.primes_cache@;
            let done = c.take(i as int);
            assert forall|p: u64| done.contains(p) <==> (p <= n && is_prime(p as nat)) by {
                if done.contains(p) {
                    let k = choose|k: int| 0 <= k < done.len() && done[k] == p;
                    assert(c[k] == p);
                    assert(c[k] <= c[i - 1]);
                }
                if p <= n && is_prime(p as nat) {
                    assert(c.contains(p));
                    let k = choose|k: int| 0 <= k < c.len() && c[k] == p;
                    if k >= i {
                        assert(c[i as int] <= c[k]);
                    }
                    assert(done[k] == p);
                }
            }
            assert(factorization@ =~= factorial_factorization(n));
        }
        factorization
    }

    /// The cached primes, in ascending order.
    pub fn cached_primes(&self) -> (r: &[u64])
        ensures
            r@ == self.cache(),
    {
        self.primes_cache.as_slice()
    }
}

} // verus!
