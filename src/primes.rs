//! Primality, the ascending list of primes up to a bound, and the facts
//! about that list that the sieve and the engine rely on.

use vstd::prelude::*;

verus! {

/// `n` is prime: at least 2, and no `d` with `2 <= d < n` divides it.
pub open spec fn is_prime(n: nat) -> bool {
    n >= 2 && forall|d: nat| 2 <= d < n ==> #[trigger] (n % d) != 0
}

/// The primes in `[2, limit]`, in ascending order.
pub open spec fn primes_upto(limit: u64) -> Seq<u64>
    decreases limit,
{
    if limit < 2 {
        Seq::empty()
    } else if is_prime(limit as nat) {
        primes_upto((limit - 1) as u64).push(limit)
    } else {
        primes_upto((limit - 1) as u64)
    }
}

/// `s` is strictly increasing.
pub open spec fn strictly_increasing(s: Seq<u64>) -> bool {
    forall|i: int, j: int| 0 <= i < j < s.len() ==> s[i] < s[j]
}

/// The list of primes up to `limit` is strictly increasing, holds only primes
/// no larger than `limit`, and holds every such prime.
pub proof fn lemma_primes_upto(limit: u64)
    ensures
        strictly_increasing(primes_upto(limit)),
        forall|i: int|
            0 <= i < primes_upto(limit).len() ==> is_prime(#[trigger] primes_upto(limit)[i] as nat)
                && primes_upto(limit)[i] <= limit,
        forall|p: u64| p <= limit && is_prime(p as nat) ==> #[trigger] primes_upto(limit).contains(p),
    decreases limit,
{
    if limit >= 2 {
        let prev = (limit - 1) as u64;
        lemma_primes_upto(prev);
        let s = primes_upto(limit);
        let t = primes_upto(prev);
        assert forall|p: u64| p <= limit && is_prime(p as nat) implies #[trigger] s.contains(p) by {
            if p < limit {
                assert(t.contains(p));
                let k = choose|k: int| 0 <= k < t.len() && t[k] == p;
                assert(s[k] == p);
            } else {
                assert(s[s.len() - 1] == p);
            }
        }
    }
}

/// Where no prime lies in `(a, b]`, the lists up to `a` and up to `b` agree.
pub proof fn lemma_primes_upto_gap(a: u64, b: u64)
    requires
        a <= b,
        forall|p: u64| a < p <= b ==> !is_prime(p as nat),
    ensures
        primes_upto(b) == primes_upto(a),
    decreases b,
{
    if b > a {
        lemma_primes_upto_gap(a, (b - 1) as u64);
    }
}

/// The list up to a smaller bound is a prefix of the list up to a larger one.
pub proof fn lemma_primes_upto_prefix(a: u64, b: u64)
    requires
        a <= b,
    ensures
        primes_upto(a).len() <= primes_upto(b).len(),
        primes_upto(b).subrange(0, primes_upto(a).len() as int) == primes_upto(a),
    decreases b,
{
    if b > a {
        lemma_primes_upto_prefix(a, (b - 1) as u64);
        let prev = primes_upto((b - 1) as u64);
        let n = primes_upto(a).len() as int;
        if b >= 2 && is_prime(b as nat) {
            assert(primes_upto(b).subrange(0, n) =~= prev.subrange(0, n));
        }
    } else {
        assert(primes_upto(b).subrange(0, primes_upto(b).len() as int) =~= primes_upto(b));
    }
}

/// No `d` with `2 <= d < p` and `d * d <= i` divides `i`, and `i >= 2`: what
/// the sieve knows of `i` once every candidate below `p` has been crossed off.
pub open spec fn survives(i: nat, p: nat) -> bool {
    i >= 2 && forall|d: nat| 2 <= d < p && d * d <= i ==> #[trigger] (i % d) != 0
}

/// Surviving `p` as well means surviving what came before and not being a
/// multiple of `p` from `p * p` on.
pub proof fn lemma_survives_step(j: nat, p: nat)
    requires
        p >= 2,
    ensures
        survives(j, p + 1) == (survives(j, p) && !(p * p <= j && j % p == 0)),
{
    if survives(j, p) && !(p * p <= j && j % p == 0) {
        assert forall|d: nat| 2 <= d < p + 1 && d * d <= j implies #[trigger] (j % d) != 0 by {
            if d < p {
                assert(j % d != 0);
            }
        }
    }
    if survives(j, p + 1) && p * p <= j {
        assert(j % p != 0);
    }
}

/// Once `p * p` exceeds `i`, surviving every candidate below `p` is primality.
pub proof fn lemma_survivor_is_prime(i: nat, p: nat)
    requires
        i < p * p,
    ensures
        survives(i, p) == is_prime(i),
{
    if is_prime(i) {
        assert forall|d: nat| 2 <= d < p && d * d <= i implies #[trigger] (i % d) != 0 by {
            assert(d < i) by (nonlinear_arith)
                requires
                    2 <= d,
                    d * d <= i,
            ;
        }
    }
    if survives(i, p) && !is_prime(i) {
        let d = choose|d: nat| 2 <= d < i && #[trigger] (i % d) == 0;
        let e = i / d;
        vstd::arithmetic::div_mod::lemma_fundamental_div_mod(i as int, d as int);
        assert(i == d * e);
        assert(e >= 2) by (nonlinear_arith)
            requires
                i == d * e,
                d < i,
                e >= 0,
        ;
        vstd::arithmetic::div_mod::lemma_mod_multiples_basic(d as int, e as int);
        assert((d * e) % e == 0) by (nonlinear_arith)
            requires
                (d as int * e as int) % e as int == 0,
        ;
        let m = if d <= e { d } else { e };
        assert(m * m <= i) by (nonlinear_arith)
            requires
                i == d * e,
                m == d || m == e,
                m <= d,
                m <= e,
        ;
        assert(m < p) by (nonlinear_arith)
            requires
                m * m <= i,
                i < p * p,
        ;
        assert(i % m == 0);
    }
}

/// Crossing off the multiples of `p` from `p * p` on: a composite `p` has
/// nothing left to cross off, for its multiples already have a smaller divisor.
pub proof fn lemma_multiple_of_composite(j: nat, p: nat)
    requires
        p >= 2,
        !survives(p, p),
        p * p <= j,
        j % p == 0,
    ensures
        !survives(j, p),
{
    let d = choose|d: nat| 2 <= d < p && d * d <= p && #[trigger] (p % d) == 0;
    vstd::arithmetic::div_mod::lemma_fundamental_div_mod(p as int, d as int);
    vstd::arithmetic::div_mod::lemma_fundamental_div_mod(j as int, p as int);
    let a = p / d;
    let b = j / p;
    assert(j == (a * b) * d) by (nonlinear_arith)
        requires
            p == d * a,
            j == p * b,
    ;
    vstd::arithmetic::div_mod::lemma_mod_multiples_basic((a * b) as int, d as int);
    assert(d * d <= j) by (nonlinear_arith)
        requires
            d * d <= p,
            p * p <= j,
            p >= 2,
    ;
    assert(j % d == 0);
}

/// A nonempty list of primes up to `limit` is also the list up to its own
/// largest entry: no prime lies between that entry and `limit`.
pub proof fn lemma_primes_upto_last(limit: u64)
    ensures
        primes_upto(limit).len() > 0 ==> primes_upto(limit) == primes_upto(primes_upto(limit).last()),
{
    let s = primes_upto(limit);
    if s.len() > 0 {
        lemma_primes_upto(limit);
        let top = s.last();
        assert(s[s.len() - 1] == top);
        assert forall|p: u64| top < p <= limit implies !is_prime(p as nat) by {
            if is_prime(p as nat) {
                assert(s.contains(p));
                let k = choose|k: int| 0 <= k < s.len() && s[k] == p;
                assert(s[k] <= s[s.len() - 1]);
            }
        }
        lemma_primes_upto_gap(top, limit);
    }
}

/// Of two multiples `i < j` of `p`, `j` is at least `i + p`.
pub proof fn lemma_next_multiple(i: int, j: int, p: int)
    requires
        0 <= i < j,
        p > 0,
        i % p == 0,
        j % p == 0,
    ensures
        j >= i + p,
{
    vstd::arithmetic::div_mod::lemma_fundamental_div_mod(i, p);
    vstd::arithmetic::div_mod::lemma_fundamental_div_mod(j, p);
    let a = i / p;
    let b = j / p;
    assert(b >= a + 1) by (nonlinear_arith)
        requires
            i == p * a,
            j == p * b,
            i < j,
            p > 0,
    ;
    assert(j >= i + p) by (nonlinear_arith)
        requires
            i == p * a,
            j == p * b,
            b >= a + 1,
            p > 0,
    ;
}

} // verus!
