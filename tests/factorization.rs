use std::collections::HashMap;

use factorial_engine::FactorialEngine;

fn map_of(pairs: &[(u64, u64)]) -> HashMap<u64, u64> {
    pairs.iter().cloned().collect()
}

#[test]
fn zero_and_one_have_no_factors() {
    let mut engine = FactorialEngine::new(None);
    assert!(engine.get_factorial_factorization(0).is_empty());
    assert!(engine.get_factorial_factorization(1).is_empty());
}

#[test]
fn small_inputs_leave_cache_untouched() {
    let mut engine = FactorialEngine::new(Some(20));
    let before = engine.cached_primes().to_vec();
    assert!(engine.get_factorial_factorization(1).is_empty());
    assert_eq!(engine.cached_primes(), before.as_slice());
}

#[test]
fn factorization_of_two() {
    let mut engine = FactorialEngine::new(None);
    assert_eq!(engine.get_factorial_factorization(2), map_of(&[(2, 1)]));
}

#[test]
fn factorization_of_five() {
    let mut engine = FactorialEngine::new(None);
    assert_eq!(engine.get_factorial_factorization(5), map_of(&[(2, 3), (3, 1), (5, 1)]));
}

#[test]
fn factorization_of_ten() {
    let mut engine = FactorialEngine::new(None);
    assert_eq!(
        engine.get_factorial_factorization(10),
        map_of(&[(2, 8), (3, 4), (5, 2), (7, 1)])
    );
}

#[test]
fn factorization_of_fifty() {
    let mut engine = FactorialEngine::new(Some(100));
    let factors = engine.get_factorial_factorization(50);
    assert_eq!(factors.get(&2), Some(&47));
    assert_eq!(factors.get(&3), Some(&22));
    assert_eq!(factors.get(&5), Some(&12));
    assert_eq!(factors.get(&7), Some(&8));
    assert_eq!(factors.get(&47), Some(&1));
    assert_eq!(factors.get(&53), None);
    assert_eq!(factors.len(), 15);
}

#[test]
fn presieved_matches_lazy() {
    let mut presieved = FactorialEngine::new(Some(100));
    let mut lazy = FactorialEngine::new(None);
    assert_eq!(
        presieved.get_factorial_factorization(50),
        lazy.get_factorial_factorization(50)
    );
}

#[test]
fn repeated_call_is_identical() {
    let mut engine = FactorialEngine::new(None);
    let first = engine.get_factorial_factorization(30);
    let cache = engine.cached_primes().to_vec();
    let second = engine.get_factorial_factorization(30);
    assert_eq!(first, second);
    assert_eq!(engine.cached_primes(), cache.as_slice());
}

#[test]
fn smaller_call_reuses_cache() {
    let mut engine = FactorialEngine::new(None);
    engine.get_factorial_factorization(10);
    let cache = engine.cached_primes().to_vec();
    assert_eq!(cache, vec![2, 3, 5, 7]);
    // 8 lies above the largest cached prime, yet the cache stays as it was.
    assert_eq!(
        engine.get_factorial_factorization(8),
        map_of(&[(2, 7), (3, 2), (5, 1), (7, 1)])
    );
    assert_eq!(engine.cached_primes(), cache.as_slice());
    assert_eq!(engine.get_factorial_factorization(6), map_of(&[(2, 4), (3, 2), (5, 1)]));
    assert_eq!(engine.cached_primes(), cache.as_slice());
}

#[test]
fn larger_call_extends_cache() {
    let mut engine = FactorialEngine::new(Some(10));
    assert_eq!(engine.cached_primes(), &[2, 3, 5, 7]);
    engine.get_factorial_factorization(20);
    assert_eq!(engine.cached_primes(), &[2, 3, 5, 7, 11, 13, 17, 19]);
}

#[test]
fn presieve_contents() {
    assert!(FactorialEngine::new(None).cached_primes().is_empty());
    assert!(FactorialEngine::new(Some(0)).cached_primes().is_empty());
    assert!(FactorialEngine::new(Some(1)).cached_primes().is_empty());
    assert_eq!(FactorialEngine::new(Some(2)).cached_primes(), &[2]);
    assert_eq!(
        FactorialEngine::new(Some(30)).cached_primes(),
        &[2, 3, 5, 7, 11, 13, 17, 19, 23, 29]
    );
    assert_eq!(FactorialEngine::new(Some(49)).cached_primes().last(), Some(&47));
}

#[test]
fn keys_are_exactly_primes_up_to_n() {
    let mut engine = FactorialEngine::new(None);
    let factors = engine.get_factorial_factorization(100);
    assert_eq!(factors.len(), 25);
    for (&p, &e) in factors.iter() {
        assert!(p <= 100);
        assert!((2..p).all(|d| p % d != 0));
        let mut sum = 0u64;
        let mut power = p;
        while power <= 100 {
            sum += 100 / power;
            power *= p;
        }
        assert_eq!(e, sum);
    }
}

#[test]
fn large_factorial_exponent_of_two() {
    let mut engine = FactorialEngine::new(None);
    let factors = engine.get_factorial_factorization(1_000_000);
    // The exponent of 2 in n! is n minus the number of ones in n's binary form.
    assert_eq!(factors.get(&2), Some(&999_993));
    assert_eq!(factors.get(&999_983), Some(&1));
    assert_eq!(factors.len(), 78_498);
}

#[test]
fn prime_power_input() {
    let mut engine = FactorialEngine::new(None);
    let factors = engine.get_factorial_factorization(64);
    assert_eq!(factors.get(&2), Some(&63));
    assert_eq!(factors.get(&61), Some(&1));
}
