use math_machines::{lru_calculate, raw_calculate, CacheError, Fibonacci, Machine, Primes};

#[test]
fn fibonacci_concrete_values() {
    let machine = &mut Machine::new(Fibonacci, 128, 50);
    assert_eq!(lru_calculate(machine, 0), Ok(1));
    assert_eq!(lru_calculate(machine, 5), Ok(8));
    assert_eq!(lru_calculate(machine, 10), Ok(89));
}

#[test]
fn fibonacci_sequence_from_cold_cache() {
    let machine = &mut Machine::new(Fibonacci, 128, 50);
    let expected: [u128; 11] = [1, 1, 2, 3, 5, 8, 13, 21, 34, 55, 89];
    for (n, want) in expected.iter().enumerate() {
        let got = lru_calculate(machine, n as u128).expect("Nth value of Fibonacci");
        assert_eq!(got, *want);
    }
}

#[test]
fn uncached_computation_is_idempotent_and_matches_cached() {
    let machine = &mut Machine::new(Fibonacci, 128, 50);
    let first = raw_calculate(machine, 7).expect("uncached value");
    let second = raw_calculate(machine, 7).expect("uncached value");
    assert_eq!(first, second);

    // populate the cache with unrelated queries, then compare again
    lru_calculate(machine, 3).expect("cached value");
    lru_calculate(machine, 9).expect("cached value");
    let cached = lru_calculate(machine, 7).expect("cached value");
    let uncached = raw_calculate(machine, 7).expect("uncached value");
    assert_eq!(cached, uncached);
    assert_eq!(cached, first);
}

#[test]
fn resuming_from_a_checkpoint_matches_a_single_run() {
    let direct = &mut Machine::new(Fibonacci, 128, 50);
    let resumed = &mut Machine::new(Fibonacci, 128, 50);

    let single_run = lru_calculate(direct, 10).expect("direct value");

    lru_calculate(resumed, 5).expect("checkpoint value");
    let two_runs = lru_calculate(resumed, 10).expect("resumed value");

    assert_eq!(single_run, two_runs);
    assert_eq!(two_runs, 89);
}

#[test]
fn capped_cache_retains_the_most_recently_touched_indices() {
    let machine = &mut Machine::new(Fibonacci, 3, 50);
    for n in 0..=10u128 {
        lru_calculate(machine, n).expect("Nth value of Fibonacci");
    }
    assert!(machine.cache_len() <= 3);
    assert!(machine.cache_contains(10));
    assert!(machine.cache_contains(9));
    assert!(machine.cache_contains(8));
    assert!(!machine.cache_contains(7));
}

#[test]
fn age_threshold_triggers_eviction() {
    // the entry cap is never reached, but entries older than the age cap go
    let machine = &mut Machine::new(Fibonacci, 128, 2);
    lru_calculate(machine, 0).expect("value at 0");
    lru_calculate(machine, 1).expect("value at 1");
    lru_calculate(machine, 2).expect("value at 2");
    // computing 2 touched the checkpoint at 1 and let the one at 0 reach the
    // age cap, so the sweep removed it
    assert!(!machine.cache_contains(0));
    assert!(machine.cache_contains(1));
    assert!(machine.cache_contains(2));
    assert_eq!(machine.cache_len(), 2);
}

#[test]
fn primes_concrete_values() {
    let machine = &mut Machine::new(Primes, 128, 50);
    assert_eq!(lru_calculate(machine, 0), Ok(2));
    assert_eq!(lru_calculate(machine, 1), Ok(3));
    assert_eq!(lru_calculate(machine, 5), Ok(13));
    assert_eq!(raw_calculate(machine, 5), Ok(13));
}

#[test]
fn is_prime_classifies_correctly() {
    assert_eq!(Primes::is_prime(0), false);
    assert_eq!(Primes::is_prime(1), false);
    assert_eq!(Primes::is_prime(2), true);
    assert_eq!(Primes::is_prime(3), true);
    assert_eq!(Primes::is_prime(4), false);
    assert_eq!(Primes::is_prime(25), false);
    assert_eq!(Primes::is_prime(98), false);
    assert_eq!(Primes::is_prime(144), false);
    assert_eq!(Primes::is_prime(181), true);
}

#[test]
fn next_prime_steps_through_the_sequence() {
    assert_eq!(Primes::next_prime(0), 2);
    assert_eq!(Primes::next_prime(1), 2);
    assert_eq!(Primes::next_prime(2), 3);
    assert_eq!(Primes::next_prime(3), 5);
    assert_eq!(Primes::next_prime(13), 17);
    assert_eq!(Primes::next_prime(3517), 3527);
    assert_eq!(Primes::next_prime(7489), 7499);
}

#[test]
fn machine_lookup_misses_fall_back_to_the_base_case() {
    // a fresh machine has no checkpoints at all, yet still answers
    let machine = &mut Machine::new(Fibonacci, 128, 50);
    assert_eq!(lru_calculate(machine, 4), Ok(5));
    // the result is cached afterwards
    assert!(machine.cache_contains(4));
}

#[test]
fn phase_not_found_is_the_cache_miss_error() {
    let mut cache = math_machines::MachineCache::new();
    assert!(matches!(cache.find(1), Err(CacheError::PhaseNotFound)));
}
