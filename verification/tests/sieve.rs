use primality::sieve_of_eratosthenes::sieve;
use primality::trial_division;

#[test]
fn sieve_to_thirty() {
    assert_eq!(sieve(30), vec![2, 3, 5, 7, 11, 13, 17, 19, 23, 29]);
}

#[test]
fn sieve_empty_below_two() {
    assert_eq!(sieve(0), Vec::<u64>::new());
    assert_eq!(sieve(1), Vec::<u64>::new());
}

#[test]
fn sieve_smallest_bounds() {
    assert_eq!(sieve(2), vec![2]);
    assert_eq!(sieve(3), vec![2, 3]);
    assert_eq!(sieve(4), vec![2, 3]);
}

#[test]
fn sieve_bound_inclusive() {
    // the bound itself appears exactly when it is prime
    assert_eq!(sieve(97).last(), Some(&97));
    assert_eq!(sieve(98).last(), Some(&97));
}

#[test]
fn sieve_hundred_count() {
    let primes = sieve(100);
    assert_eq!(primes.len(), 25);
    assert_eq!(primes.first(), Some(&2));
    assert_eq!(primes.last(), Some(&97));
}

#[test]
fn sieve_matches_trial_division_to_thousand() {
    let primes = sieve(1000);
    // ascending and deduplicated
    for w in primes.windows(2) {
        assert!(w[0] < w[1]);
    }
    // membership coincides with the trial-division decision
    for n in 0..=1000u64 {
        assert_eq!(primes.contains(&n), trial_division::is_prime(n), "sieve disagrees at {}", n);
    }
}
