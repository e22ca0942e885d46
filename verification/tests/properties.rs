use primality::aks;
use primality::miller_rabin;
use primality::registry::{PrimeAlgorithm, SieveAlgorithm};
use primality::trial_division_newton::newton_sqrt_integer;

const ALL_ALGORITHMS: [PrimeAlgorithm; 5] = [
    PrimeAlgorithm::Aks,
    PrimeAlgorithm::MillerRabin,
    PrimeAlgorithm::TrialDivision,
    PrimeAlgorithm::TrialDivisionNewton,
    PrimeAlgorithm::TrialDivisionSqrt,
];

#[test]
fn zero_and_one_rejected_by_all() {
    for alg in ALL_ALGORITHMS {
        assert!(!alg.as_algorithm_fn(0), "{} accepted 0", alg.as_str());
        assert!(!alg.as_algorithm_fn(1), "{} accepted 1", alg.as_str());
    }
}

#[test]
fn repeated_invocation_is_idempotent() {
    for alg in ALL_ALGORITHMS {
        for n in [0u64, 1, 2, 97, 100, 561, 1729] {
            let first = alg.as_algorithm_fn(n);
            let second = alg.as_algorithm_fn(n);
            assert_eq!(first, second, "{} changed its mind on {}", alg.as_str(), n);
        }
    }
}

#[test]
fn registry_names() {
    assert_eq!(PrimeAlgorithm::Aks.as_str(), "aks");
    assert_eq!(PrimeAlgorithm::MillerRabin.as_str(), "miller-rabin");
    assert_eq!(PrimeAlgorithm::TrialDivision.as_str(), "trial-division");
    assert_eq!(PrimeAlgorithm::TrialDivisionNewton.as_str(), "trial-division-newton");
    assert_eq!(PrimeAlgorithm::TrialDivisionSqrt.as_str(), "trial-division-sqrt");
    assert_eq!(SieveAlgorithm::SieveOfEratosthenes.as_str(), "sieve-of-eratosthenes");
}

#[test]
fn registry_sieve_dispatch() {
    let primes = SieveAlgorithm::SieveOfEratosthenes.as_algorithm_fn(30);
    assert_eq!(primes, vec![2, 3, 5, 7, 11, 13, 17, 19, 23, 29]);
}

#[test]
fn aks_rejects_carmichael_numbers() {
    for c in [561u64, 1105, 1729] {
        assert!(!aks::is_prime(c), "aks accepted the Carmichael number {}", c);
    }
}

#[test]
fn aks_rejects_perfect_powers() {
    for pp in [4u64, 8, 9, 16, 27, 64] {
        assert!(aks::is_perfect_power(pp), "{} not seen as a perfect power", pp);
        assert!(!aks::is_prime(pp));
    }
}

#[test]
fn perfect_power_edges() {
    assert!(aks::is_perfect_power(1));
    assert!(!aks::is_perfect_power(0));
    assert!(!aks::is_perfect_power(2));
    // 2^63 and 3^40 are perfect powers near the top of the range
    assert!(aks::is_perfect_power(9223372036854775808));
    assert!(aks::is_perfect_power(12157665459056928801));
    // the largest prime below 2^32, squared, is a perfect power
    assert!(aks::is_perfect_power(18446744030759878681)); // 4294967291^2
    assert!(aks::is_perfect_power(18446744065119617025)); // (2^32 - 1)^2
}

#[test]
fn newton_sqrt_near_the_top() {
    assert_eq!(newton_sqrt_integer(u64::MAX), 4294967295);
    assert_eq!(newton_sqrt_integer(18446744065119617025), 4294967295); // (2^32-1)^2
    assert_eq!(newton_sqrt_integer(18446744065119617024), 4294967294); // one below it
    assert_eq!(newton_sqrt_integer(9223372030926249001), 3037000499); // 3037000499^2
    assert_eq!(newton_sqrt_integer(9223372030926249000), 3037000498);
    assert_eq!(newton_sqrt_integer(0), 0);
    assert_eq!(newton_sqrt_integer(1), 1);
    assert_eq!(newton_sqrt_integer(2), 1);
    assert_eq!(newton_sqrt_integer(3), 1);
}

#[test]
fn newton_sqrt_brackets_every_sample() {
    for n in (0u64..2000).chain([u64::MAX, u64::MAX - 1, 1 << 62, (1 << 62) - 1]) {
        let s = newton_sqrt_integer(n) as u128;
        let n = n as u128;
        assert!(s * s <= n, "floor too high at {}", n);
        assert!(n < (s + 1) * (s + 1), "floor too low at {}", n);
    }
}

#[test]
fn pow_checked_boundaries() {
    assert_eq!(aks::pow_checked(2, 63), Some(9223372036854775808));
    assert_eq!(aks::pow_checked(2, 64), None);
    assert_eq!(aks::pow_checked(u64::MAX, 1), Some(u64::MAX));
    assert_eq!(aks::pow_checked(u64::MAX, 2), None);
    assert_eq!(aks::pow_checked(1, 1000), Some(1));
    assert_eq!(aks::pow_checked(0, 5), Some(0));
    assert_eq!(aks::pow_checked(0, 0), Some(1));
    assert_eq!(aks::pow_checked(5, 0), Some(1));
}

#[test]
fn mod_pow_edges() {
    assert_eq!(miller_rabin::mod_pow(12345, 67890, 1), 0);
    assert_eq!(miller_rabin::mod_pow(2, 64, u64::MAX), 1); // 2^64 = (2^64 - 1) + 1
    assert_eq!(miller_rabin::mod_pow(7, 0, 13), 1);
    assert_eq!(miller_rabin::mod_pow(0, 0, 13), 1);
}

#[test]
fn mod_sqr_edges() {
    assert_eq!(miller_rabin::mod_sqr(u64::MAX - 1, u64::MAX), 1); // (-1)^2
    assert_eq!(miller_rabin::mod_sqr(3, 7), 2);
    assert_eq!(miller_rabin::mod_sqr(0, 7), 0);
}

#[test]
fn multiplicative_order_samples() {
    assert_eq!(aks::multiplicative_order(2, 7), 3);
    assert_eq!(aks::multiplicative_order(3, 7), 6);
    assert_eq!(aks::multiplicative_order(2, 11), 10);
    assert_eq!(aks::multiplicative_order(31, 29), 28);
    // no power of 2 is 1 modulo 4: the search gives up at r
    assert_eq!(aks::multiplicative_order(2, 4), 4);
}

#[test]
fn euler_phi_samples() {
    assert_eq!(aks::euler_phi(0), 0);
    assert_eq!(aks::euler_phi(97), 96);
    assert_eq!(aks::euler_phi(100), 40);
    assert_eq!(aks::euler_phi(1024), 512);
    assert_eq!(aks::euler_phi(2147483647), 2147483646);
}

#[test]
fn gcd_edges() {
    assert_eq!(aks::gcd(0, 0), 0);
    assert_eq!(aks::gcd(5, 0), 5);
    assert_eq!(aks::gcd(0, 5), 5);
    assert_eq!(aks::gcd(u64::MAX, u64::MAX), u64::MAX);
}
