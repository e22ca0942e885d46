//! Every algorithm variant must return the same boolean for every candidate
//! in [0, 2000]; the range is split so each piece stays well inside the
//! slowest algorithm's budget.

use primality::{aks, miller_rabin, trial_division, trial_division_newton, trial_division_sqrt};

fn agree_on_range(lo: u64, hi: u64) {
    for n in lo..=hi {
        let expected = trial_division::is_prime(n);
        assert_eq!(trial_division_newton::is_prime(n), expected, "newton disagrees at {}", n);
        assert_eq!(trial_division_sqrt::is_prime(n), expected, "sqrt disagrees at {}", n);
        assert_eq!(miller_rabin::is_prime(n), expected, "miller-rabin disagrees at {}", n);
        assert_eq!(aks::is_prime(n), expected, "aks disagrees at {}", n);
    }
}

#[test]
fn cross_validation_to_500() {
    agree_on_range(0, 500);
}

#[test]
fn cross_validation_501_to_1000() {
    agree_on_range(501, 1000);
}

#[test]
fn cross_validation_1001_to_1500() {
    agree_on_range(1001, 1500);
}

#[test]
fn cross_validation_1501_to_2000() {
    agree_on_range(1501, 2000);
}
