//! The algorithm registry: the closed set of algorithm identifiers the
//! external command-line driver selects from, the stable name of each, and
//! direct dispatch into the corresponding test or sieve.

use vstd::prelude::*;
use crate::aks;
use crate::miller_rabin;
use crate::primes::prime;
use crate::sieve_of_eratosthenes;
use crate::trial_division;
use crate::trial_division_newton;
use crate::trial_division_sqrt;

verus! {

/// The closed set of primality-test identifiers.
#[derive(Debug, Clone, Copy, PartialEq, Eq, PartialOrd, Ord)]
pub enum PrimeAlgorithm {
    Aks,
    MillerRabin,
    TrialDivision,
    TrialDivisionNewton,
    TrialDivisionSqrt,
}

/// What each primality algorithm's boolean is pinned to: the three trial
/// division variants decide primality outright; AKS and Miller-Rabin return
/// the decision of their respective staged procedures.
pub open spec fn algorithm_decides(alg: PrimeAlgorithm, n: u64) -> bool {
    match alg {
        PrimeAlgorithm::Aks => aks::aks_decides(n),
        PrimeAlgorithm::MillerRabin => miller_rabin::miller_rabin_decides(n),
        PrimeAlgorithm::TrialDivision => prime(n as int),
        PrimeAlgorithm::TrialDivisionNewton => prime(n as int),
        PrimeAlgorithm::TrialDivisionSqrt => prime(n as int),
    }
}

impl PrimeAlgorithm {
    /// The stable name the command line knows this algorithm by.
    pub fn as_str(&self) -> (name: &'static str)
        ensures
            name@ == match *self {
                PrimeAlgorithm::Aks => "aks"@,
                PrimeAlgorithm::MillerRabin => "miller-rabin"@,
                PrimeAlgorithm::TrialDivision => "trial-division"@,
                PrimeAlgorithm::TrialDivisionNewton => "trial-division-newton"@,
                PrimeAlgorithm::TrialDivisionSqrt => "trial-division-sqrt"@,
            },
    {
        match self {
            PrimeAlgorithm::Aks => "aks",
            PrimeAlgorithm::MillerRabin => "miller-rabin",
            PrimeAlgorithm::TrialDivision => "trial-division",
            PrimeAlgorithm::TrialDivisionNewton => "trial-division-newton",
            PrimeAlgorithm::TrialDivisionSqrt => "trial-division-sqrt",
        }
    }

    /// Run the selected algorithm on one candidate. (The unverified shell
    /// keeps a pointer-returning lookup; Verus takes no function-pointer
    /// types, so here the lookup applies the selected algorithm directly.)
    pub fn as_algorithm_fn(&self, n: u64) -> (result: bool)
        ensures
            result == algorithm_decides(*self, n),
    {
        match self {
            PrimeAlgorithm::Aks => aks::is_prime(n),
            PrimeAlgorithm::MillerRabin => miller_rabin::is_prime(n),
            PrimeAlgorithm::TrialDivision => trial_division::is_prime(n),
            PrimeAlgorithm::TrialDivisionNewton => trial_division_newton::is_prime(n),
            PrimeAlgorithm::TrialDivisionSqrt => trial_division_sqrt::is_prime(n),
        }
    }
}

/// The closed set of sieve identifiers.
#[derive(Debug, Clone, Copy, PartialEq, Eq, PartialOrd, Ord)]
pub enum SieveAlgorithm {
    SieveOfEratosthenes,
}

impl SieveAlgorithm {
    /// The stable name the command line knows this sieve by.
    pub fn as_str(&self) -> (name: &'static str)
        ensures
            name@ == "sieve-of-eratosthenes"@,
    {
        match self {
            SieveAlgorithm::SieveOfEratosthenes => "sieve-of-eratosthenes",
        }
    }

    /// Enumerate all primes up to `bound` with the selected sieve. (As with
    /// the primality lookup, dispatch is direct rather than by pointer.)
    pub fn as_algorithm_fn(&self, bound: u64) -> (primes_list: Vec<u64>)
        requires
            bound / 64 < usize::MAX as u64,
        ensures
            forall|k: int|
                0 <= k < primes_list@.len() ==> prime(#[trigger] primes_list@[k] as int)
                    && primes_list@[k] <= bound,
            forall|k1: int, k2: int|
                0 <= k1 < k2 < primes_list@.len() ==> primes_list@[k1] < primes_list@[k2],
            forall|p: u64| prime(p as int) && p <= bound ==> primes_list@.contains(p),
    {
        match self {
            SieveAlgorithm::SieveOfEratosthenes => sieve_of_eratosthenes::sieve(bound),
        }
    }
}

/// Every algorithm in the registry rejects 0 and 1.
pub proof fn lemma_rejects_zero_and_one(alg: PrimeAlgorithm)
    ensures
        !algorithm_decides(alg, 0),
        !algorithm_decides(alg, 1),
{
}

/// The three trial-division variants agree on every input: whatever each
/// one may return for `n`, the three booleans coincide.
pub proof fn lemma_trial_division_variants_agree(n: u64, b1: bool, b2: bool, b3: bool)
    requires
        call_ensures(trial_division::is_prime, (n,), b1),
        call_ensures(trial_division_newton::is_prime, (n,), b2),
        call_ensures(trial_division_sqrt::is_prime, (n,), b3),
    ensures
        b1 == b2,
        b2 == b3,
{
}

/// Repeated invocation is idempotent: any two results that one algorithm
/// may return for the same candidate are the same boolean (there is no
/// hidden state).
pub proof fn lemma_test_deterministic(alg: PrimeAlgorithm, n: u64, b1: bool, b2: bool)
    requires
        call_ensures(PrimeAlgorithm::as_algorithm_fn, (&alg, n), b1),
        call_ensures(PrimeAlgorithm::as_algorithm_fn, (&alg, n), b2),
    ensures
        b1 == b2,
{
}

} // verus!
