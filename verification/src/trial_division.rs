//! Naive trial division: the square-root bound is re-established on every
//! loop iteration by comparing the candidate divisor's square against `n`
//! in double-width arithmetic. Slower than the variants that fix the bound
//! once, but decided by exactly the same rule.

use vstd::prelude::*;
use crate::primes::{lemma_divides_transitive, lemma_prime_sqrt_test, prime};

verus! {

/// The bound check that the divisor loop repeats every round: does the
/// square of the candidate divisor still lie at or below `n`?
fn square_at_most(i: u64, n: u64) -> (b: bool)
    ensures
        b == ((i as int) * (i as int) <= n as int),
{
    proof {
        assert((i as u128) * (i as u128) <= u128::MAX) by (nonlinear_arith)
            requires
                (i as u128) < 0x1_0000_0000_0000_0000,
        ;
    }
    (i as u128) * (i as u128) <= n as u128
}

/// Trial division over odd candidate divisors, re-checking the square-root
/// bound each round; returns true exactly when `n` is prime.
pub fn is_prime(n: u64) -> (r: bool)
    ensures
        r == prime(n as int),
{
    if n <= 1 {
        return false;
    }
    if n % 2 == 0 {
        proof {
            if n != 2 {
                assert(!prime(n as int));
            }
        }
        return n == 2;
    }

    let mut i: u64 = 3;
    while square_at_most(i, n)
        invariant
            n >= 3,
            n % 2 != 0,
            3 <= i,
            i % 2 == 1,
            i <= n + 2,
            forall|d: int| 2 <= d < i ==> #[trigger] ((n as int) % d) != 0,
        decreases n + 2 - i,
    {
        proof {
            assert(i < n) by (nonlinear_arith)
                requires
                    3 <= i,
                    n >= 3,
                    i * i <= n,
            ;
        }
        if n % i == 0 {
            assert(!prime(n as int));
            return false;
        }
        proof {
            // i + 1 is even, so it cannot divide the odd n.
            if (n as int) % (i + 1) as int == 0 {
                lemma_divides_transitive(2, i as int + 1, n as int);
            }
        }
        i += 2;
    }
    proof {
        lemma_prime_sqrt_test(n as int);
        assert forall|d: int| 2 <= d && d * d <= n implies #[trigger] ((n as int) % d) != 0 by {
            assert(d < i) by (nonlinear_arith)
                requires
                    d * d <= n,
                    (i as int) * (i as int) > n,
                    d >= 0,
                    i >= 0,
            ;
        }
    }
    true
}

} // verus!
