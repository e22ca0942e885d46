//! Trial division with a square-root bound computed once, ahead of the
//! divisor loop, by a bisection that needs no floating point: the bound it
//! caches is the exact floor square root for every 64-bit input.

use vstd::prelude::*;
use crate::primes::{lemma_divides_transitive, lemma_prime_sqrt_test, prime};

verus! {

/// Floor square root by bisection over `[0, 2^32)`, cached by `is_prime`
/// before its divisor loop starts.
fn sqrt_bound(n: u64) -> (s: u64)
    ensures
        s * s <= n,
        n < (s + 1) * (s + 1),
{
    let mut lo: u64 = 0;
    let mut hi: u64 = 0x1_0000_0000;
    while lo + 1 < hi
        invariant
            lo < hi <= 0x1_0000_0000,
            lo * lo <= n,
            n < hi * hi,
        decreases hi - lo,
    {
        let mid: u64 = lo + (hi - lo) / 2;
        proof {
            assert(lo < mid < hi);
            assert(mid * mid <= u64::MAX) by (nonlinear_arith)
                requires
                    mid < 0x1_0000_0000,
            ;
        }
        if mid * mid <= n {
            lo = mid;
        } else {
            hi = mid;
        }
    }
    lo
}

/// Trial division over odd candidate divisors up to a square-root bound
/// computed once before the loop; returns true exactly when `n` is prime.
pub fn is_prime(n: u64) -> (r: bool)
    ensures
        r == prime(n as int),
{
    if n <= 1 {
        return false;
    }
    if n % 2 == 0 {
        proof {
            if n != 2 {
                assert(!prime(n as int));
            }
        }
        return n == 2;
    }

    let mut i: u64 = 3;
    let sqrt: u64 = sqrt_bound(n);
    proof {
        assert(sqrt < n) by (nonlinear_arith)
            requires
                sqrt * sqrt <= n,
                n >= 3,
                sqrt >= 0,
        ;
    }
    while i <= sqrt
        invariant
            n >= 3,
            n % 2 != 0,
            3 <= i,
            i % 2 == 1,
            i <= sqrt + 2,
            sqrt < n,
            sqrt * sqrt <= n < (sqrt + 1) * (sqrt + 1),
            forall|d: int| 2 <= d < i ==> #[trigger] ((n as int) % d) != 0,
        decreases sqrt + 2 - i,
    {
        if n % i == 0 {
            assert(!prime(n as int));
            return false;
        }
        proof {
            // i + 1 is even, so it cannot divide the odd n.
            if (n as int) % (i + 1) as int == 0 {
                lemma_divides_transitive(2, i as int + 1, n as int);
            }
        }
        i += 2;
    }
    proof {
        lemma_prime_sqrt_test(n as int);
        assert forall|d: int| 2 <= d && d * d <= n implies #[trigger] ((n as int) % d) != 0 by {
            assert(d <= sqrt) by (nonlinear_arith)
                requires
                    d * d <= n,
                    n < (sqrt + 1) * (sqrt + 1),
                    d >= 0,
                    sqrt >= 0,
            ;
        }
    }
    true
}

} // verus!
