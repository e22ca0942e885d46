//! Trial division with an exact integer square-root bound computed by
//! Newton's (Heron's) iteration in double-width arithmetic. The bound is
//! exact for every 64-bit input, including values next to large perfect
//! squares where a rounded floating square root would be off by one.

use vstd::prelude::*;
use crate::primes::{
    isqrt, lemma_divides_transitive, lemma_isqrt_bounds, lemma_prime_sqrt_test, prime,
};

verus! {

/// Exact floor of the square root of `n`, by Newton's iteration
/// `b = (a*a + n) / (2*a)` run until it stops decreasing.
pub fn newton_sqrt_integer(n: u64) -> (s: u64)
    ensures
        s as int == isqrt(n as int),
        s * s <= n,
        n < (s + 1) * (s + 1),
{
    proof {
        lemma_isqrt_bounds(n as int);
    }
    let ghost rt: int = isqrt(n as int);
    let n_u128: u128 = n as u128;
    let mut a: u128 = n_u128;
    let mut b: u128 = (n_u128 + 1) / 2;

    proof {
        // The starting upper estimate is at least the true root:
        // 2*rt <= rt*rt + 1 <= n + 1.
        assert(2 * rt <= rt * rt + 1) by (nonlinear_arith)
            requires
                rt >= 0,
        ;
        assert(b as int >= rt) by {
            vstd::arithmetic::div_mod::lemma_div_is_ordered(2 * rt, n_u128 as int + 1, 2);
            assert((2 * rt) / 2 == rt);
        }
        assert(rt <= n as int) by (nonlinear_arith)
            requires
                rt >= 0,
                rt * rt <= n,
        ;
    }
    while b < a
        invariant
            n_u128 == n,
            rt == isqrt(n as int),
            0 <= rt,
            rt * rt <= n < (rt + 1) * (rt + 1),
            rt <= a as int,
            rt <= b as int,
            a <= n_u128,
            b <= (n_u128 + 1) / 2,
            (a == n_u128 && b == (n_u128 + 1) / 2) || b as int == (a * a + n_u128) as int / ((
            2 * a) as int),
        decreases a,
    {
        proof {
            // The loop was entered, so 0 <= b < a <= n forces n >= 1,
            // and a positive n has a positive root.
            assert(n_u128 >= 1);
            assert(rt >= 1) by (nonlinear_arith)
                requires
                    n_u128 >= 1,
                    0 <= rt,
                    (n_u128 as int) < (rt + 1) * (rt + 1),
            ;
        }
        a = b;
        proof {
            // a is now at most (n+1)/2 <= 2^63, so a*a + n fits in u128.
            assert(a * a + n_u128 <= u128::MAX) by (nonlinear_arith)
                requires
                    a <= (n_u128 + 1) / 2,
                    n_u128 < 0x1_0000_0000_0000_0000,
            ;
        }
        b = (a * a + n_u128) / (2 * a);
        proof {
            let ai = a as int;
            let ni = n_u128 as int;
            // The Newton step never undershoots the root:
            // a*a + n >= 2*a*rt because (a - rt)^2 >= 0.
            assert(ai * ai + ni >= 2 * ai * rt) by (nonlinear_arith)
                requires
                    rt * rt <= ni,
                    rt >= 0,
                    ai >= 1,
            ;
            assert(b as int >= rt) by {
                vstd::arithmetic::div_mod::lemma_div_is_ordered(
                    2 * ai * rt,
                    ai * ai + ni,
                    2 * ai,
                );
                assert((2 * ai * rt) / (2 * ai) == rt) by {
                    vstd::arithmetic::div_mod::lemma_div_by_multiple(rt, 2 * ai);
                    assert(2 * ai * rt == rt * (2 * ai)) by (nonlinear_arith);
                }
            }
            // The Newton step also stays at most (n+1)/2:
            // a*a + n <= a*(n+1) whenever 1 <= a <= n.
            assert(ai <= ni) by {
                assert((ni + 1) / 2 <= ni);
            }
            assert(ai * ai + ni <= ai * (ni + 1)) by (nonlinear_arith)
                requires
                    1 <= ai,
                    ai <= ni,
            ;
            assert(b as int <= (ni + 1) / 2) by {
                vstd::arithmetic::div_mod::lemma_div_is_ordered(
                    ai * ai + ni,
                    ai * (ni + 1),
                    2 * ai,
                );
                assert((ai * (ni + 1)) / (2 * ai) == (ni + 1) / 2) by {
                    vstd::arithmetic::div_mod::lemma_div_denominator(ai * (ni + 1), ai, 2);
                    assert((ai * (ni + 1)) / ai == ni + 1) by {
                        vstd::arithmetic::div_mod::lemma_div_by_multiple(ni + 1, ai);
                        assert(ai * (ni + 1) == (ni + 1) * ai) by (nonlinear_arith);
                    }
                    assert(ai * 2 == 2 * ai);
                }
            }
        }
    }
    proof {
        // At exit b >= a, and a never went below the root, so a == rt.
        if a == n_u128 && b == (n_u128 + 1) / 2 {
            // The loop never ran: (n+1)/2 >= n forces n <= 1.
            assert(n_u128 <= 1) by {
                if n_u128 >= 2 {
                    assert((n_u128 + 1) as int / 2 < n_u128 as int);
                }
            }
            assert(a as int == rt) by {
                if n_u128 == 0 {
                    assert(rt <= a as int && a == 0);
                } else {
                    assert(a == 1);
                    assert(rt == 1) by (nonlinear_arith)
                        requires
                            0 <= rt,
                            rt <= 1,
                            rt * rt <= 1,
                            1 < (rt + 1) * (rt + 1),
                    ;
                }
            }
        } else {
            assert(b as int == (a * a + n_u128) as int / ((2 * a) as int));
            if a == 0 {
                assert(a as int == rt);
            } else {
                let ai = a as int;
                let ni = n_u128 as int;
                assert(ai * ai <= ni) by {
                    if ai * ai > ni {
                        // then the Newton value is strictly below a, contradiction
                        assert(ai * ai + ni < (2 * ai) * ai) by (nonlinear_arith)
                            requires
                                ai * ai > ni,
                                ai >= 1,
                        ;
                        assert(((ai * ai + ni) / (2 * ai)) < ai) by {
                            vstd::arithmetic::div_mod::lemma_multiply_divide_lt(
                                ai * ai + ni,
                                2 * ai,
                                ai,
                            );
                        }
                    }
                }
                assert(ai <= rt) by {
                    if ai > rt {
                        assert((rt + 1) * (rt + 1) <= ai * ai) by (nonlinear_arith)
                            requires
                                0 <= rt + 1 <= ai,
                        ;
                    }
                }
                assert(a as int == rt);
            }
        }
        assert(a <= 0xffff_ffff_ffff_ffffu128) by {
            assert(rt <= n as int);
        }
    }
    a as u64
}

/// Trial division over odd candidate divisors up to the exact integer
/// square root of `n`; returns true exactly when `n` is prime.
pub fn is_prime(n: u64) -> (r: bool)
    ensures
        r == prime(n as int),
{
    if n <= 1 {
        return false;
    }
    if n % 2 == 0 {
        proof {
            if n != 2 {
                assert(!prime(n as int));
            }
        }
        return n == 2;
    }

    let mut i: u64 = 3;
    let sqrt: u64 = newton_sqrt_integer(n);
    proof {
        assert(sqrt < n) by (nonlinear_arith)
            requires
                sqrt * sqrt <= n,
                n >= 3,
                sqrt >= 0,
        ;
    }
    while i <= sqrt
        invariant
            n >= 3,
            n % 2 != 0,
            3 <= i,
            i % 2 == 1,
            i <= sqrt + 2,
            sqrt < n,
            sqrt * sqrt <= n < (sqrt + 1) * (sqrt + 1),
            forall|d: int| 2 <= d < i ==> #[trigger] ((n as int) % d) != 0,
        decreases sqrt + 2 - i,
    {
        if n % i == 0 {
            assert(!prime(n as int));
            return false;
        }
        proof {
            // i + 1 is even, so it cannot divide the odd n.
            if (n as int) % (i + 1) as int == 0 {
                lemma_divides_transitive(2, i as int + 1, n as int);
            }
        }
        i += 2;
    }
    proof {
        lemma_prime_sqrt_test(n as int);
        assert forall|d: int| 2 <= d && d * d <= n implies #[trigger] ((n as int) % d) != 0 by {
            assert(d <= sqrt) by (nonlinear_arith)
                requires
                    d * d <= n,
                    n < (sqrt + 1) * (sqrt + 1),
                    d >= 0,
                    sqrt >= 0,
            ;
        }
    }
    true
}

} // verus!
