//! Shared number-theoretic definitions: primality, greatest common divisor,
//! integer square root, and the small lemmas about divisors that the
//! individual algorithms build their proofs on.

use vstd::prelude::*;
use vstd::arithmetic::div_mod::{lemma_fundamental_div_mod, lemma_mod_multiples_basic};

verus! {

/// `n` is prime: at least 2, and no smaller number from 2 up divides it.
pub open spec fn prime(n: int) -> bool {
    n >= 2 && forall|d: int| 2 <= d < n ==> #[trigger] (n % d) != 0
}

/// Greatest common divisor by Euclid's recursion; `gcd(a, 0) == a`.
pub open spec fn gcd(a: nat, b: nat) -> nat
    decreases b,
{
    if b == 0 {
        a
    } else {
        gcd(b, a % b)
    }
}

/// Floor of the square root of a non-negative integer.
pub open spec fn isqrt(x: int) -> int
    recommends
        x >= 0,
    decreases x,
{
    if x <= 0 {
        0
    } else {
        let s = isqrt(x - 1);
        if (s + 1) * (s + 1) <= x {
            s + 1
        } else {
            s
        }
    }
}

pub proof fn lemma_isqrt_bounds(x: int)
    requires
        x >= 0,
    ensures
        0 <= isqrt(x),
        isqrt(x) * isqrt(x) <= x,
        x < (isqrt(x) + 1) * (isqrt(x) + 1),
    decreases x,
{
    if x > 0 {
        lemma_isqrt_bounds(x - 1);
        let s = isqrt(x - 1);
        if (s + 1) * (s + 1) <= x {
            assert((s + 2) * (s + 2) > x) by (nonlinear_arith)
                requires
                    x - 1 < (s + 1) * (s + 1),
                    s >= 0,
            ;
        }
    }
}

/// The floor square root is the unique `s >= 0` with `s^2 <= x < (s+1)^2`.
pub proof fn lemma_isqrt_unique(x: int, s: int)
    requires
        x >= 0,
        s >= 0,
        s * s <= x,
        x < (s + 1) * (s + 1),
    ensures
        s == isqrt(x),
{
    lemma_isqrt_bounds(x);
    let t = isqrt(x);
    if s < t {
        assert((s + 1) * (s + 1) <= t * t) by (nonlinear_arith)
            requires
                0 <= s,
                s + 1 <= t,
        ;
    }
    if t < s {
        assert((t + 1) * (t + 1) <= s * s) by (nonlinear_arith)
            requires
                0 <= t,
                t + 1 <= s,
        ;
    }
}

/// Divisibility carries through a chain: if `a` divides `b` and `b` divides
/// `c`, then `a` divides `c`.
pub proof fn lemma_divides_transitive(a: int, b: int, c: int)
    requires
        a >= 1,
        b >= 1,
        b % a == 0,
        c % b == 0,
    ensures
        c % a == 0,
{
    lemma_fundamental_div_mod(b, a);
    lemma_fundamental_div_mod(c, b);
    let k = b / a;
    let m = c / b;
    assert(c == a * (k * m)) by (nonlinear_arith)
        requires
            b == a * k,
            c == b * m,
    ;
    lemma_mod_multiples_basic(k * m, a);
}

/// A composite number has a divisor no larger than its square root.
pub proof fn lemma_composite_has_small_divisor(n: int)
    requires
        n >= 2,
        !prime(n),
    ensures
        exists|d: int| 2 <= d && d * d <= n && #[trigger] (n % d) == 0,
{
    let d0 = choose|d: int| 2 <= d < n && #[trigger] (n % d) == 0;
    lemma_fundamental_div_mod(n, d0);
    let e = n / d0;
    assert(n == d0 * e);
    assert(e >= 2) by (nonlinear_arith)
        requires
            n == d0 * e,
            2 <= d0 < n,
    ;
    if d0 * d0 <= n {
        assert(2 <= d0 && d0 * d0 <= n && n % d0 == 0);
    } else {
        assert(e * e <= n) by (nonlinear_arith)
            requires
                n == d0 * e,
                d0 * d0 > n,
                2 <= d0,
                2 <= e,
        ;
        assert(n % e == 0) by {
            lemma_mod_multiples_basic(d0, e);
        }
        assert(2 <= e && e * e <= n && n % e == 0);
    }
}

/// Primality is decided entirely below the square root: `n >= 2` is prime
/// exactly when no `d >= 2` with `d * d <= n` divides it.
pub proof fn lemma_prime_sqrt_test(n: int)
    requires
        n >= 2,
    ensures
        prime(n) <==> (forall|d: int| 2 <= d && d * d <= n ==> #[trigger] (n % d) != 0),
{
    if prime(n) {
        assert forall|d: int| 2 <= d && d * d <= n implies #[trigger] (n % d) != 0 by {
            assert(d < n) by (nonlinear_arith)
                requires
                    2 <= d,
                    d * d <= n,
                    n >= 2,
            ;
        }
    }
    if forall|d: int| 2 <= d && d * d <= n ==> #[trigger] (n % d) != 0 {
        if !prime(n) {
            lemma_composite_has_small_divisor(n);
        }
    }
}

} // verus!
