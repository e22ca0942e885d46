//! The AKS (Agrawal–Kayal–Saxena) deterministic primality test and its
//! numeric subroutines: perfect-power detection, the search for the smallest
//! valid polynomial modulus, Euler's totient, and arithmetic in the ring of
//! polynomials modulo `X^r - 1` with coefficients modulo `n`.
//!
//! Every stage is pinned to a spec-level description, so the test's boolean
//! is a proved function of its input alone.

use vstd::prelude::*;
use vstd::arithmetic::power::{
    lemma_pow0, lemma_pow1, lemma_pow_adds, lemma_pow_increases, lemma_pow_multiplies,
    lemma_pow_positive, pow,
};
use vstd::arithmetic::power2::{
    lemma2_to64, lemma2_to64_rest, lemma_pow2, lemma_pow2_adds, lemma_pow2_strictly_increases,
    lemma_pow2_unfold, pow2,
};
use vstd::arithmetic::div_mod::{
    lemma_mod_bound, lemma_mul_mod_noop_general, lemma_small_mod,
};

verus! {

/// Euclid's greatest common divisor; agrees with the shared spec recursion.
pub fn gcd(a: u64, b: u64) -> (g: u64)
    ensures
        g as nat == crate::primes::gcd(a as nat, b as nat),
{
    let mut x: u64 = a;
    let mut y: u64 = b;
    while y != 0
        invariant
            crate::primes::gcd(x as nat, y as nat) == crate::primes::gcd(a as nat, b as nat),
        decreases y,
    {
        let temp: u64 = y;
        y = x % y;
        x = temp;
    }
    x
}

/// `base^exp` under overflow checking: the value when it fits in a `u64`,
/// and `None` exactly when the true power exceeds `u64::MAX`.
pub fn pow_checked(base: u64, exp: u32) -> (r: Option<u64>)
    ensures
        match r {
            Some(v) => v as int == pow(base as int, exp as nat),
            None => pow(base as int, exp as nat) > u64::MAX,
        },
{
    if exp == 0 {
        proof {
            lemma_pow0(base as int);
        }
        return Some(1);
    }
    if base <= 1 {
        proof {
            if base == 0 {
                vstd::arithmetic::power::lemma0_pow(exp as nat);
            } else {
                vstd::arithmetic::power::lemma1_pow(exp as nat);
            }
        }
        return Some(base);
    }

    let mut result: u64 = 1;
    let mut b: u64 = base;
    let mut e: u32 = exp;
    proof {
        lemma_pow1(base as int);
        lemma_pow0(base as int);
    }
    while e > 0
        invariant
            2 <= b,
            1 <= result,
            pow(base as int, exp as nat) == (result as int) * pow(b as int, e as nat),
        decreases e,
    {
        let ghost result0 = result as int;
        let ghost b0 = b as int;
        let ghost e0 = e as nat;
        if e % 2 == 1 {
            result = match result.checked_mul(b) {
                Some(v) => v,
                None => {
                    proof {
                        // The power still owes at least one factor of b, so
                        // it exceeds the overflowing partial product.
                        lemma_pow_increases(b as nat, 1nat, e0);
                        lemma_pow1(b0);
                        assert(result0 * pow(b0, e0) >= result0 * b0) by (nonlinear_arith)
                            requires
                                result0 >= 1,
                                b0 >= 2,
                                pow(b0, e0) >= b0,
                        ;
                    }
                    return None;
                },
            };
            proof {
                lemma_pow_adds(b0, 1nat, (e0 - 1) as nat);
                lemma_pow1(b0);
                assert(result0 * pow(b0, e0) == (result0 * b0) * pow(b0, (e0 - 1) as nat)) by (
                nonlinear_arith)
                    requires
                        pow(b0, e0) == b0 * pow(b0, (e0 - 1) as nat),
                ;
                assert(result >= 1) by (nonlinear_arith)
                    requires
                        result as int == result0 * b0,
                        result0 >= 1,
                        b0 >= 2,
                ;
            }
        }
        e = e / 2;
        proof {
            if e0 % 2 == 1 {
                assert((e0 - 1) as nat == 2 * (e as nat));
            } else {
                assert(e0 == 2 * (e as nat));
            }
        }
        if e > 0 {
            b = match b.checked_mul(b) {
                Some(v) => v,
                None => {
                    proof {
                        lemma_pow1(b0);
                        lemma_pow_adds(b0, 1nat, 1nat);
                        lemma_pow_increases(b as nat, 2nat, 2 * e as nat);
                        assert((result as int) * pow(b0, 2 * e as nat) >= b0 * b0) by (
                        nonlinear_arith)
                            requires
                                result as int >= 1,
                                b0 >= 2,
                                pow(b0, 2 * e as nat) >= pow(b0, 2nat),
                                pow(b0, 2nat) == b0 * b0,
                        ;
                    }
                    return None;
                },
            };
            proof {
                lemma_pow1(b0);
                lemma_pow_adds(b0, 1nat, 1nat);
                lemma_pow_multiplies(b0, 2nat, e as nat);
                assert(pow(b as int, e as nat) == pow(b0, 2 * e as nat));
                assert(b >= 2) by (nonlinear_arith)
                    requires
                        b as int == b0 * b0,
                        b0 >= 2,
                ;
            }
        }
    }
    proof {
        lemma_pow0(b as int);
    }
    Some(result)
}

/// Ceiling of the base-two logarithm: the least `m` with `x <= 2^m`.
pub open spec fn clog2(x: nat) -> nat
    decreases x,
{
    if x <= 1 {
        0
    } else {
        1 + clog2(((x + 1) / 2) as nat)
    }
}

/// `clog2` really is the least exponent covering `x`.
pub proof fn lemma_clog2_bounds(x: nat)
    requires
        x >= 1,
    ensures
        x <= pow2(clog2(x)),
        x >= 2 ==> pow2((clog2(x) - 1) as nat) < x,
    decreases x,
{
    if x >= 2 {
        let y = ((x + 1) / 2) as nat;
        assert(1 <= y < x);
        lemma_clog2_bounds(y);
        assert(clog2(x) == 1 + clog2(y));
        assert(pow2(clog2(x)) == 2 * pow2(clog2(y))) by {
            lemma_pow2_unfold(clog2(x));
        }
        assert(x <= 2 * y);
        assert(2 * y <= 2 * pow2(clog2(y)));
        if y >= 2 {
            assert(pow2(clog2(y)) == 2 * pow2((clog2(y) - 1) as nat)) by {
                lemma_pow2_unfold(clog2(y));
            }
            assert(pow2((clog2(y) - 1) as nat) < y);
            assert(2 * y - 1 <= x);
            assert(pow2((clog2(x) - 1) as nat) == pow2(clog2(y)));
            assert(pow2(clog2(y)) <= 2 * y - 2);
        } else {
            assert(clog2(y) == 0);
            assert(pow2(0) == 1) by {
                lemma_pow2(0);
                lemma_pow0(2);
            }
            assert(pow2((clog2(x) - 1) as nat) == 1);
        }
    } else {
        assert(clog2(x) == 0);
        assert(pow2(0) == 1) by {
            lemma_pow2(0);
            lemma_pow0(2);
        }
    }
}

/// Any exponent that covers `x`, while the one below does not, is `clog2(x)`.
pub proof fn lemma_clog2_unique(x: nat, m: nat)
    requires
        x >= 1,
        x <= pow2(m),
        m == 0 || pow2((m - 1) as nat) < x,
    ensures
        m == clog2(x),
{
    lemma_clog2_bounds(x);
    let c = clog2(x);
    if m < c {
        assert(pow2(m) <= pow2((c - 1) as nat)) by {
            if m < c - 1 {
                lemma_pow2_strictly_increases(m, (c - 1) as nat);
            }
        }
        assert(x >= 2) by {
            if x == 1 {
                assert(c == 0);
            }
        }
    }
    if c < m {
        assert(pow2(c) <= pow2((m - 1) as nat)) by {
            if c < m - 1 {
                lemma_pow2_strictly_increases(c, (m - 1) as nat);
            }
        }
    }
}

/// Exact ceiling log2 of a wide value by repeated doubling.
fn ceil_log2_u128(x: u128) -> (m: u64)
    requires
        1 <= x,
        x < 0x1000000_00000000_00000000_00000000u128,  // 2^120
    ensures
        m as nat == clog2(x as nat),
        m <= 120,
{
    proof {
        assert(pow2(120) == 0x1000000_00000000_00000000_00000000nat) by {
            lemma2_to64();
            lemma2_to64_rest();
            lemma_pow2_adds(60, 60);
            assert(0x1000_0000_0000_0000int * 0x1000_0000_0000_0000int
                == 0x1000000_00000000_00000000_00000000int) by (nonlinear_arith);
        }
        assert(pow2(0) == 1) by {
            lemma_pow2(0);
            lemma_pow0(2);
        }
    }
    let mut m: u64 = 0;
    let mut p: u128 = 1;
    while p < x
        invariant
            x < 0x1000000_00000000_00000000_00000000u128,
            p as nat == pow2(m as nat),
            m == 0 || pow2((m - 1) as nat) < x as nat,
            m <= 120,
        decreases 121 - m,
    {
        proof {
            assert(pow2(120) == 0x1000000_00000000_00000000_00000000nat) by {
                lemma2_to64();
                lemma2_to64_rest();
                lemma_pow2_adds(60, 60);
                assert(0x1000_0000_0000_0000int * 0x1000_0000_0000_0000int
                    == 0x1000000_00000000_00000000_00000000int) by (nonlinear_arith);
            }
            assert(m < 120) by {
                if m == 120 {
                    assert(p >= x);
                }
            }
            lemma_pow2_unfold((m + 1) as nat);
        }
        p = p * 2;
        m = m + 1;
    }
    proof {
        lemma_clog2_unique(x as nat, m as nat);
    }
    m
}

/// How many eighths of a bit the threshold computation can afford: the
/// power of `n` that still fits comfortably in 128 bits.
pub open spec fn log_precision(n: u64) -> nat {
    if n < 0x8000 {
        8
    } else if n < 0x4000_0000 {
        4
    } else if n < 0x1000_0000_0000_0000 {
        2
    } else {
        1
    }
}

/// The order threshold of the modulus search: the ceiling of the square of
/// `log2(n)` measured to a precision of `1/q` bits, where `q` is the largest
/// of 8, 4, 2, 1 for which `n^q` is exactly representable. For every `n`
/// it is at least the real `log2(n)^2`, and on small `n` (all the moduli the
/// polynomial stage can reach in practice) it equals the exact ceiling.
pub open spec fn order_threshold_spec(n: u64) -> nat {
    let q = log_precision(n);
    let m = clog2(pow(n as int, q) as nat);
    ((m * m + q * q - 1) as nat / (q * q) as nat) as nat
}

/// Compute the order threshold exactly as `order_threshold_spec` states it.
fn order_threshold(n: u64) -> (t: u64)
    requires
        n >= 2,
    ensures
        t as nat == order_threshold_spec(n),
        t >= 1,
{
    let a: u128 = n as u128;
    let ghost ai = n as int;
    let (x, q): (u128, u64) = if n < 0x8000 {
        proof {
            assert(a * a < 0x4000_0000u128) by (nonlinear_arith)
                requires
                    a < 0x8000,
            ;
        }
        let x2: u128 = a * a;
        proof {
            assert(x2 * x2 < 0x1000_0000_0000_0000u128) by (nonlinear_arith)
                requires
                    x2 < 0x4000_0000u128,
            ;
        }
        let x4: u128 = x2 * x2;
        proof {
            assert(x4 * x4 < 0x1000000_00000000_00000000_00000000u128) by (nonlinear_arith)
                requires
                    x4 < 0x1000_0000_0000_0000u128,
            ;
        }
        let x8: u128 = x4 * x4;
        proof {
            lemma_pow1(ai);
            lemma_pow_adds(ai, 1nat, 1nat);
            lemma_pow_adds(ai, 2nat, 2nat);
            lemma_pow_adds(ai, 4nat, 4nat);
        }
        (x8, 8)
    } else if n < 0x4000_0000 {
        proof {
            assert(a * a < 0x1000_0000_0000_0000u128) by (nonlinear_arith)
                requires
                    a < 0x4000_0000,
            ;
        }
        let x2: u128 = a * a;
        proof {
            assert(x2 * x2 < 0x1000000_00000000_00000000_00000000u128) by (nonlinear_arith)
                requires
                    x2 < 0x1000_0000_0000_0000u128,
            ;
        }
        let x4: u128 = x2 * x2;
        proof {
            lemma_pow1(ai);
            lemma_pow_adds(ai, 1nat, 1nat);
            lemma_pow_adds(ai, 2nat, 2nat);
        }
        (x4, 4)
    } else if n < 0x1000_0000_0000_0000 {
        proof {
            assert(a * a < 0x1000000_00000000_00000000_00000000u128) by (nonlinear_arith)
                requires
                    a < 0x1000_0000_0000_0000,
            ;
        }
        let x2: u128 = a * a;
        proof {
            lemma_pow1(ai);
            lemma_pow_adds(ai, 1nat, 1nat);
        }
        (x2, 2)
    } else {
        proof {
            lemma_pow1(ai);
        }
        (a, 1)
    };
    proof {
        assert(pow(ai, log_precision(n)) >= 1) by {
            lemma_pow_positive(ai, log_precision(n));
        }
    }
    let m: u64 = ceil_log2_u128(x);
    proof {
        assert(1 <= q <= 8);
        assert(q * q <= 64 && q * q >= 1) by (nonlinear_arith)
            requires
                1 <= q <= 8,
        ;
        assert(m * m <= 14400) by (nonlinear_arith)
            requires
                m <= 120,
        ;
    }
    let qq: u64 = q * q;
    let t: u64 = (m * m + qq - 1) / qq;
    proof {
        // pow(n, q) >= n >= 2, so m >= 1 and the quotient is at least 1.
        lemma_pow1(ai);
        lemma_pow_increases(n as nat, 1nat, log_precision(n));
        assert(x >= 2);
        assert(m >= 1);
        assert(m * m >= 1) by (nonlinear_arith)
            requires
                m >= 1,
        ;
        assert(t >= 1) by {
            vstd::arithmetic::div_mod::lemma_div_is_ordered(
                qq as int,
                m * m + qq - 1,
                qq as int,
            );
            vstd::arithmetic::div_mod::lemma_div_by_multiple(1, qq as int);
        }
    }
    t
}

/// The first value at or after `from` that satisfies the order-search
/// acceptance test, or `r + 1`-style exhaustion collapsed to `r`: the least
/// `k` in `[from, r]` with `(n % r)^k == 1 (mod r)`, or `r` if there is none.
pub open spec fn order_search(n: u64, r: u64, from: int) -> int
    decreases r + 1 - from,
    when from <= r + 1
{
    if from > r {
        r as int
    } else if pow((n % r) as int, from as nat) % (r as int) == 1 {
        from
    } else {
        order_search(n, r, from + 1)
    }
}

/// The multiplicative order of `n` modulo `r`, as the algorithm bounds it:
/// the least `k >= 1` with `n^k == 1 (mod r)`, capped at `r`.
pub open spec fn multiplicative_order_spec(n: u64, r: u64) -> int {
    order_search(n, r, 1)
}

/// Compute the multiplicative order of `n` modulo `r` by repeated modular
/// multiplication, giving up (with value `r`) after `r` steps.
pub fn multiplicative_order(n: u64, r: u64) -> (ord: u64)
    requires
        2 <= r,
        r <= 0x1_0000_0000,
    ensures
        ord as int == multiplicative_order_spec(n, r),
{
    let n_mod: u64 = n % r;
    let mut current: u64 = n_mod;
    let mut k: u64 = 1;

    proof {
        lemma_pow1(n_mod as int);
        lemma_small_mod(n_mod as nat, r as nat);
    }
    while k <= r
        invariant
            2 <= r <= 0x1_0000_0000,
            n_mod == n % r,
            current < r,
            1 <= k <= r + 1,
            current as int == pow(n_mod as int, k as nat) % (r as int),
            order_search(n, r, 1) == order_search(n, r, k as int),
        decreases r + 1 - k,
    {
        if current == 1 {
            return k;
        }
        let ghost c0 = current as int;
        let ghost k0 = k as nat;
        proof {
            assert(current * n_mod <= u64::MAX) by (nonlinear_arith)
                requires
                    current < r,
                    n_mod < r,
                    r <= 0x1_0000_0000,
            ;
        }
        current = (current * n_mod) % r;
        k = k + 1;
        proof {
            lemma_mul_mod_noop_general(pow(n_mod as int, k0), n_mod as int, r as int);
            lemma_pow1(n_mod as int);
            lemma_pow_adds(n_mod as int, k0, 1nat);
            lemma_small_mod(n_mod as nat, r as nat);
            assert(current as int == pow(n_mod as int, (k0 + 1) as nat) % (r as int));
        }
    }
    proof {
        assert(order_search(n, r, k as int) == r);
    }
    r
}


/// `n` is a perfect power: `a^b` for some `a >= 2`, `b >= 2` (with 1 counted
/// in as well, matching the test's use of this stage for rejecting 1).
pub open spec fn perfect_power(n: u64) -> bool {
    n == 1 || exists|a: int, b: nat| 2 <= a && 2 <= b && #[trigger] pow(a, b) == n
}

/// Raising a larger base to the same power gives at least as large a result.
proof fn lemma_pow_base_increases(a: int, b: int, e: nat)
    requires
        0 <= a <= b,
    ensures
        0 <= pow(a, e) <= pow(b, e),
    decreases e,
{
    if e == 0 {
        lemma_pow0(a);
        lemma_pow0(b);
    } else if b == 0 {
        assert(a == 0);
        vstd::arithmetic::power::lemma0_pow(e);
    } else if a == 0 {
        vstd::arithmetic::power::lemma0_pow(e);
        lemma_pow_positive(b, e);
    } else {
        lemma_pow_base_increases(a, b, (e - 1) as nat);
        lemma_pow_positive(a, (e - 1) as nat);
        lemma_pow_positive(b, (e - 1) as nat);
        lemma_pow1(a);
        lemma_pow1(b);
        lemma_pow_adds(a, 1nat, (e - 1) as nat);
        lemma_pow_adds(b, 1nat, (e - 1) as nat);
        assert(a * pow(a, (e - 1) as nat) <= b * pow(b, (e - 1) as nat)) by (nonlinear_arith)
            requires
                0 < a <= b,
                0 < pow(a, (e - 1) as nat) <= pow(b, (e - 1) as nat),
        ;
    }
}

/// Floor of the `b`-th root of `n`, located by bisection: the returned root
/// satisfies `root^b <= n < (root+1)^b`.
fn floor_root(n: u64, b: u32) -> (root: u64)
    requires
        1 <= n,
        2 <= b,
    ensures
        pow(root as int, b as nat) <= n,
        n < pow(root as int + 1, b as nat),
        1 <= root,
{
    let mut lo: u64 = 1;
    let mut hi: u64 = 0x1_0000_0000;
    proof {
        lemma_pow1(lo as int);
        vstd::arithmetic::power::lemma1_pow(b as nat);
        assert(pow(0x1_0000_0000, 2) == 0x1_0000_0000_0000_0000int) by {
            lemma_pow1(0x1_0000_0000);
            lemma_pow_adds(0x1_0000_0000, 1nat, 1nat);
            assert(0x1_0000_0000int * 0x1_0000_0000int == 0x1_0000_0000_0000_0000int) by (
            nonlinear_arith);
        }
        lemma_pow_increases(0x1_0000_0000nat, 2nat, b as nat);
    }
    while lo + 1 < hi
        invariant
            1 <= lo < hi <= 0x1_0000_0000,
            2 <= b,
            pow(lo as int, b as nat) <= n,
            n < pow(hi as int, b as nat),
        decreases hi - lo,
    {
        let mid: u64 = lo + (hi - lo) / 2;
        assert(lo < mid < hi);
        let too_big: bool = match pow_checked(mid, b) {
            Some(v) => v > n,
            None => true,
        };
        if too_big {
            hi = mid;
        } else {
            lo = mid;
        }
    }
    proof {
        root_return_proof(n, b, lo, hi);
    }
    lo
}

/// At bisection exit the bracket has width one, so `lo` is the floor root.
proof fn root_return_proof(n: u64, b: u32, lo: u64, hi: u64)
    requires
        1 <= lo < hi,
        !(lo + 1 < hi),
        pow(lo as int, b as nat) <= n,
        n < pow(hi as int, b as nat),
    ensures
        pow(lo as int, b as nat) <= n,
        n < pow(lo as int + 1, b as nat),
{
    assert(hi == lo + 1);
}

/// Decide whether `n` is a perfect power `a^b` with `a, b >= 2` (or 1),
/// trying every exponent up to the bit width and checking the exact
/// integer `b`-th root.
pub fn is_perfect_power(n: u64) -> (r: bool)
    ensures
        r == perfect_power(n),
{
    if n == 0 {
        proof {
            assert forall|a: int, b: nat| 2 <= a && 2 <= b implies #[trigger] pow(a, b) != n by {
                lemma_pow_positive(a, b);
            }
        }
        return false;
    }
    if n == 1 {
        return true;
    }

    let mut b: u32 = 2;
    while b <= 63
        invariant
            2 <= n,
            2 <= b <= 64,
            forall|a: int, bb: nat|
                2 <= a && 2 <= bb < b ==> #[trigger] pow(a, bb) != n,
        decreases 64 - b,
    {
        // Once 2^b exceeds n, no base of at least 2 can reach n at this or
        // any later exponent.
        let cut: bool = match pow_checked(2, b) {
            Some(p2) => p2 > n,
            None => true,
        };
        if cut {
            proof {
                assert forall|a: int, bb: nat| 2 <= a && 2 <= bb implies #[trigger] pow(a, bb)
                    != n by {
                    if bb < b {
                    } else {
                        lemma_pow_increases(2nat, b as nat, bb);
                        lemma_pow_base_increases(2, a, bb);
                        assert(pow(2, b as nat) > n);
                    }
                }
            }
            return false;
        }
        let root: u64 = floor_root(n, b);
        let is_match: bool = match pow_checked(root, b) {
            Some(v) => v == n,
            None => false,
        };
        if is_match && root >= 2 {
            proof {
                assert(pow(root as int, b as nat) == n);
                assert(perfect_power(n));
            }
            return true;
        }
        proof {
            // No base hits n at exponent b: anything above the floor root
            // overshoots, anything at or below it lands at or below the
            // root's own power, which is not n.
            assert forall|a: int| 2 <= a implies pow(a, b as nat) != n by {
                if a > root {
                    lemma_pow_base_increases(root as int + 1, a, b as nat);
                }
                if a <= root && pow(a, b as nat) == n {
                    lemma_pow_base_increases(a, root as int, b as nat);
                    assert(pow(root as int, b as nat) <= n);
                    assert(pow(root as int, b as nat) == n);
                }
            }
        }
        b = b + 1;
    }
    proof {
        // Exponents of 64 or more overshoot every u64.
        assert forall|a: int, bb: nat| 2 <= a && 2 <= bb implies #[trigger] pow(a, bb) != n by {
            if bb >= 64 {
                lemma_pow_increases(2nat, 64nat, bb);
                lemma_pow_base_increases(2, a, bb);
                assert(pow(2, 64nat) > u64::MAX as int) by {
                    lemma_pow2(64);
                    lemma2_to64();
                }
            }
        }
    }
    false
}

/// The least divisor of `n` that is at least `from` (or `n` itself).
pub open spec fn least_divisor_from(n: nat, from: nat) -> nat
    decreases n + 1 - from,
    when 2 <= from <= n
{
    if from >= n || n % from == 0 {
        from
    } else {
        least_divisor_from(n, from + 1)
    }
}

/// The least prime factor of `n` (for `n >= 2`): the least divisor from 2 up.
pub open spec fn least_prime_factor(n: nat) -> nat {
    least_divisor_from(n, 2)
}

/// `n` with every factor `p` divided out.
pub open spec fn strip_factor(n: nat, p: nat) -> nat
    decreases n,
    when 2 <= p
    via strip_factor_decreases
{
    if n == 0 {
        0
    } else if n % p == 0 {
        strip_factor(n / p, p)
    } else {
        n
    }
}

#[via_fn]
proof fn strip_factor_decreases(n: nat, p: nat) {
    if n != 0 && n % p == 0 {
        vstd::arithmetic::div_mod::lemma_div_decreases(n as int, p as int);
    }
}

/// The multiplicity of the factor `p` in `n`.
pub open spec fn factor_multiplicity(n: nat, p: nat) -> nat
    decreases n,
    when 2 <= p
    via factor_multiplicity_decreases
{
    if n == 0 {
        0
    } else if n % p == 0 {
        1 + factor_multiplicity(n / p, p)
    } else {
        0
    }
}

#[via_fn]
proof fn factor_multiplicity_decreases(n: nat, p: nat) {
    if n != 0 && n % p == 0 {
        vstd::arithmetic::div_mod::lemma_div_decreases(n as int, p as int);
    }
}

/// Euler's totient, written over the prime factorisation: each prime power
/// `p^a` in `n` contributes a factor `p^(a-1) * (p - 1)`. (This is the
/// product form `n * prod (1 - 1/p)` with the division carried out exactly.)
pub open spec fn euler_phi_spec(n: nat) -> nat
    decreases n,
    via euler_phi_spec_decreases
{
    if n <= 1 {
        n
    } else {
        let p = least_prime_factor(n);
        let a = factor_multiplicity(n, p);
        let m = strip_factor(n, p);
        (pow(p as int, (a - 1) as nat) * (p - 1) * euler_phi_spec(m)) as nat
    }
}

#[via_fn]
proof fn euler_phi_spec_decreases(n: nat) {
    if n > 1 {
        let p = least_prime_factor(n);
        lemma_least_divisor_from_props(n, 2);
        lemma_strip_bounds(n, p);
    }
}

/// What the least-divisor search finds: a divisor in range, below which
/// nothing from the starting point divides `n`.
proof fn lemma_least_divisor_from_props(n: nat, from: nat)
    requires
        2 <= from <= n,
    ensures
        from <= least_divisor_from(n, from) <= n,
        n % least_divisor_from(n, from) == 0,
        forall|e: nat| from <= e < least_divisor_from(n, from) ==> #[trigger] (n % e) != 0,
    decreases n + 1 - from,
{
    if from >= n || n % from == 0 {
        if from >= n {
            assert(from == n);
            vstd::arithmetic::div_mod::lemma_mod_self_0(n as int);
        }
    } else {
        lemma_least_divisor_from_props(n, from + 1);
    }
}

/// A divisor with nothing below it is exactly the least prime factor.
proof fn lemma_least_prime_factor_eq(n: nat, p: nat)
    requires
        2 <= n,
        2 <= p <= n,
        n % p == 0,
        forall|e: nat| 2 <= e < p ==> #[trigger] (n % e) != 0,
    ensures
        least_prime_factor(n) == p,
{
    lemma_least_divisor_from_props(n, 2);
    let q = least_prime_factor(n);
    if q < p {
        assert(n % q != 0);
    }
    if p < q {
        assert(n % p != 0);
    }
}

/// Stripping is bounded and leaves no factor of `p` behind.
proof fn lemma_strip_bounds(n: nat, p: nat)
    requires
        1 <= n,
        2 <= p,
    ensures
        1 <= strip_factor(n, p) <= n,
        strip_factor(n, p) % p != 0,
        n % p == 0 ==> strip_factor(n, p) < n,
    decreases n,
{
    if n % p == 0 {
        vstd::arithmetic::div_mod::lemma_div_decreases(n as int, p as int);
        assert(n / p >= 1) by {
            assert(n >= p) by {
                if n < p {
                    vstd::arithmetic::div_mod::lemma_small_mod(n, p);
                }
            }
            vstd::arithmetic::div_mod::lemma_div_is_ordered(p as int, n as int, p as int);
            vstd::arithmetic::div_mod::lemma_div_by_multiple(1, p as int);
        }
        lemma_strip_bounds((n / p) as nat, p);
    }
}

/// The stripped part and the multiplicity reassemble `n` exactly.
proof fn lemma_strip_decomposition(n: nat, p: nat)
    requires
        1 <= n,
        2 <= p,
    ensures
        n as int == pow(p as int, factor_multiplicity(n, p)) * (strip_factor(n, p) as int),
        n % p == 0 ==> factor_multiplicity(n, p) >= 1,
    decreases n,
{
    if n % p == 0 {
        lemma_strip_bounds(n, p);
        assert(n >= p) by {
            if n < p {
                vstd::arithmetic::div_mod::lemma_small_mod(n, p);
            }
        }
        assert(n / p >= 1) by {
            vstd::arithmetic::div_mod::lemma_div_is_ordered(p as int, n as int, p as int);
            vstd::arithmetic::div_mod::lemma_div_by_multiple(1, p as int);
        }
        vstd::arithmetic::div_mod::lemma_div_decreases(n as int, p as int);
        lemma_strip_decomposition((n / p) as nat, p);
        let m = (n / p) as nat;
        let a1 = factor_multiplicity(m, p);
        vstd::arithmetic::div_mod::lemma_fundamental_div_mod(n as int, p as int);
        assert(n as int == p * (m as int));
        lemma_pow_adds(p as int, 1nat, a1);
        lemma_pow1(p as int);
        assert(factor_multiplicity(n, p) == 1 + a1);
        assert(strip_factor(n, p) == strip_factor(m, p));
        assert(p * (pow(p as int, a1) * (strip_factor(m, p) as int)) == (p * pow(p as int, a1))
            * (strip_factor(m, p) as int)) by (nonlinear_arith);
    } else {
        lemma_pow0(p as int);
    }
}

/// The totient of a number that is its own least prime factor (a prime).
proof fn lemma_phi_of_prime(m: nat)
    requires
        2 <= m,
        least_prime_factor(m) == m,
        factor_multiplicity(m, m) == 1,
        strip_factor(m, m) == 1,
    ensures
        euler_phi_spec(m) == m - 1,
{
    reveal_with_fuel(euler_phi_spec, 2);
    lemma_pow0(m as int);
    assert(euler_phi_spec(1nat) == 1);
    assert(euler_phi_spec(m) == (pow(m as int, 0) * (m - 1) * (euler_phi_spec(1nat) as int))
        as nat);
    assert(pow(m as int, 0) * (m - 1) * 1int == m - 1) by (nonlinear_arith)
        requires
            pow(m as int, 0) == 1,
    ;
}

/// Euler's totient by trial factoring up to the square root, with the
/// running product updated once per distinct prime factor.
pub fn euler_phi(n: u64) -> (r: u64)
    ensures
        r as nat == euler_phi_spec(n as nat),
{
    if n == 0 {
        return 0;
    }
    let mut result: u64 = n;
    let mut m: u64 = n;
    let mut p: u64 = 2;
    let ghost mut cf: int = 1;

    while square_at_most_aks(p, m)
        invariant
            1 <= m <= n,
            2 <= p,
            p == 2 || p % 2 == 1,
            cf >= 1,
            result as int == cf * m as int,
            euler_phi_spec(n as nat) as int == cf * (euler_phi_spec(m as nat) as int),
            forall|e: nat| 2 <= e < p ==> #[trigger] ((m as nat) % e) != 0,
        decreases m, m + 3 - p,
    {
        proof {
            assert(p <= m && p <= 0x1_0000_0000) by (nonlinear_arith)
                requires
                    2 <= p,
                    (p as int) * (p as int) <= m,
                    m < 0x1_0000_0000_0000_0000,
            ;
        }
        if m % p == 0 {
            let ghost m_old = m as nat;
            let ghost pn = p as nat;
            while m % p == 0
                invariant
                    1 <= m,
                    2 <= p,
                    strip_factor(m as nat, p as nat) == strip_factor(m_old, p as nat),
                    m <= m_old,
                decreases m,
            {
                proof {
                    assert(m >= p) by {
                        if m < p {
                            vstd::arithmetic::div_mod::lemma_small_mod(m as nat, p as nat);
                        }
                    }
                    vstd::arithmetic::div_mod::lemma_div_is_ordered(
                        p as int,
                        m as int,
                        p as int,
                    );
                    vstd::arithmetic::div_mod::lemma_div_by_multiple(1, p as int);
                }
                proof {
                    vstd::arithmetic::div_mod::lemma_div_decreases(m as int, p as int);
                }
                m = m / p;
            }
            proof {
                assert(m_old % pn == 0);
                assert(m_old >= pn) by {
                    if m_old < pn {
                        vstd::arithmetic::div_mod::lemma_small_mod(m_old, pn);
                    }
                }
                assert((m as nat) < m_old);
                // the stripped value is exactly what the spec strips
                assert(strip_factor(m as nat, pn) == m as nat);
                assert(strip_factor(m_old, pn) == m as nat);
                lemma_strip_decomposition(m_old, pn);
                lemma_least_prime_factor_eq(m_old, pn);
                let a = factor_multiplicity(m_old, pn);
                let pk1 = pow(p as int, (a - 1) as nat);
                lemma_pow_positive(p as int, (a - 1) as nat);
                assert(pk1 * (p - 1) * (euler_phi_spec(m as nat) as int) >= 0) by (
                nonlinear_arith)
                    requires
                        pk1 >= 1,
                        p >= 2,
                        euler_phi_spec(m as nat) >= 0,
                ;
                // unfold phi at m_old
                assert(euler_phi_spec(m_old) as int == pk1 * (p - 1) * (euler_phi_spec(
                    m as nat,
                ) as int));
                lemma_pow_adds(p as int, 1nat, (a - 1) as nat);
                lemma_pow1(p as int);
                assert(m_old as int == (p * pk1) * (m as int));
                // result == cf * m_old == p * (cf * pk1 * m)
                assert(result as int == p * ((cf * pk1) * (m as int))) by (nonlinear_arith)
                    requires
                        result as int == cf * (m_old as int),
                        m_old as int == (p * pk1) * (m as int),
                ;
                assert((result as int) % (p as int) == 0 && result as int / (p as int) == (cf
                    * pk1) * (m as int)) by {
                    vstd::arithmetic::div_mod::lemma_mod_multiples_basic(
                        (cf * pk1) * (m as int),
                        p as int,
                    );
                    vstd::arithmetic::div_mod::lemma_div_by_multiple(
                        (cf * pk1) * (m as int),
                        p as int,
                    );
                    assert(p * ((cf * pk1) * (m as int)) == ((cf * pk1) * (m as int)) * (
                    p as int)) by (nonlinear_arith);
                }
            }
            let ghost cf_old = cf;
            proof {
                cf = cf * pow(p as int, (factor_multiplicity(m_old, pn) - 1) as nat) * (
                p as int - 1);
            }
            result = result - result / p;
            proof {
                let a = factor_multiplicity(m_old, pn);
                let pk1 = pow(p as int, (a - 1) as nat);
                assert(result as int == cf * (m as int)) by (nonlinear_arith)
                    requires
                        result as int == p * ((cf_old * pk1) * (m as int)) - (cf_old * pk1) * (
                        m as int),
                        cf == cf_old * pk1 * (p as int - 1),
                ;
                assert(cf >= 1) by (nonlinear_arith)
                    requires
                        cf_old >= 1,
                        pk1 >= 1,
                        p >= 2,
                        cf == cf_old * pk1 * (p as int - 1),
                ;
                assert(euler_phi_spec(n as nat) as int == cf * (euler_phi_spec(
                    m as nat,
                ) as int)) by (nonlinear_arith)
                    requires
                        euler_phi_spec(n as nat) as int == cf_old * (euler_phi_spec(
                            m_old,
                        ) as int),
                        euler_phi_spec(m_old) as int == pk1 * (p as int - 1) * (euler_phi_spec(
                            m as nat,
                        ) as int),
                        cf == cf_old * pk1 * (p as int - 1),
                ;
                // m keeps having no small factors: a factor of m divides m_old
                assert((m_old as int) % (m as int) == 0) by {
                    vstd::arithmetic::div_mod::lemma_mod_multiples_basic(
                        pow(p as int, factor_multiplicity(m_old, pn)),
                        m as int,
                    );
                }
                assert forall|e: nat| 2 <= e < p implies #[trigger] ((m as nat) % e) != 0 by {
                    if (m as nat) % e == 0 {
                        crate::primes::lemma_divides_transitive(
                            e as int,
                            m as int,
                            m_old as int,
                        );
                        assert((m_old % e) != 0);
                    }
                }
            }
        }
        proof {
            // the next candidate (and the even number it skips) cannot
            // divide m either
            assert((m as nat) % (p as nat) != 0);
            if p >= 3 && (m as nat) % ((p + 1) as nat) == 0 {
                crate::primes::lemma_divides_transitive(2, p as int + 1, m as int);
            }
        }
        if p == 2 {
            p = 3;
        } else {
            p = p + 2;
        }
    }
    if m > 1 {
        proof {
            // m has no divisor up to its square root, so it is its own least
            // prime factor, and its totient contribution is m - 1.
            assert forall|e: nat| 2 <= e < m implies #[trigger] ((m as nat) % e) != 0 by {
                if (m as nat) % e == 0 {
                    if e < p {
                        // contradicts the loop invariant directly
                    } else {
                        // the cofactor is a divisor below the square root
                        let f = (m as nat) / e;
                        vstd::arithmetic::div_mod::lemma_fundamental_div_mod(m as int, e as int);
                        assert(m as int == e * f);
                        assert(2 <= f && f < p && (f as int) * (f as int) <= m) by (
                        nonlinear_arith)
                            requires
                                m as int == e * (f as int),
                                2 <= e < m,
                                e >= p,
                                2 <= p,
                                (p as int) * (p as int) > m,
                        ;
                        vstd::arithmetic::div_mod::lemma_mod_multiples_basic(e as int, f as int);
                        assert((m as nat) % f == 0);
                    }
                }
            }
            vstd::arithmetic::div_mod::lemma_mod_self_0(m as int);
            lemma_least_prime_factor_eq(m as nat, m as nat);
            assert(m / m == 1) by {
                vstd::arithmetic::div_mod::lemma_div_by_multiple(1, m as int);
            }
            assert(factor_multiplicity(m as nat, m as nat) == 1 && strip_factor(
                m as nat,
                m as nat,
            ) == 1) by {
                reveal_with_fuel(factor_multiplicity, 3);
                reveal_with_fuel(strip_factor, 3);
                lemma_small_mod(1nat, m as nat);
            }
            lemma_pow0(m as int);
            lemma_phi_of_prime(m as nat);
            assert(result as int == (m as int) * cf) by (nonlinear_arith)
                requires
                    result as int == cf * (m as int),
            ;
            vstd::arithmetic::div_mod::lemma_div_by_multiple(cf, m as int);
            assert(result as int / (m as int) == cf);
        }
        let ghost cf0 = cf;
        result = result - result / m;
        proof {
            assert(result as int == cf0 * (m as int - 1)) by (nonlinear_arith)
                requires
                    result as int == cf0 * (m as int) - cf0,
            ;
            assert(euler_phi_spec(n as nat) as int == cf0 * (euler_phi_spec(m as nat) as int));
        }
    }
    result
}

/// The bound check the factoring loop runs on: is `p * p` still at most `m`?
fn square_at_most_aks(p: u64, m: u64) -> (b: bool)
    ensures
        b == ((p as int) * (p as int) <= m as int),
{
    proof {
        assert((p as u128) * (p as u128) <= u128::MAX) by (nonlinear_arith)
            requires
                (p as u128) < 0x1_0000_0000_0000_0000,
        ;
    }
    (p as u128) * (p as u128) <= m as u128
}


/// One wrap-around product of the cyclic convolution: row `i`'s
/// contribution to column `k`, reduced modulo `n` when `reduce` is set.
pub open spec fn conv_term(a: Seq<u64>, b: Seq<u64>, n: u64, k: int, i: int, reduce: bool) -> int {
    let r = a.len() as int;
    let t = (a[i] as int) * (b[(k - i) % r] as int);
    if reduce {
        t % (n as int)
    } else {
        t
    }
}

/// Partial column sum of the cyclic convolution over the first `cnt` rows.
pub open spec fn conv_sum(a: Seq<u64>, b: Seq<u64>, n: u64, k: int, cnt: int, reduce: bool) -> int
    decreases cnt,
{
    if cnt <= 0 {
        0
    } else {
        conv_sum(a, b, n, k, cnt - 1, reduce) + conv_term(a, b, n, k, cnt - 1, reduce)
    }
}

/// The product of two length-`r` coefficient vectors in the ring of
/// polynomials modulo `X^r - 1` with coefficients modulo `n`.
pub open spec fn poly_mul_spec(a: Seq<u64>, b: Seq<u64>, n: u64) -> Seq<u64> {
    Seq::new(a.len(), |k: int| ((conv_sum(a, b, n, k, a.len() as int, false) % (n as int)) as u64))
}

/// The worst case of one convolution term.
pub open spec fn conv_term_bound(n: u64, reduce: bool) -> int {
    if reduce {
        n - 1
    } else {
        (n - 1) * (n - 1)
    }
}

/// Every partial column sum is non-negative and grows by at most the term
/// bound per row.
proof fn lemma_conv_sum_bound(a: Seq<u64>, b: Seq<u64>, n: u64, k: int, cnt: int, reduce: bool)
    requires
        a.len() == b.len(),
        a.len() >= 1,
        n >= 1,
        0 <= cnt <= a.len(),
        forall|i: int| 0 <= i < a.len() ==> #[trigger] a[i] < n,
        forall|i: int| 0 <= i < b.len() ==> #[trigger] b[i] < n,
    ensures
        0 <= conv_sum(a, b, n, k, cnt, reduce) <= cnt * conv_term_bound(n, reduce),
    decreases cnt,
{
    let r = a.len() as int;
    if cnt <= 0 {
        assert(cnt * conv_term_bound(n, reduce) == 0) by (nonlinear_arith)
            requires
                cnt == 0,
        ;
    } else {
        lemma_conv_sum_bound(a, b, n, k, cnt - 1, reduce);
        let i = cnt - 1;
        let idx = (k - i) % r;
        vstd::arithmetic::div_mod::lemma_mod_bound(k - i, r);
        assert(0 <= (a[i] as int) * (b[idx] as int) <= (n - 1) * (n - 1)) by (nonlinear_arith)
            requires
                0 <= a[i] < n,
                0 <= b[idx] < n,
        ;
        if reduce {
            vstd::arithmetic::div_mod::lemma_mod_bound((a[i] as int) * (b[idx] as int), n as int);
        }
        assert((cnt - 1) * conv_term_bound(n, reduce) + conv_term_bound(n, reduce) == cnt
            * conv_term_bound(n, reduce)) by (nonlinear_arith);
        assert(conv_term(a, b, n, k, i, reduce) <= conv_term_bound(n, reduce));
    }
}

/// Reducing each term before summing does not change the column modulo `n`.
proof fn lemma_conv_sum_mod(a: Seq<u64>, b: Seq<u64>, n: u64, k: int, cnt: int)
    requires
        n >= 1,
    ensures
        conv_sum(a, b, n, k, cnt, true) % (n as int) == conv_sum(a, b, n, k, cnt, false) % (
        n as int),
    decreases cnt,
{
    if cnt > 0 {
        lemma_conv_sum_mod(a, b, n, k, cnt - 1);
        let s1 = conv_sum(a, b, n, k, cnt - 1, true);
        let s0 = conv_sum(a, b, n, k, cnt - 1, false);
        let t0 = conv_term(a, b, n, k, cnt - 1, false);
        let t1 = conv_term(a, b, n, k, cnt - 1, true);
        let ni = n as int;
        assert(t1 == t0 % ni);
        vstd::arithmetic::div_mod::lemma_add_mod_noop(s1, t1, ni);
        vstd::arithmetic::div_mod::lemma_add_mod_noop(s0, t0, ni);
        vstd::arithmetic::div_mod::lemma_mod_twice(t0, ni);
        assert((s1 % ni + t1 % ni) % ni == (s0 % ni + t0 % ni) % ni);
    }
}

/// A column index below `r` is hit by row `i`'s term at inner offset `j`
/// exactly when it is the wrapped position of `i + j`.
proof fn lemma_wrap_position(k: int, i: int, j: int, r: int)
    requires
        0 < r,
        0 <= k < r,
        0 <= i < r,
        0 <= j < r,
    ensures
        ((k - i) % r == j) <==> (k == (i + j) % r),
{
    if (k - i) % r == j {
        vstd::arithmetic::div_mod::lemma_add_mod_noop_right(i, k - i, r);
        assert((i + ((k - i) % r)) % r == k % r);
        vstd::arithmetic::div_mod::lemma_small_mod(k as nat, r as nat);
    }
    if k == (i + j) % r {
        vstd::arithmetic::div_mod::lemma_sub_mod_noop(i + j, i, r);
        assert(((i + j) % r - i % r) % r == j % r);
        vstd::arithmetic::div_mod::lemma_small_mod(i as nat, r as nat);
        vstd::arithmetic::div_mod::lemma_small_mod(j as nat, r as nat);
    }
}

/// Multiply two residue polynomials: exponents wrap modulo `r`, coefficients
/// are reduced modulo `n`. Zero coefficients are skipped as a pruning step,
/// and products are accumulated wide, with one reduction per column (plus
/// one per term when `n` itself is too wide for that).
pub fn poly_mul_mod(a: &Vec<u64>, b: &Vec<u64>, r: u64, n: u64) -> (c: Vec<u64>)
    requires
        a@.len() == r as nat,
        b@.len() == r as nat,
        1 <= r <= 0x8000_0000,
        2 <= n,
        forall|i: int| 0 <= i < a@.len() ==> #[trigger] a@[i] < n,
        forall|i: int| 0 <= i < b@.len() ==> #[trigger] b@[i] < n,
    ensures
        c@ == poly_mul_spec(a@, b@, n),
        c@.len() == r as nat,
        forall|i: int| 0 <= i < c@.len() ==> #[trigger] c@[i] < n,
{
    let r_us: usize = r as usize;
    let reduce: bool = n > 0x1_0000_0000;
    let mut acc: Vec<u128> = Vec::new();
    while acc.len() < r_us
        invariant
            r_us == r,
            acc@.len() <= r as nat,
            forall|k: int| 0 <= k < acc@.len() ==> #[trigger] acc@[k] == 0,
        decreases r_us - acc.len(),
    {
        acc.push(0);
    }

    let mut i: usize = 0;
    while i < r_us
        invariant
            a@.len() == r as nat,
            b@.len() == r as nat,
            1 <= r <= 0x8000_0000,
            r_us == r,
            2 <= n,
            reduce == (n > 0x1_0000_0000),
            forall|t: int| 0 <= t < a@.len() ==> #[trigger] a@[t] < n,
            forall|t: int| 0 <= t < b@.len() ==> #[trigger] b@[t] < n,
            i <= r_us,
            acc@.len() == r as nat,
            forall|k: int|
                0 <= k < r ==> #[trigger] acc@[k] == conv_sum(a@, b@, n, k, i as int, reduce),
        decreases r_us - i,
    {
        let ghost iv = i as int;
        if a[i] != 0 {
            let ai: u64 = a[i];
            let mut j: usize = 0;
            while j < r_us
                invariant
                    a@.len() == r as nat,
                    b@.len() == r as nat,
                    1 <= r <= 0x8000_0000,
                    r_us == r,
                    2 <= n,
                    reduce == (n > 0x1_0000_0000),
                    forall|t: int| 0 <= t < a@.len() ==> #[trigger] a@[t] < n,
                    forall|t: int| 0 <= t < b@.len() ==> #[trigger] b@[t] < n,
                    iv == i as int,
                    0 <= iv < r,
                    ai == a@[iv],
                    j <= r_us,
                    acc@.len() == r as nat,
                    forall|k: int|
                        0 <= k < r ==> #[trigger] acc@[k] == conv_sum(a@, b@, n, k, iv, reduce) + (
                        if (k - iv) % (r as int) < j as int {
                            conv_term(a@, b@, n, k, iv, reduce)
                        } else {
                            0
                        }),
                decreases r_us - j,
            {
                let ghost jv = j as int;
                let ghost rr = r as int;
                if b[j] != 0 {
                    proof {
                        assert((ai as u128) * (b@[jv] as u128) <= u128::MAX) by (nonlinear_arith)
                            requires
                                (ai as u128) < 0x1_0000_0000_0000_0000u128,
                                (b@[jv] as u128) < 0x1_0000_0000_0000_0000u128,
                        ;
                    }
                    let t: u128 = if reduce {
                        ((ai as u128) * (b[j] as u128)) % (n as u128)
                    } else {
                        (ai as u128) * (b[j] as u128)
                    };
                    let mut pos: usize = i + j;
                    if pos >= r_us {
                        pos = pos - r_us;
                    }
                    proof {
                        // pos is (i + j) % r
                        if iv + jv < rr {
                            vstd::arithmetic::div_mod::lemma_small_mod(
                                (iv + jv) as nat,
                                rr as nat,
                            );
                        } else {
                            vstd::arithmetic::div_mod::lemma_mod_sub_multiples_vanish(
                                iv + jv,
                                rr,
                            );
                            vstd::arithmetic::div_mod::lemma_small_mod(
                                (iv + jv - rr) as nat,
                                rr as nat,
                            );
                        }
                        assert(pos as int == (iv + jv) % rr);
                        // the new term is exactly the spec's term for this slot
                        lemma_wrap_position(pos as int, iv, jv, rr);
                        assert((pos as int - iv) % rr == jv);
                        // the accumulator stays far below the 128-bit limit:
                        // each term is under 2^64 and there are under 2^32
                        assert(conv_term_bound(n, reduce) < 0x1_0000_0000_0000_0000int) by {
                            if !reduce {
                                assert((n - 1) * (n - 1) < 0x1_0000_0000_0000_0000int) by (
                                nonlinear_arith)
                                    requires
                                        1 <= n <= 0x1_0000_0000,
                                ;
                            }
                        }
                        lemma_conv_sum_bound(a@, b@, n, pos as int, iv, reduce);
                        assert(iv * conv_term_bound(n, reduce)
                            < 0x1_0000_0000_0000_0000_0000_0000int) by (nonlinear_arith)
                            requires
                                0 <= iv < 0x1_0000_0000,
                                0 <= conv_term_bound(n, reduce) < 0x1_0000_0000_0000_0000int,
                        ;
                        assert(t as int <= conv_term_bound(n, reduce)) by {
                            if reduce {
                                vstd::arithmetic::div_mod::lemma_mod_bound(
                                    (ai as int) * (b@[jv] as int),
                                    n as int,
                                );
                            } else {
                                assert((ai as int) * (b@[jv] as int) <= (n - 1) * (n - 1)) by (
                                nonlinear_arith)
                                    requires
                                        0 <= ai < n,
                                        0 <= b@[jv] < n,
                                ;
                            }
                        }
                        vstd::arithmetic::div_mod::lemma_mod_bound(pos as int - iv, rr);
                    }
                    let ghost oldacc = acc@;
                    let sum: u128 = acc[pos] + t;
                    acc.set(pos, sum);
                    proof {
                        assert forall|k: int| 0 <= k < r implies #[trigger] acc@[k] == conv_sum(
                            a@,
                            b@,
                            n,
                            k,
                            iv,
                            reduce,
                        ) + (if (k - iv) % rr < jv + 1 {
                            conv_term(a@, b@, n, k, iv, reduce)
                        } else {
                            0
                        }) by {
                            lemma_wrap_position(k, iv, jv, rr);
                            if k == pos as int {
                                assert(t as int == conv_term(a@, b@, n, k, iv, reduce));
                            } else {
                                assert((k - iv) % rr != jv);
                                vstd::arithmetic::div_mod::lemma_mod_bound(k - iv, rr);
                            }
                        }
                    }
                } else {
                    proof {
                        assert forall|k: int| 0 <= k < r implies #[trigger] acc@[k] == conv_sum(
                            a@,
                            b@,
                            n,
                            k,
                            iv,
                            reduce,
                        ) + (if (k - iv) % rr < jv + 1 {
                            conv_term(a@, b@, n, k, iv, reduce)
                        } else {
                            0
                        }) by {
                            lemma_wrap_position(k, iv, jv, rr);
                            if (k - iv) % rr == jv {
                                assert(b@[jv] == 0);
                                assert(conv_term(a@, b@, n, k, iv, reduce) == 0) by {
                                    assert((a@[iv] as int) * 0int == 0) by (nonlinear_arith);
                                    if reduce {
                                        vstd::arithmetic::div_mod::lemma_small_mod(
                                            0nat,
                                            n as nat,
                                        );
                                    }
                                }
                            } else {
                                vstd::arithmetic::div_mod::lemma_mod_bound(k - iv, rr);
                            }
                        }
                    }
                }
                j += 1;
            }
            proof {
                assert forall|k: int| 0 <= k < r implies #[trigger] acc@[k] == conv_sum(
                    a@,
                    b@,
                    n,
                    k,
                    iv + 1,
                    reduce,
                ) by {
                    vstd::arithmetic::div_mod::lemma_mod_bound(k - iv, r as int);
                }
            }
        } else {
            proof {
                // a zero row contributes nothing to any column
                assert forall|k: int| 0 <= k < r implies #[trigger] acc@[k] == conv_sum(
                    a@,
                    b@,
                    n,
                    k,
                    iv + 1,
                    reduce,
                ) by {
                    assert(conv_term(a@, b@, n, k, iv, reduce) == 0) by {
                        assert((0int) * (b@[(k - iv) % (r as int)] as int) == 0) by (
                        nonlinear_arith);
                        if reduce {
                            vstd::arithmetic::div_mod::lemma_small_mod(0nat, n as nat);
                        }
                    }
                }
            }
        }
        i += 1;
    }

    let mut c: Vec<u64> = Vec::new();
    while c.len() < r_us
        invariant
            a@.len() == r as nat,
            b@.len() == r as nat,
            1 <= r <= 0x8000_0000,
            r_us == r,
            2 <= n,
            reduce == (n > 0x1_0000_0000),
            acc@.len() == r as nat,
            forall|k: int|
                0 <= k < r ==> #[trigger] acc@[k] == conv_sum(a@, b@, n, k, r as int, reduce),
            c@.len() <= r as nat,
            forall|k: int|
                0 <= k < c@.len() ==> #[trigger] c@[k] == poly_mul_spec(a@, b@, n)[k],
            forall|k: int| 0 <= k < c@.len() ==> #[trigger] c@[k] < n,
        decreases r_us - c.len(),
    {
        let k: usize = c.len();
        let v: u64 = (acc[k] % (n as u128)) as u64;
        proof {
            let ki = k as int;
            if reduce {
                lemma_conv_sum_mod(a@, b@, n, ki, r as int);
            }
            vstd::arithmetic::div_mod::lemma_mod_bound(
                conv_sum(a@, b@, n, ki, r as int, false),
                n as int,
            );
            vstd::arithmetic::div_mod::lemma_mod_bound(acc@[ki] as int, n as int);
        }
        c.push(v);
    }
    proof {
        assert(c@ =~= poly_mul_spec(a@, b@, n));
    }
    c
}

/// The constant polynomial 1 in a ring of length-`r` residue vectors.
pub open spec fn poly_one(r: nat) -> Seq<u64> {
    Seq::new(r, |i: int| if i == 0 { 1u64 } else { 0u64 })
}

/// Square-and-multiply exponentiation in the residue polynomial ring:
/// `b^e` is `(b*b)^(e/2)`, times `b` once more when `e` is odd.
pub open spec fn poly_pow_spec(b: Seq<u64>, e: nat, n: u64) -> Seq<u64>
    decreases e,
{
    if e == 0 {
        poly_one(b.len())
    } else {
        let h = poly_pow_spec(poly_mul_spec(b, b, n), (e / 2) as nat, n);
        if e % 2 == 1 {
            poly_mul_spec(h, b, n)
        } else {
            h
        }
    }
}

/// Polynomial exponentiation `poly^exp` modulo `(X^r - 1, n)` by
/// square-and-multiply, exactly as `poly_pow_spec` states it.
pub fn poly_pow_mod(poly: &Vec<u64>, exp: u64, r: u64, n: u64) -> (res: Vec<u64>)
    requires
        poly@.len() == r as nat,
        1 <= r <= 0x8000_0000,
        2 <= n,
        forall|i: int| 0 <= i < poly@.len() ==> #[trigger] poly@[i] < n,
    ensures
        res@ == poly_pow_spec(poly@, exp as nat, n),
        res@.len() == r as nat,
        forall|i: int| 0 <= i < res@.len() ==> #[trigger] res@[i] < n,
    decreases exp,
{
    if exp == 0 {
        let r_us: usize = r as usize;
        let mut one: Vec<u64> = Vec::new();
        one.push(1);
        while one.len() < r_us
            invariant
                1 <= one@.len() <= r as nat,
                r_us == r,
                one@[0] == 1u64,
                forall|i: int| 1 <= i < one@.len() ==> #[trigger] one@[i] == 0u64,
            decreases r_us - one.len(),
        {
            one.push(0);
        }
        proof {
            assert(one@ =~= poly_one(poly@.len()));
        }
        one
    } else {
        let sq: Vec<u64> = poly_mul_mod(poly, poly, r, n);
        let half: Vec<u64> = poly_pow_mod(&sq, exp / 2, r, n);
        if exp % 2 == 1 {
            poly_mul_mod(&half, poly, r, n)
        } else {
            half
        }
    }
}

/// The residue vector of `X + a` in the length-`r` ring.
pub open spec fn x_plus_a(r: nat, a: u64, n: u64) -> Seq<u64> {
    Seq::new(r, |i: int| if i == 0 { a % n } else if i == 1 { 1u64 } else { 0u64 })
}

/// The residue vector that `(X + a)^n` must equal for the congruence
/// `(X + a)^n == X^n + a (mod X^r - 1, n)` to hold: `a mod n` at position
/// zero, one at position `n mod r`, zero elsewhere.
pub open spec fn expected_power(n: u64, r: u64, a: u64) -> Seq<u64> {
    Seq::new(
        r as nat,
        |i: int| if i == 0 { a % n } else if i == (n % r) as int { 1u64 } else { 0u64 },
    )
}

/// The AKS polynomial congruence for witness `a`.
pub open spec fn polynomial_congruence_holds(n: u64, r: u64, a: u64) -> bool {
    poly_pow_spec(x_plus_a(r as nat, a, n), n as nat, n) == expected_power(n, r, a)
}

/// Check the congruence `(X + a)^n == X^n + a (mod X^r - 1, n)` by raising
/// `X + a` to the `n`-th power in the ring and comparing coefficients.
pub fn check_polynomial_congruence(n: u64, r: u64, a: u64) -> (holds: bool)
    requires
        2 <= n,
        2 <= r <= 0x8000_0000,
    ensures
        holds == polynomial_congruence_holds(n, r, a),
{
    let r_us: usize = r as usize;
    let a_mod: u64 = a % n;
    let mut poly: Vec<u64> = Vec::new();
    poly.push(a_mod);
    poly.push(1);
    while poly.len() < r_us
        invariant
            2 <= poly@.len() <= r as nat,
            r_us == r,
            2 <= n,
            a_mod == a % n,
            poly@[0] == a % n,
            poly@[1] == 1u64,
            forall|i: int| 2 <= i < poly@.len() ==> #[trigger] poly@[i] == 0u64,
        decreases r_us - poly.len(),
    {
        poly.push(0);
    }
    proof {
        assert(poly@ =~= x_plus_a(r as nat, a, n));
    }

    let result: Vec<u64> = poly_pow_mod(&poly, n, r, n);
    let n_mod_r: u64 = n % r;

    let mut k: usize = 0;
    while k < r_us
        invariant
            r_us == r,
            2 <= r,
            result@.len() == r as nat,
            n_mod_r == n % r,
            a_mod == a % n,
            result@ == poly_pow_spec(x_plus_a(r as nat, a, n), n as nat, n),
            forall|t: int| 0 <= t < k as int ==> #[trigger] result@[t] == expected_power(n, r, a)[t],
        decreases r_us - k,
    {
        let expected: u64 = if k == 0 {
            a_mod
        } else if k as u64 == n_mod_r {
            1
        } else {
            0
        };
        proof {
            assert(expected == expected_power(n, r, a)[k as int]);
        }
        if result[k] != expected {
            proof {
                assert(result@[k as int] != expected_power(n, r, a)[k as int]);
            }
            return false;
        }
        k += 1;
    }
    proof {
        assert(result@ =~= expected_power(n, r, a));
    }
    true
}


/// A usable polynomial modulus for candidate `n`: coprime to `n`, and the
/// multiplicative order of `n` modulo `r` exceeds the order threshold.
pub open spec fn valid_modulus(n: u64, r: u64) -> bool {
    &&& crate::primes::gcd(n as nat, r as nat) == 1
    &&& multiplicative_order_spec(n, r) > order_threshold_spec(n)
}

/// The first valid modulus at or after `from`, with the search capped:
/// every `n` the polynomial stage can actually process finds its modulus
/// long before the cap.
pub open spec fn smallest_r_search(n: u64, from: int) -> int
    decreases 0x8000_0000 - from,
    when from <= 0x8000_0000
{
    if from >= 0x8000_0000 {
        0x8000_0000
    } else if valid_modulus(n, from as u64) {
        from
    } else {
        smallest_r_search(n, from + 1)
    }
}

/// The smallest valid modulus for `n` (capped).
pub open spec fn smallest_r_spec(n: u64) -> int {
    smallest_r_search(n, 2)
}

/// Scan `r = 2, 3, 4, ...` for the first modulus that is coprime to `n`
/// and gives `n` a large enough multiplicative order.
pub fn find_smallest_r(n: u64) -> (r: u64)
    requires
        2 <= n,
    ensures
        r as int == smallest_r_spec(n),
        2 <= r <= 0x8000_0000,
{
    let threshold: u64 = order_threshold(n);
    let mut r: u64 = 2;
    while r < 0x8000_0000
        invariant
            2 <= n,
            2 <= r <= 0x8000_0000,
            threshold as nat == order_threshold_spec(n),
            smallest_r_search(n, 2) == smallest_r_search(n, r as int),
        decreases 0x8000_0000 - r,
    {
        let g: u64 = gcd(n, r);
        if g == 1 {
            let order: u64 = multiplicative_order(n, r);
            if order > threshold {
                proof {
                    assert(valid_modulus(n, r));
                }
                return r;
            }
        }
        proof {
            assert(!valid_modulus(n, r));
        }
        r = r + 1;
    }
    r
}

/// Some `b` up to `min(r, n - 1)` shares a proper factor with `n`.
pub open spec fn shares_factor_below(n: u64, r: u64) -> bool {
    exists|b: u64|
        2 <= b && b <= r && b <= n - 1 && 1 < #[trigger] crate::primes::gcd(b as nat, n as nat)
            < n
}

/// The number of congruence witnesses the polynomial stage must survive:
/// an integer upper bound of `sqrt(phi(r)) * log2(n)`.
pub open spec fn congruence_limit(n: u64, r: u64) -> int {
    (crate::primes::isqrt(euler_phi_spec(r as nat) as int) + 1) * (clog2(n as nat) as int)
}

/// The decision of the staged AKS procedure on `n`: reject 0, 1 and perfect
/// powers; find the smallest valid modulus `r`; reject on a shared factor
/// below `r`; accept small `n` outright; otherwise accept exactly when every
/// congruence `(X + a)^n == X^n + a (mod X^r - 1, n)` holds up to the limit.
pub open spec fn aks_decides(n: u64) -> bool {
    if n <= 1 {
        false
    } else if perfect_power(n) {
        false
    } else {
        let r = smallest_r_spec(n) as u64;
        if shares_factor_below(n, r) {
            false
        } else if n <= r {
            true
        } else {
            forall|a: u64|
                1 <= a <= congruence_limit(n, r) ==> #[trigger] polynomial_congruence_holds(
                    n,
                    r,
                    a,
                )
        }
    }
}

/// The AKS deterministic primality test, staged exactly as `aks_decides`
/// describes.
pub fn is_prime(n: u64) -> (res: bool)
    ensures
        res == aks_decides(n),
{
    if n <= 1 {
        return false;
    }

    // Stage 1: perfect powers (and 1) are composite or excluded.
    if is_perfect_power(n) {
        return false;
    }

    // Stage 2: the smallest modulus whose order is large enough.
    let r: u64 = find_smallest_r(n);

    // Stage 3: a shared factor below r settles compositeness.
    let lim3: u64 = if r < n - 1 {
        r
    } else {
        n - 1
    };
    let mut b: u64 = 2;
    while b <= lim3
        invariant
            2 <= n,
            2 <= r,
            !perfect_power(n),
            r as int == smallest_r_spec(n),
            lim3 == if r < n - 1 { r } else { (n - 1) as u64 },
            2 <= b <= lim3 + 1,
            forall|bb: u64|
                2 <= bb && bb < b ==> !(1 < #[trigger] crate::primes::gcd(bb as nat, n as nat)
                    < n),
        decreases lim3 + 1 - b,
    {
        let g: u64 = gcd(b, n);
        if g > 1 && g < n {
            proof {
                assert(shares_factor_below(n, r));
            }
            return false;
        }
        b += 1;
    }
    proof {
        assert(!shares_factor_below(n, r));
    }

    // Stage 4: candidates no larger than r are prime by exhaustion above.
    if n <= r {
        return true;
    }

    // Stage 5: the polynomial congruences for a = 1 ..= limit.
    let phi_r: u64 = euler_phi(r);
    let s: u64 = crate::trial_division_newton::newton_sqrt_integer(phi_r);
    let cl: u64 = ceil_log2_u128(n as u128);
    proof {
        assert(s < 0x1_0000_0000) by (nonlinear_arith)
            requires
                (s as int) * (s as int) <= phi_r,
                phi_r < 0x1_0000_0000_0000_0000,
                s >= 0,
        ;
        assert(0 <= (s + 1) * cl < 0x80_0000_0000int) by (nonlinear_arith)
            requires
                0 <= s < 0x1_0000_0000,
                cl <= 120,
        ;
        crate::primes::lemma_isqrt_unique(phi_r as int, s as int);
    }
    let limit: u64 = (s + 1) * cl;
    let mut a: u64 = 1;
    while a <= limit
        invariant
            2 <= n,
            2 <= r <= 0x8000_0000,
            !perfect_power(n),
            r as int == smallest_r_spec(n),
            !shares_factor_below(n, r),
            r < n,
            1 <= a <= limit + 1,
            limit < 0x80_0000_0000,
            limit as int == congruence_limit(n, r),
            forall|aa: u64|
                1 <= aa && aa < a ==> #[trigger] polynomial_congruence_holds(n, r, aa),
        decreases limit + 1 - a,
    {
        if !check_polynomial_congruence(n, r, a) {
            return false;
        }
        a += 1;
    }
    true
}


/// Perfect powers never pass: the test rejects them at its first stage,
/// before any later stage can run.
pub proof fn lemma_aks_rejects_perfect_powers(n: u64)
    requires
        perfect_power(n),
    ensures
        !aks_decides(n),
{
}

} // verus!
