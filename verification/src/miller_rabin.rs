//! Deterministic Miller–Rabin primality test for 64-bit integers, using a
//! fixed twelve-element witness set. The contracts pin every function to the
//! textbook strong-probable-prime predicate; that this particular witness set
//! decides true primality for the whole 64-bit range is a published
//! number-theoretic result about the set itself.

use vstd::prelude::*;
use vstd::arithmetic::power::{
    lemma_pow1, lemma_pow_adds, lemma_pow_mod_noop, lemma_pow_multiplies, pow,
};
use vstd::arithmetic::power2::{lemma_pow2_unfold, pow2};
use vstd::arithmetic::div_mod::{
    lemma_div_by_multiple, lemma_mod_multiples_basic, lemma_mul_mod_noop_general,
};
use vstd::arithmetic::mul::lemma_mul_is_associative;

verus! {

/// The fixed ordered witness set; sufficient for all `n < 2^64`.
pub open spec fn witnesses() -> Seq<u64> {
    seq![2u64, 3u64, 5u64, 7u64, 11u64, 13u64, 17u64, 19u64, 23u64, 29u64, 31u64, 37u64]
}

/// Number of factors of two in `m` (zero when `m` is zero or odd).
pub open spec fn two_adic_valuation(m: nat) -> nat
    decreases m,
{
    if m == 0 {
        0
    } else if m % 2 == 0 {
        1 + two_adic_valuation(m / 2)
    } else {
        0
    }
}

/// The odd part of `m`: `m` with every factor of two removed.
pub open spec fn odd_part(m: nat) -> nat
    decreases m,
{
    if m == 0 {
        0
    } else if m % 2 == 0 {
        odd_part(m / 2)
    } else {
        m
    }
}

/// The decomposition `m == d * 2^s` with `d` odd is unique, so it must be
/// the one given by `odd_part` and `two_adic_valuation`.
pub proof fn lemma_two_adic_unique(m: nat, d: nat, s: nat)
    requires
        d % 2 == 1,
        m == d * pow2(s),
    ensures
        two_adic_valuation(m) == s,
        odd_part(m) == d,
    decreases s,
{
    if s == 0 {
        assert(pow2(0) == 1) by {
            vstd::arithmetic::power::lemma_pow0(2);
        }
        assert(m == d);
    } else {
        lemma_pow2_unfold(s);
        assert(m == d * (2 * pow2((s - 1) as nat)));
        assert(m == (d * pow2((s - 1) as nat)) * 2) by (nonlinear_arith)
            requires
                m == d * (2 * pow2((s - 1) as nat)),
        ;
        let half = d * pow2((s - 1) as nat);
        assert(m % 2 == 0) by {
            lemma_mod_multiples_basic(half as int, 2);
        }
        assert(m / 2 == half) by {
            lemma_div_by_multiple(half as int, 2);
        }
        assert(m != 0) by {
            vstd::arithmetic::power2::lemma_pow2_pos((s - 1) as nat);
            assert(d >= 1);
            assert(half >= pow2((s - 1) as nat)) by (nonlinear_arith)
                requires
                    d >= 1,
                    pow2((s - 1) as nat) >= 1,
                    half == d * pow2((s - 1) as nat),
            ;
        }
        lemma_two_adic_unique(half, d, (s - 1) as nat);
    }
}

/// `n` is a strong probable prime to base `w`: writing `n - 1 == d * 2^s`
/// with `d` odd, either `w^d == 1 (mod n)`, or `w^(d * 2^j) == n - 1 (mod n)`
/// for some `j < s`.
pub open spec fn strong_probable_prime(n: nat, w: nat) -> bool
    recommends
        n >= 3,
{
    let d = odd_part((n - 1) as nat);
    let s = two_adic_valuation((n - 1) as nat);
    ||| pow(w as int, d) % (n as int) == 1
    ||| exists|j: nat|
        j < s && #[trigger] pow(w as int, d * pow2(j)) % (n as int) == n - 1
}

/// The decision of the deterministic Miller–Rabin procedure: small cases are
/// settled directly; otherwise `n` passes exactly when, for every witness
/// `w`, either `n == w` or `n` is a strong probable prime to base `w`.
pub open spec fn miller_rabin_decides(n: u64) -> bool {
    if n <= 1 {
        false
    } else if n <= 3 {
        true
    } else if n % 2 == 0 || n % 3 == 0 {
        false
    } else if n < 9 {
        true
    } else {
        forall|k: int|
            0 <= k < witnesses().len() ==> {
                let w = #[trigger] witnesses()[k];
                n == w || strong_probable_prime(n as nat, w as nat)
            }
    }
}

/// Modular exponentiation `base^exp mod m` by binary exponentiation with
/// double-width intermediates; a modulus of one yields zero.
pub fn mod_pow(base: u64, exp: u64, m: u64) -> (r: u64)
    requires
        m >= 1,
    ensures
        r as int == pow(base as int, exp as nat) % (m as int),
{
    if m == 1 {
        return 0;
    }
    let m128: u128 = m as u128;
    let mut base128: u128 = (base % m) as u128;
    let mut result: u128 = 1;
    let mut e: u64 = exp;

    proof {
        lemma_pow_mod_noop(base as int, exp as nat, m as int);
        vstd::arithmetic::div_mod::lemma_small_mod(1nat, m as nat);
    }
    while e > 0
        invariant
            m >= 2,
            m128 == m,
            base128 < m128,
            result < m128,
            (result as int * pow(base128 as int, e as nat)) % (m as int) == pow(
                base as int,
                exp as nat,
            ) % (m as int),
        decreases e,
    {
        let ghost result0 = result as int;
        let ghost b0 = base128 as int;
        let ghost e0 = e as nat;
        proof {
            assert(result * base128 <= u128::MAX && base128 * base128 <= u128::MAX) by (
            nonlinear_arith)
                requires
                    result < m128,
                    base128 < m128,
                    m128 < 0x1_0000_0000_0000_0000,
            ;
        }
        if e % 2 == 1 {
            result = (result * base128) % m128;
        }
        e = e / 2;
        base128 = (base128 * base128) % m128;
        proof {
            let mi = m as int;
            // pow(b0, 2) == b0 * b0
            lemma_pow1(b0);
            lemma_pow_adds(b0, 1nat, 1nat);
            assert(pow(b0, 2) == b0 * b0);
            // pow of the squared base: pow((b0*b0) % m, e) == pow(b0, 2*e) % m
            lemma_pow_mod_noop(b0 * b0, e as nat, mi);
            lemma_pow_multiplies(b0, 2nat, e as nat);
            assert(pow(base128 as int, e as nat) % mi == pow(b0, (2 * e) as nat) % mi);
            if e0 % 2 == 1 {
                assert(e0 == 2 * (e as nat) + 1);
                lemma_pow_adds(b0, 1nat, (2 * e) as nat);
                assert(pow(b0, e0) == b0 * pow(b0, (2 * e) as nat));
                // fold both reduced factors back in
                lemma_mul_mod_noop_general(result0 * b0, pow(b0, (2 * e) as nat), mi);
                lemma_mul_mod_noop_general(result0, b0, mi);
                assert(result as int == (result0 * b0) % mi);
                assert((result as int * pow(base128 as int, e as nat)) % mi == ((result0 * b0) % mi
                    * (pow(b0, (2 * e) as nat) % mi)) % mi) by {
                    lemma_mul_mod_noop_general(result as int, pow(base128 as int, e as nat), mi);
                }
                assert(((result0 * b0) % mi * (pow(b0, (2 * e) as nat) % mi)) % mi == ((result0
                    * b0) * pow(b0, (2 * e) as nat)) % mi) by {
                    lemma_mul_mod_noop_general(result0 * b0, pow(b0, (2 * e) as nat), mi);
                }
                assert((result0 * b0) * pow(b0, (2 * e) as nat) == result0 * pow(b0, e0)) by {
                    lemma_mul_is_associative(result0, b0, pow(b0, (2 * e) as nat));
                }
            } else {
                assert(e0 == 2 * (e as nat));
                assert((result as int * pow(base128 as int, e as nat)) % mi == (result0 * (pow(
                    b0,
                    e0,
                ) % mi)) % mi) by {
                    lemma_mul_mod_noop_general(result0, pow(base128 as int, e as nat), mi);
                    lemma_mul_mod_noop_general(result0, pow(b0, e0), mi);
                }
                assert((result0 * (pow(b0, e0) % mi)) % mi == (result0 * pow(b0, e0)) % mi) by {
                    lemma_mul_mod_noop_general(result0, pow(b0, e0), mi);
                }
            }
        }
    }
    proof {
        vstd::arithmetic::power::lemma_pow0(base128 as int);
        vstd::arithmetic::div_mod::lemma_small_mod(result as nat, m as nat);
    }
    result as u64
}

/// Squaring modulo `n` with a double-width intermediate.
pub fn mod_sqr(x: u64, n: u64) -> (r: u64)
    requires
        n >= 1,
    ensures
        r as int == (x as int * x as int) % (n as int),
{
    let x128: u128 = x as u128;
    let n128: u128 = n as u128;
    proof {
        assert(x128 * x128 <= u128::MAX) by (nonlinear_arith)
            requires
                x128 < 0x1_0000_0000_0000_0000,
        ;
    }
    ((x128 * x128) % n128) as u64
}

/// One witness round of Miller–Rabin. Given the shared decomposition
/// `n - 1 == d * 2^r` with `d` odd, decides whether `n` is a strong
/// probable prime to base `witness`.
pub fn miller_rabin_test(n: u64, witness: u64, d: u64, r: u32) -> (passes: bool)
    requires
        n >= 3,
        r >= 1,
        d % 2 == 1,
        (n - 1) as nat == d as nat * pow2(r as nat),
    ensures
        passes == strong_probable_prime(n as nat, witness as nat),
{
    proof {
        lemma_two_adic_unique((n - 1) as nat, d as nat, r as nat);
        assert(pow2(0) == 1) by {
            vstd::arithmetic::power::lemma_pow0(2);
        }
    }
    let ghost wi = witness as int;
    let ghost ni = n as int;
    let mut x = mod_pow(witness, d, n);

    if x == 1 || x == n - 1 {
        proof {
            if x == n - 1 {
                assert(d as nat * pow2(0) == d as nat);
                assert(pow(wi, d as nat * pow2(0)) % ni == n - 1);
            }
        }
        return true;
    }
    proof {
        assert(d as nat * pow2(0) == d as nat);
        vstd::arithmetic::div_mod::lemma_mod_bound(pow(wi, d as nat), ni);
    }
    let mut k: u32 = 0;
    while k < r - 1
        invariant
            n >= 3,
            r >= 1,
            ni == n as int,
            wi == witness as int,
            two_adic_valuation((n - 1) as nat) == r as nat,
            odd_part((n - 1) as nat) == d as nat,
            k < r,
            x < n,
            x as int == pow(wi, d as nat * pow2(k as nat)) % ni,
            x != n - 1,
            pow(wi, d as nat) % ni != 1,
            forall|j: nat|
                j <= k as nat ==> #[trigger] pow(wi, d as nat * pow2(j)) % ni != n - 1,
        decreases r - k,
    {
        let ghost x0 = x as int;
        let ghost ek = d as nat * pow2(k as nat);
        x = mod_sqr(x, n);
        k = k + 1;
        proof {
            assert((x0 * x0) % ni == (pow(wi, ek) * pow(wi, ek)) % ni) by {
                lemma_mul_mod_noop_general(pow(wi, ek), pow(wi, ek), ni);
            }
            lemma_pow_adds(wi, ek, ek);
            lemma_pow2_unfold(k as nat);
            assert(ek + ek == d as nat * pow2(k as nat)) by (nonlinear_arith)
                requires
                    ek == d as nat * pow2((k - 1) as nat),
                    pow2(k as nat) == 2 * pow2((k - 1) as nat),
            ;
            assert(x as int == pow(wi, d as nat * pow2(k as nat)) % ni);
        }
        if x == n - 1 {
            proof {
                assert(pow(wi, d as nat * pow2(k as nat)) % ni == n - 1);
                assert((k as nat) < two_adic_valuation((n - 1) as nat));
            }
            return true;
        }
        proof {
            assert forall|j: nat| j <= k as nat implies #[trigger] pow(wi, d as nat * pow2(j)) % ni
                != n - 1 by {
                if j == k as nat {
                    assert(pow(wi, d as nat * pow2(j)) % ni == x as int);
                }
            }
        }
    }
    proof {
        assert forall|j: nat| j < two_adic_valuation((n - 1) as nat) implies #[trigger] pow(
            wi,
            d as nat * pow2(j),
        ) % ni != n - 1 by {
            assert(j <= k as nat);
        }
    }
    false
}

/// Deterministic Miller–Rabin over the fixed witness set; the result is
/// exactly the decision of the procedure on `n`.
pub fn is_prime(n: u64) -> (res: bool)
    ensures
        res == miller_rabin_decides(n),
{
    if n <= 1 {
        return false;
    }
    if n <= 3 {
        return true;
    }
    if n % 2 == 0 || n % 3 == 0 {
        return false;
    }
    if n < 9 {
        return true;
    }

    let mut ws: Vec<u64> = Vec::new();
    ws.push(2);
    ws.push(3);
    ws.push(5);
    ws.push(7);
    ws.push(11);
    ws.push(13);
    ws.push(17);
    ws.push(19);
    ws.push(23);
    ws.push(29);
    ws.push(31);
    ws.push(37);
    proof {
        assert(ws@ =~= witnesses());
    }

    // Decompose n - 1 = d * 2^r with d odd, shared across all witnesses.
    let mut d: u64 = n - 1;
    let mut r: u32 = 0;
    proof {
        assert(pow2(0) == 1) by {
            vstd::arithmetic::power::lemma_pow0(2);
        }
    }
    while d % 2 == 0
        invariant
            1 <= d <= n - 1,
            r < 64,
            (n - 1) as nat == d as nat * pow2(r as nat),
            r == 0 ==> d == n - 1,
        decreases d,
    {
        let ghost dd = d as nat;
        d = d / 2;
        r = r + 1;
        proof {
            assert(dd == 2 * (d as nat));
            lemma_pow2_unfold(r as nat);
            assert(dd * pow2((r - 1) as nat) == d as nat * pow2(r as nat)) by (nonlinear_arith)
                requires
                    dd == 2 * (d as nat),
                    pow2(r as nat) == 2 * pow2((r - 1) as nat),
            ;
            assert(r < 64) by {
                if r >= 64 {
                    vstd::arithmetic::power2::lemma2_to64();
                    vstd::arithmetic::power2::lemma_pow2_strictly_increases(63, r as nat);
                    assert(d as nat * pow2(r as nat) >= pow2(r as nat)) by (nonlinear_arith)
                        requires
                            d >= 1,
                            pow2(r as nat) >= 0,
                    ;
                }
            }
        }
    }
    proof {
        assert(r >= 1);
    }

    let mut idx: usize = 0;
    while idx < 12
        invariant
            n >= 9,
            n % 2 != 0,
            1 <= d,
            d % 2 == 1,
            r >= 1,
            (n - 1) as nat == d as nat * pow2(r as nat),
            ws@ =~= witnesses(),
            ws.len() == 12,
            forall|k: int|
                0 <= k < idx ==> {
                    let w = #[trigger] witnesses()[k];
                    n == w || strong_probable_prime(n as nat, w as nat)
                },
        decreases 12 - idx,
    {
        let w = ws[idx];
        if n != w {
            if !miller_rabin_test(n, w, d, r) {
                proof {
                    assert(!{
                        let wk = witnesses()[idx as int];
                        n == wk || strong_probable_prime(n as nat, wk as nat)
                    });
                }
                return false;
            }
        }
        idx += 1;
    }
    true
}

} // verus!
