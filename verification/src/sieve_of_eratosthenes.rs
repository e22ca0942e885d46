//! Sieve of Eratosthenes over a bit-packed array: one bit per candidate,
//! sixty-four candidates per machine word. The result is the ascending
//! sequence of exactly the primes up to the bound.

use vstd::prelude::*;
use crate::primes::{lemma_composite_has_small_divisor, prime};
use vstd::arithmetic::div_mod::{lemma_fundamental_div_mod, lemma_mod_multiples_basic};

verus! {

/// The bit that the packed word array keeps for candidate `i`.
pub open spec fn bit_set(words: Seq<u64>, i: int) -> bool
    recommends
        0 <= i,
        i / 64 < words.len(),
{
    ((words[i / 64] >> ((i % 64) as u64)) & 1u64) == 1u64
}

/// Candidate `m` has been struck out by some divisor below `bound`: a
/// `d` with `2 <= d < bound` that divides `m` and satisfies `d * d <= m`.
spec fn struck(m: int, bound: int) -> bool {
    exists|d: int| 2 <= d < bound && d * d <= m && #[trigger] (m % d) == 0
}

proof fn lemma_bit_of_ones(k: u64)
    by (bit_vector)
    requires
        k < 64,
    ensures
        ((0xffff_ffff_ffff_ffffu64 >> k) & 1u64) == 1u64,
{
}

proof fn lemma_clear_bit_other(w: u64, k1: u64, k2: u64)
    by (bit_vector)
    requires
        k1 < 64,
        k2 < 64,
        k1 != k2,
    ensures
        (((w & !(1u64 << k2)) >> k1) & 1u64) == ((w >> k1) & 1u64),
{
}

proof fn lemma_clear_bit_same(w: u64, k: u64)
    by (bit_vector)
    requires
        k < 64,
    ensures
        (((w & !(1u64 << k)) >> k) & 1u64) == 0u64,
{
}

/// Two multiples of `i` less than `i` apart are the same multiple.
proof fn lemma_multiple_in_gap(m: int, j: int, i: int)
    requires
        i >= 1,
        m % i == 0,
        j % i == 0,
        j <= m < j + i,
    ensures
        m == j,
{
    lemma_fundamental_div_mod(m, i);
    lemma_fundamental_div_mod(j, i);
    assert(m == j) by (nonlinear_arith)
        requires
            i >= 1,
            m == i * (m / i),
            j == i * (j / i),
            j <= m < j + i,
    ;
}

/// Read the bit for candidate `idx`.
fn get_bit(words: &Vec<u64>, idx: u64) -> (b: bool)
    requires
        idx as int / 64 < words@.len(),
    ensures
        b == bit_set(words@, idx as int),
{
    // The length read pins the word count inside the address space, which
    // makes the index cast exact.
    let len: usize = words.len();
    let wi: usize = (idx / 64) as usize;
    proof {
        assert(wi < len);
    }
    let w: u64 = words[wi];
    ((w >> (idx % 64)) & 1) == 1
}

/// Clear the bit for candidate `idx`, leaving every other bit alone.
fn clear_bit(words: &mut Vec<u64>, idx: u64)
    requires
        idx as int / 64 < old(words)@.len(),
    ensures
        final(words)@.len() == old(words)@.len(),
        !bit_set(final(words)@, idx as int),
        forall|j: int|
            0 <= j && j / 64 < final(words)@.len() && j != idx as int ==> bit_set(final(words)@, j)
                == bit_set(old(words)@, j),
{
    // As in get_bit, the length read keeps the index cast exact.
    let len: usize = words.len();
    let wpos: usize = (idx / 64) as usize;
    proof {
        assert(wpos < len);
    }
    let sh: u64 = idx % 64;
    let w: u64 = words[wpos];
    let nw: u64 = w & !(1u64 << sh);
    words.set(wpos, nw);
    proof {
        lemma_clear_bit_same(w, sh);
        assert(!bit_set(words@, idx as int));
        assert forall|j: int|
            0 <= j && j / 64 < words@.len() && j != idx as int implies bit_set(words@, j)
            == bit_set(old(words)@, j) by {
            if j / 64 == idx as int / 64 {
                let k1 = (j % 64) as u64;
                assert(j % 64 != idx as int % 64) by {
                    lemma_fundamental_div_mod(j, 64);
                    lemma_fundamental_div_mod(idx as int, 64);
                }
                lemma_clear_bit_other(w, k1, sh);
            }
        }
    }
}

/// The bound check the marking loop runs on: is `i * i` still at most `n`?
fn square_within(i: u64, n: u64) -> (b: bool)
    ensures
        b == ((i as int) * (i as int) <= n as int),
{
    proof {
        assert((i as u128) * (i as u128) <= u128::MAX) by (nonlinear_arith)
            requires
                (i as u128) < 0x1_0000_0000_0000_0000,
        ;
    }
    (i as u128) * (i as u128) <= n as u128
}

/// Enumerate all primes up to and including `n`, in ascending order.
/// The bound on `n` only keeps the bitmap's word count addressable.
pub fn sieve(n: u64) -> (primes_list: Vec<u64>)
    requires
        n / 64 < usize::MAX as u64,
    ensures
        forall|k: int|
            0 <= k < primes_list@.len() ==> prime(#[trigger] primes_list@[k] as int)
                && primes_list@[k] <= n,
        forall|k1: int, k2: int|
            0 <= k1 < k2 < primes_list@.len() ==> primes_list@[k1] < primes_list@[k2],
        forall|p: u64| prime(p as int) && p <= n ==> primes_list@.contains(p),
{
    let mut primes_list: Vec<u64> = Vec::new();
    if n < 2 {
        proof {
            assert forall|p: u64| prime(p as int) && p <= n implies primes_list@.contains(p) by {
                assert(p < 2);
            }
        }
        return primes_list;
    }

    let size: usize = (n / 64 + 1) as usize;
    let mut words: Vec<u64> = Vec::new();
    while words.len() < size
        invariant
            size == n as int / 64 + 1,
            words@.len() <= size,
            forall|w: int| 0 <= w < words@.len() ==> words@[w] == 0xffff_ffff_ffff_ffffu64,
        decreases size - words.len(),
    {
        words.push(0xffff_ffff_ffff_ffffu64);
    }
    proof {
        assert forall|m: int| 0 <= m <= n implies bit_set(words@, m) by {
            assert(0 <= m / 64 < words@.len()) by {
                vstd::arithmetic::div_mod::lemma_div_is_ordered(m, n as int, 64);
            }
            lemma_bit_of_ones((m % 64) as u64);
        }
    }

    // Strike 0 and 1; nothing in [2, n] is struck yet.
    clear_bit(&mut words, 0);
    clear_bit(&mut words, 1);
    proof {
        assert forall|m: int| 0 <= m <= n implies bit_set(words@, m) == (m >= 2 && !struck(m, 2))
            by {
            assert(0 <= m / 64 < words@.len()) by {
                vstd::arithmetic::div_mod::lemma_div_is_ordered(m, n as int, 64);
            }
            if m >= 2 {
                assert(!struck(m, 2));
            }
        }
    }

    let mut i: u64 = 2;
    while square_within(i, n)
        invariant
            n >= 2,
            2 <= i,
            i <= n,
            words@.len() == n as int / 64 + 1,
            n / 64 < usize::MAX as u64,
            forall|m: int|
                0 <= m <= n ==> #[trigger] bit_set(words@, m) == (m >= 2 && !struck(m, i as int)),
        decreases n - i,
    {
        let ghost iv = i as int;
        proof {
            assert(i < n) by (nonlinear_arith)
                requires
                    2 <= i,
                    n >= 2,
                    (i as int) * (i as int) <= n,
            ;
        }
        if get_bit(&words, i) {
            proof {
                assert(0 <= iv / 64 < words@.len()) by {
                    vstd::arithmetic::div_mod::lemma_div_is_ordered(iv, n as int, 64);
                }
            }
            let mut j: u128 = (i as u128) * (i as u128);
            proof {
                assert(j == iv * iv);
                lemma_mod_multiples_basic(iv, iv);
                assert((iv * iv) % iv == 0);
                assert forall|m: int| 0 <= m <= n implies bit_set(words@, m) == (m >= 2 && !struck(
                    m,
                    iv,
                ) && !(iv * iv <= m < j && m % iv == 0)) by {
                    assert(bit_set(words@, m) == (m >= 2 && !struck(m, i as int)));
                }
            }
            while j <= n as u128
                invariant
                    n >= 2,
                    2 <= i < n,
                    iv == i as int,
                    iv * iv <= n,
                    words@.len() == n as int / 64 + 1,
                    iv * iv <= j,
                    (j as int) % iv == 0,
                    j <= n as u128 + i as u128,
                    forall|m: int|
                        0 <= m <= n ==> #[trigger] bit_set(words@, m) == (m >= 2 && !struck(m, iv)
                            && !(iv * iv <= m < j && m % iv == 0)),
                decreases n as u128 + i as u128 - j,
            {
                let ghost oldwords = words@;
                clear_bit(&mut words, j as u64);
                j = j + i as u128;
                proof {
                    let jo = (j - i) as int;
                    assert((j as int) % iv == 0) by {
                        vstd::arithmetic::div_mod::lemma_mod_add_multiples_vanish(jo, iv);
                    }
                    assert forall|m: int| 0 <= m <= n implies bit_set(words@, m) == (m >= 2
                        && !struck(m, iv) && !(iv * iv <= m < j && m % iv == 0)) by {
                        assert(0 <= m / 64 < words@.len()) by {
                            vstd::arithmetic::div_mod::lemma_div_is_ordered(m, n as int, 64);
                        }
                        if m == jo {
                            assert(!bit_set(words@, m));
                        } else {
                            assert(bit_set(words@, m) == bit_set(oldwords, m));
                            assert(bit_set(oldwords, m) == (m >= 2 && !struck(m, iv) && !(iv * iv
                                <= m < jo && m % iv == 0)));
                            if iv * iv <= m < j && m % iv == 0 && !(iv * iv <= m < jo) {
                                // m is a multiple of iv in [jo, jo + iv), so m == jo
                                lemma_multiple_in_gap(m, jo, iv);
                                assert(false);
                            }
                        }
                    }
                }
            }
            proof {
                assert forall|m: int| 0 <= m <= n implies bit_set(words@, m) == (m >= 2 && !struck(
                    m,
                    iv + 1,
                )) by {
                    if m >= 2 && bit_set(words@, m) && struck(m, iv + 1) {
                        let d = choose|d: int| 2 <= d < iv + 1 && d * d <= m && #[trigger] (m % d)
                            == 0;
                        if d == iv {
                            assert(iv * iv <= m && m % iv == 0 && m <= n);
                            assert(m < j);
                        } else {
                            assert(struck(m, iv));
                        }
                    }
                    if m >= 2 && !bit_set(words@, m) {
                        assert(struck(m, iv) || (iv * iv <= m < j && m % iv == 0));
                        if !struck(m, iv) {
                            assert(2 <= iv < iv + 1 && iv * iv <= m && m % iv == 0);
                            assert(struck(m, iv + 1));
                        } else {
                            assert(struck(m, iv + 1));
                        }
                    }
                }
            }
        } else {
            proof {
                // i itself was struck, so any multiple of i at or past i*i
                // is already covered by i's own small divisor.
                assert(struck(iv, iv));
                let d = choose|d: int| 2 <= d < iv && d * d <= iv && #[trigger] (iv % d) == 0;
                assert forall|m: int| 0 <= m <= n implies bit_set(words@, m) == (m >= 2 && !struck(
                    m,
                    iv + 1,
                )) by {
                    if m >= 2 {
                        if struck(m, iv + 1) && !struck(m, iv) {
                            // the only new witness is iv itself
                            assert(iv * iv <= m && m % iv == 0);
                            crate::primes::lemma_divides_transitive(d, iv, m);
                            assert(d * d <= m) by (nonlinear_arith)
                                requires
                                    d * d <= iv,
                                    2 <= iv,
                                    iv * iv <= m,
                            ;
                            assert(struck(m, iv));
                        }
                    }
                }
            }
        }
        i += 1;
    }
    proof {
        // Past the square root, "struck" coincides with "composite".
        assert forall|m: int| 2 <= m <= n implies bit_set(words@, m) == prime(m) by {
            if struck(m, i as int) {
                let d = choose|d: int| 2 <= d < i as int && d * d <= m && #[trigger] (m % d) == 0;
                assert(d < m) by (nonlinear_arith)
                    requires
                        2 <= d,
                        d * d <= m,
                ;
                assert(!prime(m));
            }
            if !prime(m) {
                lemma_composite_has_small_divisor(m);
                let d = choose|d: int| 2 <= d && d * d <= m && #[trigger] (m % d) == 0;
                assert(d < i as int) by (nonlinear_arith)
                    requires
                        d * d <= m,
                        m <= n,
                        (n as int) < (i as int) * (i as int),
                        d >= 0,
                        i >= 0,
                ;
                assert(struck(m, i as int));
            }
        }
    }

    // Collect the surviving candidates in ascending order.
    let mut idx: u128 = 0;
    while idx <= n as u128
        invariant
            n >= 2,
            idx <= n as u128 + 1,
            words@.len() == n as int / 64 + 1,
            forall|m: int| 2 <= m <= n ==> #[trigger] bit_set(words@, m) == prime(m),
            forall|k: int|
                0 <= k < primes_list@.len() ==> prime(#[trigger] primes_list@[k] as int)
                    && primes_list@[k] <= n && (primes_list@[k] as int) < idx,
            forall|k1: int, k2: int|
                0 <= k1 < k2 < primes_list@.len() ==> primes_list@[k1] < primes_list@[k2],
            forall|p: u64| prime(p as int) && (p as u128) < idx ==> primes_list@.contains(p),
        decreases n as u128 + 1 - idx,
    {
        let ghost oldlist = primes_list@;
        let keep: bool = if idx >= 2 {
            proof {
                vstd::arithmetic::div_mod::lemma_div_is_ordered(idx as int, n as int, 64);
            }
            get_bit(&words, idx as u64)
        } else {
            false
        };
        if keep {
            primes_list.push(idx as u64);
        }
        idx = idx + 1;
        proof {
            let pv = (idx - 1) as int;
            if keep {
                assert(prime(pv));
                assert(primes_list@ == oldlist.push(pv as u64));
                assert forall|p: u64| prime(p as int) && (p as u128) < idx implies primes_list@
                    .contains(p) by {
                    if (p as int) < pv {
                        assert(oldlist.contains(p));
                        let k = choose|k: int| 0 <= k < oldlist.len() && oldlist[k] == p;
                        assert(primes_list@[k] == p);
                    } else {
                        assert(p as int == pv);
                        assert(primes_list@[primes_list@.len() - 1] == p);
                    }
                }
            } else {
                assert forall|p: u64| prime(p as int) && (p as u128) < idx implies primes_list@
                    .contains(p) by {
                    if p as int == pv {
                        assert(pv >= 2 ==> bit_set(words@, pv) == prime(pv));
                        assert(false);
                    }
                }
            }
        }
    }
    primes_list
}

} // verus!
