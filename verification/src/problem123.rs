//! Prime square remainders.
//!
//! Let p(n) be the n-th prime and r the remainder of (p(n) − 1)ⁿ +
//! (p(n) + 1)ⁿ on division by p(n)². For odd n the remainder is 2·n·p(n),
//! for even n it is 2. Wanted: the least n for which the remainder exceeds
//! ten to the tenth.

use vstd::prelude::*;
use crate::primes::{all_primes, is_nth_prime, is_prime, next_prime, primes_below, walk_position};

verus! {

/// Twice `n` times its prime exceeds `min_rem`, for every prime that is
/// the `n`-th.
pub open spec fn exceeds(n: nat, min_rem: nat) -> bool {
    exists|p: nat| #[trigger] is_nth_prime(p, (n - 1) as nat) && 2 * n * p > min_rem
}

/// The prime with `k` primes below it fits in a machine word, so the walk
/// along the primes comes to it.
pub open spec fn is_in_reach(k: nat) -> bool {
    exists|p: nat| #[trigger] is_nth_prime(p, k) && p <= usize::MAX
}

/// `n` is the first among `start`, `start` + 2, … for which twice n times
/// the n-th prime exceeds `min_rem`.
pub open spec fn is_first_exceeding(start: nat, min_rem: nat, n: nat) -> bool {
    &&& n >= start
    &&& (n - start) % 2 == 0
    &&& exceeds(n, min_rem)
    &&& forall|k: nat| start <= k < n && (k - start) % 2 == 0 ==> !#[trigger] exceeds(k, min_rem)
}

/// Below `m` there is a prime for every count of primes that is less than
/// the count of the primes below `m`.
pub proof fn lemma_counted(m: nat, j: nat)
    requires
        j < primes_below(m),
    ensures
        exists|q: nat| q < m && #[trigger] is_nth_prime(q, j),
    decreases m,
{
    if m > 0 {
        let below = (m - 1) as nat;
        if j < primes_below(below) {
            lemma_counted(below, j);
            let q = choose|q: nat| q < below && #[trigger] is_nth_prime(q, j);
            assert(q < m && is_nth_prime(q, j));
        } else {
            assert(is_nth_prime(below, j));
        }
    }
}

/// A walk that comes to a prime has come to every prime before it.
pub proof fn lemma_reach_is_downward(j: nat, k: nat)
    requires
        j <= k,
        is_in_reach(k),
    ensures
        is_in_reach(j),
{
    let p = choose|p: nat| #[trigger] is_nth_prime(p, k) && p <= usize::MAX;
    assert(primes_below(p + 1) == k + 1);
    lemma_counted(p + 1, j);
    let q = choose|q: nat| q < p + 1 && #[trigger] is_nth_prime(q, j);
    assert(is_nth_prime(q, j) && q <= usize::MAX);
}

/// The walk has ended before the prime with `k` primes below it: no n
/// whose prime comes later is the first in reach.
proof fn lemma_walk_ended(start: nat, min_rem: nat, k: nat)
    requires
        !is_in_reach(k),
        forall|n: nat| #[trigger]
            is_first_exceeding(start, min_rem, n) ==> n >= k + 1,
    ensures
        forall|n: nat| #[trigger]
            is_first_exceeding(start, min_rem, n) ==> !is_in_reach((n - 1) as nat),
{
    assert forall|n: nat| #[trigger] is_first_exceeding(start, min_rem, n) implies !is_in_reach(
        (n - 1) as nat,
    ) by {
        if is_in_reach((n - 1) as nat) {
            lemma_reach_is_downward(k, (n - 1) as nat);
        }
    }
}

/// Below a number from two on there are at least two numbers that are no
/// primes, so fewer primes than the number less one.
pub proof fn lemma_primes_below(n: nat)
    requires
        n >= 2,
    ensures
        primes_below(n) <= n - 2,
    decreases n,
{
    if n > 2 {
        lemma_primes_below((n - 1) as nat);
    } else {
        reveal_with_fuel(primes_below, 3);
        assert(!is_prime(0));
        assert(!is_prime(1));
    }
}

/// The counts of primes below two primes tell which of the two is smaller,
/// so there is one n-th prime.
pub proof fn lemma_primes_below_grows(a: nat, b: nat)
    requires
        a <= b,
    ensures
        primes_below(a) <= primes_below(b),
        a < b && is_prime(a) ==> primes_below(a) < primes_below(b),
    decreases b,
{
    if a < b {
        lemma_primes_below_grows(a, (b - 1) as nat);
    }
}

/// Whether twice `n` times `p` exceeds `min_rem`.
pub fn remainder_exceeds(n: usize, p: usize, min_rem: u64) -> (over: bool)
    ensures
        over == (2 * n * p > min_rem),
{
    assert(n * p <= 0xFFFF_FFFF_FFFF_FFFF * 0xFFFF_FFFF_FFFF_FFFF) by (nonlinear_arith)
        requires
            0 <= n <= 0xFFFF_FFFF_FFFF_FFFF,
            0 <= p <= 0xFFFF_FFFF_FFFF_FFFF,
    ;
    let np: u128 = (n as u128) * (p as u128);
    assert(2 * n * p == 2 * (n * p)) by (nonlinear_arith);
    np > (min_rem / 2) as u128
}

/// The first n among `start`, `start` + 2, … for which twice n times the
/// n-th prime exceeds `min_rem`. Zero if the n-th prime does not fit in a
/// machine word, so that the walk along the primes ends before it.
pub fn option1(start: usize, min_rem: u64) -> (found: usize)
    requires
        start >= 1,
    ensures
        found != 0 ==> is_first_exceeding(start as nat, min_rem as nat, found as nat)
            && is_in_reach((found - 1) as nat),
        forall|n: nat| #[trigger]
            is_first_exceeding(start as nat, min_rem as nat, n) && is_in_reach((n - 1) as nat)
                ==> found == n,
{
    let mut walk = all_primes();
    let mut skipped: usize = 0;
    while skipped < start - 1
        invariant
            skipped <= start - 1,
            walk_position(walk) == skipped,
        decreases start - 1 - skipped,
    {
        match next_prime(&mut walk) {
            Some(_) => {},
            None => {
                proof {
                    assert(!is_in_reach(skipped as nat));
                    lemma_walk_ended(start as nat, min_rem as nat, skipped as nat);
                }
                return 0;
            },
        }
        skipped += 1;
    }
    let mut n: usize = start;
    loop
        invariant
            n >= start,
            start >= 1,
            (n - start) % 2 == 0,
            walk_position(walk) == n - 1,
            forall|k: nat|
                start <= k < n && (k - start) % 2 == 0 ==> !#[trigger] exceeds(k, min_rem as nat),
        decreases min_rem + 2 - n,
    {
        let p = match next_prime(&mut walk) {
            Some(p) => p,
            None => {
                proof {
                    assert(!is_in_reach((n - 1) as nat));
                    assert forall|m: nat| #[trigger]
                        is_first_exceeding(start as nat, min_rem as nat, m) implies m >= n by {
                        if m < n {
                            assert(!exceeds(m, min_rem as nat));
                        }
                    }
                    lemma_walk_ended(start as nat, min_rem as nat, (n - 1) as nat);
                }
                return 0;
            },
        };
        if remainder_exceeds(n, p, min_rem) {
            proof {
                assert(is_nth_prime(p as nat, (n - 1) as nat));
                assert(exceeds(n as nat, min_rem as nat));
                assert(is_in_reach((n - 1) as nat));
                assert(is_first_exceeding(start as nat, min_rem as nat, n as nat));
                assert forall|m: nat| #[trigger]
                    is_first_exceeding(start as nat, min_rem as nat, m) implies m == n by {
                    if m < n {
                        assert(!exceeds(m, min_rem as nat));
                    }
                }
            }
            return n;
        }
        proof {
            lemma_primes_below(p as nat);
            assert(p >= n + 1);
            assert(2 * n * p >= n) by (nonlinear_arith)
                requires
                    p >= 1,
                    n >= 0,
            ;
            assert forall|q: nat| #[trigger]
                is_nth_prime(q, (n - 1) as nat) implies 2 * n * q <= min_rem by {
                if q < p {
                    lemma_primes_below_grows(q, p as nat);
                } else if q > p {
                    lemma_primes_below_grows(p as nat, q);
                }
            }
            assert(!exceeds(n as nat, min_rem as nat));
        }
        match next_prime(&mut walk) {
            Some(after) => {
                proof {
                    lemma_primes_below(after as nat);
                }
            },
            None => {
                proof {
                    assert(!is_in_reach(n as nat));
                    assert forall|m: nat| #[trigger]
                        is_first_exceeding(start as nat, min_rem as nat, m) implies m >= n + 1 by {
                        if m < n {
                            assert(!exceeds(m, min_rem as nat));
                        }
                    }
                    lemma_walk_ended(start as nat, min_rem as nat, n as nat);
                }
                return 0;
            },
        }
        n += 2;
    }
}

/// The least odd n from 7037 on for which the remainder exceeds ten to
/// the tenth. Zero if the prime of that n does not fit in a machine word.
pub fn answer() -> (found: u64)
    ensures
        found != 0 ==> is_first_exceeding(7037, 10_000_000_000, found as nat) && is_in_reach(
            (found - 1) as nat,
        ),
        forall|n: nat| #[trigger]
            is_first_exceeding(7037, 10_000_000_000, n) && is_in_reach((n - 1) as nat) ==> found
                == n,
{
    option1(7037, 10_000_000_000) as u64
}

} // verus!
