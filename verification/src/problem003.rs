//! Largest prime factor.
//!
//! The prime factors of 13195 are 5, 7, 13 and 29. Wanted: the largest
//! prime factor of 600851475143.

use vstd::prelude::*;
use crate::factors::{
    divides, is_largest_prime_factor, lemma_divides_multiple, lemma_divides_quotient,
    lemma_divides_through, lemma_prime_divides_prime, lemma_prime_divides_product,
    lemma_prime_factor,
};
use crate::math::{is_root, isqrt64, isqrt_of};
use crate::primes::{bound_for, is_prime, is_prime_list, new_sieve, sieve_primes, upper_bound};

verus! {

/// The last of the first `upto` members of `primes` that divides `n`, or
/// `n` itself if none of them does.
pub open spec fn last_dividing(primes: Seq<usize>, n: nat, upto: int) -> nat
    decreases upto,
{
    if upto <= 0 {
        n
    } else if primes[upto - 1] != 0 && n % (primes[upto - 1] as nat) == 0 {
        primes[upto - 1] as nat
    } else {
        last_dividing(primes, n, upto - 1)
    }
}

/// `factor` with `p` divided out for as long as `p` divides it and is below
/// it.
pub open spec fn stripped(factor: nat, p: nat) -> nat
    decreases factor,
    via stripped_ends
{
    if p >= 2 && factor > p && factor % p == 0 {
        stripped(factor / p, p)
    } else {
        factor
    }
}

#[via_fn]
proof fn stripped_ends(factor: nat, p: nat) {
    if p >= 2 && factor > p && factor % p == 0 {
        vstd::arithmetic::div_mod::lemma_div_decreases(factor as int, p as int);
    }
}

/// What is left of `n` once the first `upto` members of `primes` have been
/// divided out in turn.
pub open spec fn stripped_by(primes: Seq<usize>, n: nat, upto: int) -> nat
    decreases upto,
{
    if upto <= 0 {
        n
    } else {
        stripped(stripped_by(primes, n, upto - 1), primes[upto - 1] as nat)
    }
}

/// What dividing a prime out leaves: a divisor of the number that has every
/// other prime factor of it; the prime itself where the prime still divides
/// it; and the prime itself where the number had no other prime factor.
pub proof fn lemma_stripped(f: nat, p: nat)
    requires
        is_prime(p),
        f >= 1,
    ensures
        stripped(f, p) >= 1,
        divides(stripped(f, p), f),
        forall|q: nat|
            is_prime(q) && q != p && #[trigger] divides(q, f) ==> divides(q, stripped(f, p)),
        divides(p, stripped(f, p)) ==> stripped(f, p) == p,
        f >= 2 && (forall|q: nat| is_prime(q) && #[trigger] divides(q, f) ==> q == p) ==> stripped(
            f,
            p,
        ) == p,
    decreases f,
{
    let s = stripped(f, p);
    if p >= 2 && f > p && f % p == 0 {
        let g = f / p;
        assert(divides(p, f));
        lemma_divides_quotient(p, f);
        assert(g >= 2) by (nonlinear_arith)
            requires
                f == p * g,
                f > p,
                p >= 2,
                g >= 0,
        ;
        vstd::arithmetic::div_mod::lemma_div_decreases(f as int, p as int);
        lemma_stripped(g, p);
        assert(f == g * p) by (nonlinear_arith)
            requires
                f == p * g,
        ;
        lemma_divides_multiple(g, p);
        assert(divides(g, f));
        lemma_divides_through(s, g, f);
        assert forall|q: nat| is_prime(q) && q != p && #[trigger] divides(q, f) implies divides(
            q,
            s,
        ) by {
            lemma_prime_divides_product(q, p, g);
            if divides(q, p) {
                lemma_prime_divides_prime(q, p);
            }
            assert(divides(q, g));
        }
        if forall|q: nat| is_prime(q) && #[trigger] divides(q, f) ==> q == p {
            assert forall|q: nat| is_prime(q) && #[trigger] divides(q, g) implies q == p by {
                lemma_divides_through(q, g, f);
            }
        }
    } else {
        vstd::arithmetic::div_mod::lemma_mod_self_0(f as int);
        assert(divides(f, f));
        if divides(p, f) {
            lemma_divides_quotient(p, f);
        }
        if f >= 2 && (forall|q: nat| is_prime(q) && #[trigger] divides(q, f) ==> q == p) {
            lemma_prime_factor(f);
            let q = choose|q: nat| is_prime(q) && #[trigger] divides(q, f);
            assert(q == p);
            lemma_divides_quotient(p, f);
        }
    }
}

/// The largest prime up to `k` that divides `n`, or zero if there is none.
pub open spec fn largest_upto(n: nat, k: nat) -> nat
    decreases k,
{
    if k < 2 {
        0
    } else if is_prime(k) && divides(k, n) {
        k
    } else {
        largest_upto(n, (k - 1) as nat)
    }
}

/// `largest_upto` is a prime factor where there is one up to `k`, and no
/// prime factor up to `k` is above it.
pub proof fn lemma_largest_upto(n: nat, k: nat)
    ensures
        forall|q: nat| is_prime(q) && q <= k && #[trigger] divides(q, n) ==> q <= largest_upto(n, k),
        largest_upto(n, k) >= 2 ==> is_prime(largest_upto(n, k)) && divides(
            largest_upto(n, k),
            n,
        ),
    decreases k,
{
    if k >= 2 && !(is_prime(k) && divides(k, n)) {
        lemma_largest_upto(n, (k - 1) as nat);
    }
}

/// Every number from two on has a largest prime factor.
pub proof fn lemma_largest_exists(n: nat)
    requires
        n >= 2,
    ensures
        is_largest_prime_factor(n, largest_upto(n, n)),
{
    lemma_largest_upto(n, n);
    lemma_prime_factor(n);
    let p = choose|p: nat| is_prime(p) && #[trigger] divides(p, n);
    lemma_divides_quotient(p, n);
    assert forall|q: nat| is_prime(q) && #[trigger] divides(q, n) implies q <= largest_upto(
        n,
        n,
    ) by {
        lemma_divides_quotient(q, n);
    }
}

/// What holds of the number left once the first `k` primes have been
/// divided out: it is from two on, it divides `n`, the largest prime factor
/// of `n` divides it, and each of its prime factors is above those primes
/// unless it is the number itself.
pub open spec fn is_left(primes: Seq<usize>, n: nat, top: nat, k: int, left: nat) -> bool {
    &&& left >= 2
    &&& divides(left, n)
    &&& divides(top, left)
    &&& forall|q: nat|
        is_prime(q) && #[trigger] divides(q, left) ==> left == q || k == 0 || q > primes[k - 1]
}

/// Where a prime lies in an ascending list of all the primes up to a
/// bound.
pub proof fn lemma_place_of_prime(primes: Seq<usize>, bound: nat, q: nat) -> (j: int)
    requires
        is_prime_list(primes, 2, bound),
        bound <= usize::MAX,
        is_prime(q),
        q <= bound,
    ensures
        0 <= j < primes.len(),
        primes[j] == q,
{
    assert(primes.contains(q as usize));
    let j = choose|j: int| 0 <= j < primes.len() && primes[j] == q as usize;
    j
}

/// In an ascending list the later member is the greater.
pub proof fn lemma_ascends(primes: Seq<usize>, i: int, j: int)
    requires
        forall|a: int, b: int| 0 <= a < b < primes.len() ==> primes[a] < primes[b],
        0 <= i < primes.len(),
        0 <= j < primes.len(),
    ensures
        i < j ==> primes[i] < primes[j],
        i <= j ==> primes[i] <= primes[j],
        primes[i] < primes[j] ==> i < j,
        primes[i] <= primes[j] ==> i <= j,
{
    if i < j {
        assert(primes[i] < primes[j]);
    } else if j < i {
        assert(primes[j] < primes[i]);
    }
}

/// Dividing the primes out in ascending order keeps what `is_left` says.
pub proof fn lemma_stripped_by(primes: Seq<usize>, n: nat, bound: nat, top: nat, k: int)
    requires
        n >= 2,
        is_prime_list(primes, 2, bound),
        bound <= usize::MAX,
        is_largest_prime_factor(n, top),
        0 <= k <= primes.len(),
    ensures
        is_left(primes, n, top, k, stripped_by(primes, n, k)),
    decreases k,
{
    if k == 0 {
        vstd::arithmetic::div_mod::lemma_mod_self_0(n as int);
        assert(divides(n, n));
    } else {
        lemma_stripped_by(primes, n, bound, top, k - 1);
        let f = stripped_by(primes, n, k - 1);
        let p = primes[k - 1] as nat;
        let s = stripped(f, p);
        assert(is_prime(p));
        lemma_stripped(f, p);
        lemma_divides_through(s, f, n);
        // the largest prime factor still divides what is left
        if top != p {
            assert(divides(top, s));
        } else {
            if exists|q: nat| is_prime(q) && #[trigger] divides(q, f) && f == q {
                let q = choose|q: nat| is_prime(q) && #[trigger] divides(q, f) && f == q;
                lemma_prime_divides_prime(top, q);
            } else {
                assert forall|q: nat| is_prime(q) && #[trigger] divides(q, f) implies q == p by {
                    lemma_divides_through(q, f, n);
                    assert(q <= top);
                    let j = lemma_place_of_prime(primes, bound, q);
                    lemma_ascends(primes, j, k - 1);
                    if k - 1 > 0 {
                        lemma_ascends(primes, j, k - 2);
                    }
                }
            }
            assert(s == p);
            vstd::arithmetic::div_mod::lemma_mod_self_0(p as int);
        }
        lemma_divides_quotient(top, s);
        assert forall|q: nat| is_prime(q) && #[trigger] divides(q, s) implies s == q || q
            > primes[k - 1] by {
            lemma_divides_through(q, s, f);
            if q < p {
                let j = lemma_place_of_prime(primes, bound, q);
                lemma_ascends(primes, j, k - 1);
                if k - 1 > 0 {
                    lemma_ascends(primes, j, k - 2);
                }
                assert(f == q);
                lemma_divides_quotient(q, s);
                lemma_divides_quotient(s, f);
            }
        }
    }
}

/// Once all the primes up to a bound whose square, raised by one, is above
/// `n` have been divided out of `n` in ascending order, the largest prime
/// factor of `n` is left.
pub proof fn lemma_largest_is_left(primes: Seq<usize>, n: nat, bound: nat)
    requires
        n >= 2,
        is_prime_list(primes, 2, bound),
        bound <= usize::MAX,
        (bound + 1) * (bound + 1) > n,
    ensures
        is_largest_prime_factor(n, stripped_by(primes, n, primes.len() as int)),
{
    lemma_largest_exists(n);
    let top = largest_upto(n, n);
    let len = primes.len() as int;
    lemma_stripped_by(primes, n, bound, top, len);
    let f = stripped_by(primes, n, len);
    lemma_divides_quotient(top, f);
    lemma_divides_quotient(f, n);
    if f != top {
        let k = f / top;
        assert(k >= 2) by (nonlinear_arith)
            requires
                f == top * k,
                f != top,
                k >= 1,
        ;
        lemma_prime_factor(k);
        let r = choose|r: nat| is_prime(r) && #[trigger] divides(r, k);
        assert(f == k * top) by (nonlinear_arith)
            requires
                f == top * k,
        ;
        lemma_divides_multiple(k, top);
        lemma_divides_through(r, k, f);
        lemma_divides_quotient(r, k);
        // neither prime is the number left, so both are above the bound
        assert(f != r) by {
            if f == r {
                lemma_prime_divides_prime(top, r);
            }
        }
        assert(top > bound) by {
            if top <= bound {
                let j = lemma_place_of_prime(primes, bound, top);
                lemma_ascends(primes, j, len - 1);
            }
        }
        assert(r > bound) by {
            if r <= bound {
                let j = lemma_place_of_prime(primes, bound, r);
                lemma_ascends(primes, j, len - 1);
            }
        }
        assert(top * k >= (bound + 1) * (bound + 1)) by (nonlinear_arith)
            requires
                top >= bound + 1,
                k >= r,
                r >= bound + 1,
        ;
    }
}

/// The greatest member of `primes` that divides `n`, where `primes`
/// ascends, or `n` if none does.
pub fn largest_dividing(primes: &Vec<usize>, n: u64) -> (found: u64)
    requires
        forall|i: int| 0 <= i < primes.len() ==> #[trigger] primes[i] >= 2,
    ensures
        found == last_dividing(primes@, n as nat, primes.len() as int),
{
    let mut k = primes.len();
    while k > 0
        invariant
            k <= primes.len(),
            forall|i: int| 0 <= i < primes.len() ==> #[trigger] primes[i] >= 2,
            last_dividing(primes@, n as nat, k as int) == last_dividing(
                primes@,
                n as nat,
                primes.len() as int,
            ),
        decreases k,
    {
        let p = primes[k - 1] as u64;
        if n % p == 0 {
            return p;
        }
        k -= 1;
    }
    n
}

/// Divides `p` out of `factor` for as long as `p` divides it and is below
/// it.
pub fn strip(factor: u64, p: u64) -> (rest: u64)
    requires
        p >= 2,
    ensures
        rest == stripped(factor as nat, p as nat),
{
    let mut rest = factor;
    while rest > p && rest % p == 0
        invariant
            p >= 2,
            stripped(rest as nat, p as nat) == stripped(factor as nat, p as nat),
        decreases rest,
    {
        proof {
            vstd::arithmetic::div_mod::lemma_div_decreases(rest as int, p as int);
        }
        rest = rest / p;
    }
    rest
}

/// Divides the members of `primes` out of `n` in turn, each for as long as
/// it divides what is left and is below it.
pub fn strip_all(primes: &Vec<usize>, n: u64) -> (rest: u64)
    requires
        forall|i: int| 0 <= i < primes.len() ==> #[trigger] primes[i] >= 2,
    ensures
        rest == stripped_by(primes@, n as nat, primes.len() as int),
{
    let mut factor = n;
    let mut k: usize = 0;
    while k < primes.len()
        invariant
            k <= primes.len(),
            forall|i: int| 0 <= i < primes.len() ==> #[trigger] primes[i] >= 2,
            factor == stripped_by(primes@, n as nat, k as int),
        decreases primes.len() - k,
    {
        factor = strip(factor, primes[k] as u64);
        k += 1;
    }
    factor
}

/// The primes that the sieve for the integer square root of `n` knows
/// about.
fn primes_to_root(n: u64) -> (primes: Vec<usize>)
    ensures
        is_prime_list(primes@, 2, bound_for(isqrt_of(n as nat))),
        forall|i: int| 0 <= i < primes.len() ==> #[trigger] primes[i] >= 2,
        isqrt_of(n as nat) <= bound_for(isqrt_of(n as nat)) <= usize::MAX,
        is_root(n as nat, isqrt_of(n as nat)),
{
    let root = isqrt64(n);
    let sieve = new_sieve(root as usize);
    let bound = upper_bound(&sieve);
    if bound < 2 {
        let none: Vec<usize> = Vec::new();
        return none;
    }
    sieve_primes(&sieve)
}

/// The greatest prime known to the sieve for the integer square root of
/// `n` that divides `n`, or `n` itself if none does.
pub fn option1(n: u64) -> (found: u64)
    ensures
        exists|primes: Seq<usize>|
            #[trigger] is_prime_list(primes, 2, bound_for(isqrt_of(n as nat))) && found
                == last_dividing(primes, n as nat, primes.len() as int),
{
    let primes = primes_to_root(n);
    largest_dividing(&primes, n)
}

/// The largest prime factor of `n`: what is left of `n` once the primes
/// known to the sieve for its integer square root have been divided out in
/// ascending order, each for as long as it divides what is left and is
/// below it. Below two, `n` itself.
pub fn option2(n: u64) -> (rest: u64)
    ensures
        n >= 2 ==> is_largest_prime_factor(n as nat, rest as nat),
        n < 2 ==> rest == n,
{
    let primes = primes_to_root(n);
    proof {
        let bound = bound_for(isqrt_of(n as nat));
        let root = isqrt_of(n as nat);
        if n >= 2 {
            assert((bound + 1) * (bound + 1) >= (root + 1) * (root + 1)) by (nonlinear_arith)
                requires
                    bound >= root,
            ;
            lemma_largest_is_left(primes@, n as nat, bound);
        } else {
            lemma_small_is_kept(primes@, n as nat, primes.len() as int);
        }
    }
    strip_all(&primes, n)
}

/// Nothing is divided out of a number below two.
pub proof fn lemma_small_is_kept(primes: Seq<usize>, n: nat, k: int)
    requires
        n < 2,
        0 <= k <= primes.len(),
        forall|i: int| 0 <= i < primes.len() ==> #[trigger] primes[i] >= 2,
    ensures
        stripped_by(primes, n, k) == n,
    decreases k,
{
    if k > 0 {
        lemma_small_is_kept(primes, n, k - 1);
    }
}

/// The largest prime factor of 600851475143.
pub fn answer() -> (rest: u64)
    ensures
        is_largest_prime_factor(600_851_475_143, rest as nat),
{
    option2(600_851_475_143)
}

} // verus!
