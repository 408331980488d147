//! Prime numbers, as far as the problems need them, from the `primal`
//! crate: a sieve that answers questions about the primes up to a bound,
//! and the endless walk along all primes.
//!
//! Nothing in this file is proved about `primal`: each function states what
//! the crate's documentation promises, and the solutions are proved from
//! that.

use vstd::prelude::*;

verus! {

/// `n` is a prime number.
pub open spec fn is_prime(n: nat) -> bool {
    n >= 2 && forall|d: nat| 1 < d < n ==> #[trigger] (n % d) != 0
}

/// How many primes lie below `n`.
pub open spec fn primes_below(n: nat) -> nat
    decreases n,
{
    if n == 0 {
        0
    } else {
        primes_below((n - 1) as nat) + if is_prime((n - 1) as nat) {
            1nat
        } else {
            0nat
        }
    }
}

/// `p` is the prime with `k` primes below it.
pub open spec fn is_nth_prime(p: nat, k: nat) -> bool {
    is_prime(p) && primes_below(p) == k
}

/// `list` holds the primes from `from` to `to`, ascending, each once.
pub open spec fn is_prime_list(list: Seq<usize>, from: nat, to: nat) -> bool {
    &&& forall|i: int| 0 <= i < list.len() ==> from <= #[trigger] list[i] <= to && is_prime(list[i] as nat)
    &&& forall|i: int, j: int| 0 <= i < j < list.len() ==> list[i] < list[j]
    &&& forall|p: nat| from <= p <= to && is_prime(p) ==> #[trigger] list.contains(p as usize)
}

/// The product of the prime powers listed in `factors`.
pub open spec fn product_of(factors: Seq<(usize, usize)>) -> nat
    decreases factors.len(),
{
    if factors.len() == 0 {
        1
    } else {
        product_of(factors.drop_last()) * crate::math::power(
            factors.last().0 as nat,
            factors.last().1 as nat,
        )
    }
}

/// `factors` lists the prime factors of `n` in ascending order, each with
/// its exponent.
pub open spec fn is_factorisation(factors: Seq<(usize, usize)>, n: nat) -> bool {
    &&& product_of(factors) == n
    &&& forall|i: int|
        0 <= i < factors.len() ==> is_prime((#[trigger] factors[i]).0 as nat) && factors[i].1 >= 1
    &&& forall|i: int, j: int| 0 <= i < j < factors.len() ==> factors[i].0 < factors[j].0
}

/// The sieve of `primal`.
#[verifier::external_type_specification]
#[verifier::external_body]
pub struct ExSieve(primal::Sieve);

/// The walk along all primes of `primal`.
#[verifier::external_type_specification]
#[verifier::external_body]
pub struct ExPrimes(primal::Primes);

/// The greatest number that a sieve knows about.
pub uninterp spec fn sieve_bound(sieve: primal::Sieve) -> nat;

/// The greatest number known to the sieve that `primal` makes for a limit.
pub uninterp spec fn bound_for(limit: nat) -> nat;

/// How many primes a walk has handed out.
pub uninterp spec fn walk_position(walk: primal::Primes) -> nat;

/// `primal::Sieve::new`: a sieve for the primes up to `limit`. The
/// greatest number it knows about depends on the limit alone and is not
/// below it.
#[verifier::external_body]
pub(crate) fn new_sieve(limit: usize) -> (sieve: primal::Sieve)
    ensures
        sieve_bound(sieve) == bound_for(limit as nat),
        sieve_bound(sieve) >= limit,
{
    primal::Sieve::new(limit)
}

/// `primal::Sieve::upper_bound`: the greatest number that the sieve knows
/// about.
#[verifier::external_body]
pub(crate) fn upper_bound(sieve: &primal::Sieve) -> (bound: usize)
    ensures
        bound == sieve_bound(*sieve),
{
    sieve.upper_bound()
}

/// `primal::Sieve::is_prime`: whether `n`, a number that the sieve knows
/// about, is prime.
#[verifier::external_body]
pub(crate) fn sieve_is_prime(sieve: &primal::Sieve, n: usize) -> (prime: bool)
    requires
        n <= sieve_bound(*sieve),
    ensures
        prime == is_prime(n as nat),
{
    sieve.is_prime(n)
}

/// `primal::Sieve::primes_from` at 2, collected: the primes from 2 to the
/// greatest number that the sieve knows about, in ascending order. The
/// sieve has to know about 2.
#[verifier::external_body]
pub(crate) fn sieve_primes(sieve: &primal::Sieve) -> (list: Vec<usize>)
    requires
        sieve_bound(*sieve) >= 2,
    ensures
        is_prime_list(list@, 2, sieve_bound(*sieve)),
{
    sieve.primes_from(2).collect()
}

/// `primal::Sieve::factor`: the prime factors of `n` with their exponents,
/// in ascending order. Numbers from one up to the square of the sieve's
/// bound are always factored.
#[verifier::external_body]
pub(crate) fn sieve_factor(sieve: &primal::Sieve, n: usize) -> (factors: Result<
    Vec<(usize, usize)>,
    (usize, Vec<(usize, usize)>),
>)
    ensures
        factors matches Ok(list) ==> is_factorisation(list@, n as nat),
        1 <= n <= sieve_bound(*sieve) * sieve_bound(*sieve) ==> factors is Ok,
{
    sieve.factor(n)
}

/// `primal::Primes::all`: a walk along all primes, at its start.
#[verifier::external_body]
pub(crate) fn all_primes() -> (walk: primal::Primes)
    ensures
        walk_position(walk) == 0,
{
    primal::Primes::all()
}

/// `next` of `primal::Primes`: the next prime of the walk, that is the
/// prime with as many primes below it as the walk has handed out before.
/// The walk goes on for as long as the primes fit in a machine word, and
/// hands out nothing once they do not.
#[verifier::external_body]
pub(crate) fn next_prime(walk: &mut primal::Primes) -> (prime: Option<usize>)
    ensures
        prime matches Some(p) ==> is_nth_prime(p as nat, walk_position(*old(walk)))
            && walk_position(*final(walk)) == walk_position(*old(walk)) + 1,
        (exists|p: nat| #[trigger] is_nth_prime(p, walk_position(*old(walk))) && p <= usize::MAX)
            ==> prime is Some,
{
    walk.next()
}

} // verus!
