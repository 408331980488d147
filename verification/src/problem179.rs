//! Consecutive positive divisors.
//!
//! 14 has the positive divisors 1, 2, 7, 14 and 15 has 1, 3, 5, 15.
//! Wanted: the number of integers 1 < n < 10⁷ for which n and n + 1 have
//! the same number of positive divisors.

use vstd::prelude::*;
use crate::divisors::{divisor_count_of, exponent_product, lemma_divisor_count};
use crate::math::power;
use crate::primes::{
    is_factorisation, is_prime, new_sieve, product_of, sieve_bound, sieve_factor,
    sieve_is_prime,
};

verus! {

/// The number of divisors of `n`.
pub open spec fn divisor_number(n: nat) -> nat {
    divisor_count_of(n)
}

/// How many numbers from 3 to `upto` have as many divisors as the number
/// before them.
pub open spec fn equal_neighbours(upto: nat) -> nat
    decreases upto,
{
    if upto < 3 {
        0
    } else {
        equal_neighbours((upto - 1) as nat) + if divisor_number(upto) == divisor_number(
            (upto - 1) as nat,
        ) {
            1nat
        } else {
            0nat
        }
    }
}

/// An exponent raised by one is not above the power of a base from two on.
pub proof fn lemma_power_above(p: nat, c: nat)
    requires
        p >= 2,
    ensures
        c + 1 <= power(p, c),
    decreases c,
{
    if c > 0 {
        lemma_power_above(p, (c - 1) as nat);
        let a = power(p, (c - 1) as nat);
        assert(a * p >= 2 * a) by (nonlinear_arith)
            requires
                p >= 2,
                a >= 0,
        ;
    }
}

/// The product of the raised exponents is not above the product of the
/// prime powers, and neither falls when a factor is added.
pub proof fn lemma_exponent_product(factors: Seq<(usize, usize)>, k: int)
    requires
        forall|i: int| 0 <= i < factors.len() ==> (#[trigger] factors[i]).0 >= 2,
        0 <= k <= factors.len(),
    ensures
        1 <= exponent_product(factors.take(k)) <= product_of(factors.take(k)) <= product_of(
            factors,
        ),
    decreases factors.len() - k,
{
    lemma_prefix(factors.take(k));
    if k < factors.len() {
        lemma_exponent_product(factors, k + 1);
        let more = factors.take(k + 1);
        assert(more.drop_last() =~= factors.take(k));
        lemma_power_above(more.last().0 as nat, more.last().1 as nat);
        let a = product_of(factors.take(k));
        let b = power(more.last().0 as nat, more.last().1 as nat);
        assert(a <= a * b) by (nonlinear_arith)
            requires
                a >= 0,
                b >= 1,
        ;
    } else {
        assert(factors.take(k) =~= factors);
    }
}

/// The product of the raised exponents is at least one and not above the
/// product of the prime powers.
pub proof fn lemma_prefix(factors: Seq<(usize, usize)>)
    requires
        forall|i: int| 0 <= i < factors.len() ==> (#[trigger] factors[i]).0 >= 2,
    ensures
        1 <= exponent_product(factors) <= product_of(factors),
    decreases factors.len(),
{
    if factors.len() > 0 {
        lemma_prefix(factors.drop_last());
        let last = factors.last();
        assert(factors[factors.len() - 1] == last);
        lemma_power_above(last.0 as nat, last.1 as nat);
        let a = exponent_product(factors.drop_last());
        let b = product_of(factors.drop_last());
        let c = (last.1 + 1) as nat;
        let d = power(last.0 as nat, last.1 as nat);
        assert(a * c <= b * d) by (nonlinear_arith)
            requires
                0 <= a <= b,
                0 <= c <= d,
        ;
        assert(a * c >= 1) by (nonlinear_arith)
            requires
                a >= 1,
                c >= 1,
        ;
    }
}

/// The product of the exponents of a factorisation, each raised by one.
pub fn count_from_factors(factors: &Vec<(usize, usize)>) -> (total: usize)
    requires
        forall|i: int| 0 <= i < factors.len() ==> (#[trigger] factors[i]).0 >= 2,
        product_of(factors@) <= usize::MAX,
    ensures
        total == exponent_product(factors@),
{
    let mut total: usize = 1;
    let mut k: usize = 0;
    proof {
        assert(factors@.take(0) =~= Seq::<(usize, usize)>::empty());
    }
    while k < factors.len()
        invariant
            k <= factors.len(),
            forall|i: int| 0 <= i < factors.len() ==> (#[trigger] factors[i]).0 >= 2,
            product_of(factors@) <= usize::MAX,
            total == exponent_product(factors@.take(k as int)),
        decreases factors.len() - k,
    {
        proof {
            lemma_exponent_product(factors@, k + 1);
            assert(factors@.take(k + 1).drop_last() =~= factors@.take(k as int));
            lemma_exponent_product(factors@, k as int);
            let a = exponent_product(factors@.take(k as int));
            let c = factors[k as int].1 + 1;
            assert(c <= a * c) by (nonlinear_arith)
                requires
                    a >= 1,
                    c >= 0,
            ;
        }
        let c = factors[k].1;
        total = total * (c + 1);
        k += 1;
    }
    proof {
        assert(factors@.take(factors.len() as int) =~= factors@);
    }
    total
}

/// A prime has two divisors.
pub proof fn lemma_prime_has_two(p: nat)
    requires
        is_prime(p),
        p <= usize::MAX,
    ensures
        divisor_count_of(p) == 2,
{
    let factors = seq![(p as usize, 1usize)];
    assert(factors.drop_last() =~= Seq::<(usize, usize)>::empty());
    assert(product_of(factors) == power(p, 1)) by {
        assert(product_of(factors.drop_last()) == 1);
        assert(product_of(factors) == 1 * power(p, 1));
    }
    assert(power(p, 1) == p) by {
        reveal_with_fuel(power, 2);
        assert(power(p, 0) == 1);
        assert(power(p, 1) == power(p, 0) * p);
    }
    assert(is_factorisation(factors, p));
    lemma_divisor_count(factors, p);
    let front = factors.drop_last();
    assert(front.len() == 0);
    assert(exponent_product(front) == 1);
    assert(factors.len() == 1);
    assert(factors.last() == (p as usize, 1usize));
    assert(exponent_product(factors) == exponent_product(front) * ((1usize + 1) as nat));
    assert(exponent_product(factors) == 2);
}

/// The number of divisors of `n`, one and `n` included.
pub fn divisor_count(n: usize, sieve: &primal::Sieve) -> (total: usize)
    requires
        1 <= n <= sieve_bound(*sieve),
    ensures
        total == divisor_number(n as nat),
{
    if sieve_is_prime(sieve, n) {
        proof {
            lemma_prime_has_two(n as nat);
        }
        return 2;
    }
    proof {
        assert(n <= sieve_bound(*sieve) * sieve_bound(*sieve)) by (nonlinear_arith)
            requires
                1 <= n <= sieve_bound(*sieve),
        ;
    }
    match sieve_factor(sieve, n) {
        Ok(factors) => {
            proof {
                assert forall|i: int| 0 <= i < factors.len() implies (#[trigger] factors[i]).0
                    >= 2 by {
                    assert(is_prime(factors[i].0 as nat));
                }
                lemma_divisor_count(factors@, n as nat);
            }
            count_from_factors(&factors)
        },
        Err(_) => 0,
    }
}

/// How many numbers from 3 to `n` + 1 have as many divisors as the number
/// before them.
pub fn option1(n: usize) -> (count: usize)
    requires
        n < usize::MAX,
    ensures
        count == equal_neighbours((n + 1) as nat),
{
    let sieve = new_sieve(n + 1);
    let mut count: usize = 0;
    let mut prev: usize = 0;
    let mut i: usize = 2;
    proof {
        assert(equal_neighbours(1) == 0);
    }
    while i <= n + 1
        invariant
            2 <= i <= n + 2,
            n < usize::MAX,
            sieve_bound(sieve) >= n + 1,
            count == equal_neighbours((i - 1) as nat),
            count + 2 <= i,
            i > 2 ==> prev == divisor_number((i - 1) as nat),
            i == 2 ==> prev == 0,
        decreases n + 2 - i,
    {
        let num = divisor_count(i, &sieve);
        if num == prev {
            proof {
                if i == 2 {
                    lemma_two();
                }
            }
            count += 1;
        }
        proof {
            if i == 2 {
                lemma_two();
                assert(equal_neighbours(2) == 0);
            }
        }
        prev = num;
        if i == n + 1 {
            assert(count == equal_neighbours((n + 1) as nat));
            return count;
        }
        i += 1;
    }
    count
}

/// Two has two divisors.
proof fn lemma_two()
    ensures
        divisor_number(2) == 2,
{
    reveal_with_fuel(crate::divisors::divisors_upto, 3);
}

/// The number of integers 1 < n < 10⁷ for which n and n + 1 have the same
/// number of positive divisors.
pub fn answer() -> (count: u64)
    ensures
        count == equal_neighbours(10_000_001),
{
    option1(10_000_000) as u64
}

} // verus!
