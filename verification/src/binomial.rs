//! Binomial coefficients, by Pascal's rule, and Vandermonde's identity:
//! the sum over k of C(m, k)·C(n, r − k) is C(m + n, r).

use vstd::prelude::*;

verus! {

/// The binomial coefficient C(n, k): in how many ways k of n things can be
/// picked.
pub open spec fn binomial(n: nat, k: nat) -> nat
    decreases n,
{
    if k == 0 {
        1
    } else if n == 0 {
        0
    } else {
        binomial((n - 1) as nat, (k - 1) as nat) + binomial((n - 1) as nat, k)
    }
}

/// More than all cannot be picked.
pub proof fn lemma_binomial_beyond(n: nat, k: nat)
    requires
        k > n,
    ensures
        binomial(n, k) == 0,
    decreases n,
{
    if n > 0 {
        lemma_binomial_beyond((n - 1) as nat, (k - 1) as nat);
        lemma_binomial_beyond((n - 1) as nat, k);
    }
}

/// All can be picked in one way.
pub proof fn lemma_binomial_full(n: nat)
    ensures
        binomial(n, n) == 1,
    decreases n,
{
    if n > 0 {
        lemma_binomial_full((n - 1) as nat);
        lemma_binomial_beyond((n - 1) as nat, n);
    }
}

/// One of n can be picked in n ways.
pub proof fn lemma_binomial_one(n: nat)
    ensures
        binomial(n, 1) == n,
    decreases n,
{
    if n > 0 {
        lemma_binomial_one((n - 1) as nat);
        assert(binomial((n - 1) as nat, 0) == 1);
    }
}

/// All but one of n + 1 can be picked in n + 1 ways.
pub proof fn lemma_binomial_all_but_one(n: nat)
    ensures
        binomial(n + 1, n) == n + 1,
    decreases n,
{
    if n > 0 {
        lemma_binomial_all_but_one((n - 1) as nat);
        lemma_binomial_full(n);
    }
}

/// The sum of C(m, k)·C(n, r − k) over the k below `upto`.
pub open spec fn vandermonde_sum(m: nat, n: nat, r: nat, upto: nat) -> nat
    decreases upto,
{
    if upto == 0 {
        0
    } else {
        vandermonde_sum(m, n, r, (upto - 1) as nat) + binomial(m, (upto - 1) as nat) * binomial(
            n,
            (r - (upto - 1)) as nat,
        )
    }
}

/// Of nothing only nothing can be picked: the sum has its first term alone.
pub proof fn lemma_sum_of_none(n: nat, r: nat, upto: nat)
    requires
        1 <= upto <= r + 1,
    ensures
        vandermonde_sum(0, n, r, upto) == binomial(n, r),
    decreases upto,
{
    if upto > 1 {
        lemma_sum_of_none(n, r, (upto - 1) as nat);
        lemma_binomial_beyond(0, (upto - 1) as nat);
        assert(0 * binomial(n, (r - (upto - 1)) as nat) == 0);
    } else {
        assert(vandermonde_sum(0, n, r, 0) == 0);
        assert(1 * binomial(n, r) == binomial(n, r));
    }
}

/// With one more thing on the left, the picks either leave it out or take
/// it: the sum is the sum without it and the sum for one pick less.
pub proof fn lemma_sum_splits(m: nat, n: nat, r: nat, upto: nat)
    requires
        m >= 1,
        upto <= r + 1,
    ensures
        vandermonde_sum(m, n, r, upto) == vandermonde_sum((m - 1) as nat, n, r, upto) + (if upto
            >= 1 {
            vandermonde_sum((m - 1) as nat, n, (r - 1) as nat, (upto - 1) as nat)
        } else {
            0
        }),
    decreases upto,
{
    if upto == 1 {
        assert(vandermonde_sum(m, n, r, 0) == 0);
        assert(vandermonde_sum((m - 1) as nat, n, r, 0) == 0);
        assert(vandermonde_sum((m - 1) as nat, n, (r - 1) as nat, 0) == 0);
    } else if upto > 1 {
        lemma_sum_splits(m, n, r, (upto - 1) as nat);
        let k = (upto - 1) as nat;
        let b = binomial(n, (r - k) as nat);
        let with = binomial((m - 1) as nat, (k - 1) as nat);
        let without = binomial((m - 1) as nat, k);
        assert(binomial(m, k) == with + without);
        assert((with + without) * b == with * b + without * b) by (nonlinear_arith);
        assert(((r - 1) as nat - (k - 1)) as nat == (r - k) as nat);
    }
}

/// Vandermonde's identity: to pick r of m + n things is to pick k of the m
/// and the other r − k of the n, for some k.
pub proof fn lemma_vandermonde(m: nat, n: nat, r: nat)
    ensures
        vandermonde_sum(m, n, r, r + 1) == binomial(m + n, r),
    decreases m,
{
    if m == 0 {
        lemma_sum_of_none(n, r, r + 1);
    } else {
        lemma_sum_splits(m, n, r, r + 1);
        lemma_vandermonde((m - 1) as nat, n, r);
        if r >= 1 {
            lemma_vandermonde((m - 1) as nat, n, (r - 1) as nat);
        } else {
            assert(vandermonde_sum((m - 1) as nat, n, 0, 0) == 0);
        }
    }
}

} // verus!
