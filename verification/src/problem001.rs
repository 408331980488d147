//! Multiples of 3 and 5.
//!
//! The natural numbers below 10 that are multiples of 3 or 5 are 3, 5, 6
//! and 9, and their sum is 23. Wanted: the sum of all the multiples of 3 or
//! 5 below 1000.

use vstd::prelude::*;
use vstd::arithmetic::div_mod::{lemma_fundamental_div_mod, lemma_fundamental_div_mod_converse};

verus! {

/// The sum of the multiples of 3 or 5 below `n`.
pub open spec fn sum_multiples(n: int) -> int
    decreases n,
{
    if n <= 0 {
        0
    } else {
        sum_multiples(n - 1) + if (n - 1) % 3 == 0 || (n - 1) % 5 == 0 {
            n - 1
        } else {
            0
        }
    }
}

/// `j` is a multiple of `k`.
pub open spec fn is_multiple(j: int, k: int) -> bool {
    j % k == 0
}

/// The sum of the multiples of `k` below `n`.
pub open spec fn multiples_sum(k: int, n: int) -> int
    decreases n,
{
    if n <= 0 {
        0
    } else {
        multiples_sum(k, n - 1) + if (n - 1) % k == 0 {
            n - 1
        } else {
            0
        }
    }
}

/// The sum of the multiples of 5 below `n` that are no multiples of 3.
pub open spec fn fives_only_sum(n: int) -> int
    decreases n,
{
    if n <= 0 {
        0
    } else {
        fives_only_sum(n - 1) + if (n - 1) % 5 == 0 && (n - 1) % 3 != 0 {
            n - 1
        } else {
            0
        }
    }
}

/// The multiples of 3 or 5 are those of 3 and those of 5, with those of 15
/// counted once: so say all three ways of adding them up.
pub proof fn lemma_three_ways(n: int)
    ensures
        sum_multiples(n) == multiples_sum(3, n) + multiples_sum(5, n) - multiples_sum(15, n),
        sum_multiples(n) == multiples_sum(3, n) + fives_only_sum(n),
    decreases n,
{
    if n > 0 {
        lemma_three_ways(n - 1);
        let i = n - 1;
        assert((i % 15 == 0) <==> (i % 3 == 0 && i % 5 == 0));
    }
}

/// The sums grow with `n`, start at zero and stay below its square.
pub proof fn lemma_sums_grow(k: int, a: int, b: int)
    requires
        k > 0,
        a <= b,
    ensures
        0 <= multiples_sum(k, a) <= multiples_sum(k, b),
        0 <= fives_only_sum(a) <= fives_only_sum(b),
        0 <= sum_multiples(a) <= sum_multiples(b),
        b >= 0 ==> multiples_sum(k, b) <= b * b,
    decreases b,
{
    if b > 0 {
        if a < b {
            lemma_sums_grow(k, a, b - 1);
        } else {
            lemma_sums_grow(k, a - 1, b - 1);
        }
        assert((b - 1) * (b - 1) + (b - 1) <= b * b) by (nonlinear_arith)
            requires
                b >= 1,
        ;
    }
}

/// Where no multiple of `k` lies from `a` up to `b`, the sum below `b` is
/// the sum below `a`.
pub proof fn lemma_gap(k: int, a: int, b: int)
    requires
        k > 0,
        a <= b,
        forall|j: int| a <= j < b ==> !#[trigger] is_multiple(j, k),
    ensures
        multiples_sum(k, a) == multiples_sum(k, b),
    decreases b - a,
{
    if a < b {
        lemma_gap(k, a, b - 1);
        assert(!is_multiple(b - 1, k));
    }
}

/// After a multiple of `k` the next `k` - 1 numbers are no multiples of `k`.
pub proof fn lemma_after_multiple(k: int, i: int, j: int)
    requires
        k > 0,
        i % k == 0,
        i < j < i + k,
    ensures
        !is_multiple(j, k),
{
    lemma_fundamental_div_mod(i, k);
    assert(j == (i / k) * k + (j - i)) by (nonlinear_arith)
        requires
            i == k * (i / k) + 0,
    ;
    lemma_fundamental_div_mod_converse(j, k, i / k, j - i);
}

/// Brute force: looks at every number below `n`.
pub fn option1(n: u32) -> (sum: u32)
    requires
        sum_multiples(n as int) <= u32::MAX,
    ensures
        sum == sum_multiples(n as int),
{
    if n == 0 {
        return 0;
    }
    let mut sum: u32 = 0;
    let mut i: u32 = 1;
    proof {
        assert(sum_multiples(1) == 0) by {
            reveal_with_fuel(sum_multiples, 2);
        }
    }
    while i < n
        invariant
            1 <= i <= n,
            sum == sum_multiples(i as int),
            sum_multiples(n as int) <= u32::MAX,
        decreases n - i,
    {
        proof {
            lemma_sums_grow(1, i + 1, n as int);
        }
        if i % 3 == 0 || i % 5 == 0 {
            sum += i;
        }
        i += 1;
    }
    sum
}

/// One pass from 3 on, keeping the multiples.
pub fn option2(n: u64) -> (sum: u64)
    requires
        sum_multiples(n as int) <= u64::MAX,
    ensures
        sum == sum_multiples(n as int),
{
    proof {
        reveal_with_fuel(sum_multiples, 4);
        assert(sum_multiples(3) == 0);
    }
    if n <= 3 {
        return 0;
    }
    let mut sum: u64 = 0;
    let mut i: u64 = 3;
    while i < n
        invariant
            3 <= i <= n,
            sum == sum_multiples(i as int),
            sum_multiples(n as int) <= u64::MAX,
        decreases n - i,
    {
        proof {
            lemma_sums_grow(1, i + 1, n as int);
        }
        if i % 3 == 0 || i % 5 == 0 {
            sum += i;
        }
        i += 1;
    }
    sum
}

/// The sum of the multiples of `k` from `k` on and below `n`, in steps of
/// `k`.
pub fn sum_by_steps(k: u64, n: u64) -> (sum: u64)
    requires
        k > 0,
        multiples_sum(k as int, n as int) <= u64::MAX,
    ensures
        sum == multiples_sum(k as int, n as int),
{
    proof {
        assert forall|j: int| 1 <= j < k implies !#[trigger] is_multiple(j, k as int) by {
            lemma_fundamental_div_mod_converse(j, k as int, 0, j);
        }
        lemma_gap(k as int, 1, if n < k {
            if n < 1 {
                1
            } else {
                n as int
            }
        } else {
            k as int
        });
        reveal_with_fuel(multiples_sum, 2);
        assert(multiples_sum(k as int, 1) == 0);
        assert(multiples_sum(k as int, 0) == 0);
    }
    let mut sum: u64 = 0;
    if n <= k {
        return sum;
    }
    let mut i: u64 = k;
    proof {
        assert(k as int % k as int == 0) by {
            lemma_fundamental_div_mod_converse(k as int, k as int, 1, 0);
        }
    }
    loop
        invariant_except_break
            k > 0,
            k <= i < n,
            i as int % k as int == 0,
            sum == multiples_sum(k as int, i as int),
            multiples_sum(k as int, n as int) <= u64::MAX,
        ensures
            sum == multiples_sum(k as int, n as int),
        decreases n - i,
    {
        proof {
            lemma_sums_grow(k as int, i + 1, n as int);
        }
        sum += i;
        if n - i <= k {
            proof {
                assert forall|j: int| i + 1 <= j < n implies !#[trigger] is_multiple(
                    j,
                    k as int,
                ) by {
                    lemma_after_multiple(k as int, i as int, j);
                }
                lemma_gap(k as int, i + 1, n as int);
            }
            break ;
        }
        proof {
            assert forall|j: int| i + 1 <= j < i + k implies !#[trigger] is_multiple(
                j,
                k as int,
            ) by {
                lemma_after_multiple(k as int, i as int, j);
            }
            lemma_gap(k as int, i + 1, i + k);
            lemma_fundamental_div_mod(i as int, k as int);
            assert(i + k == (i as int / k as int + 1) * k + 0) by (nonlinear_arith)
                requires
                    i == k * (i as int / k as int) + 0,
            ;
            lemma_fundamental_div_mod_converse(i + k, k as int, i as int / k as int + 1, 0);
        }
        i += k;
    }
    sum
}

/// Two sums: the multiples of 3, then the multiples of 5 that are no
/// multiples of 3.
pub fn option3(n: i32) -> (sum: i32)
    requires
        sum_multiples(n as int) <= i32::MAX,
    ensures
        sum == sum_multiples(n as int),
{
    if n <= 0 {
        return 0;
    }
    proof {
        lemma_three_ways(n as int);
        lemma_sums_grow(3, 0, n as int);
        lemma_sums_grow(3, n as int, n as int);
    }
    let threes = sum_by_steps(3, n as u64);
    let mut fives: i32 = 0;
    let mut i: i32 = 0;
    while i < n
        invariant
            0 <= i <= n,
            i <= n,
            fives == fives_only_sum(i as int),
            threes == multiples_sum(3, n as int),
            threes + fives_only_sum(n as int) <= i32::MAX,
        decreases n - i,
    {
        proof {
            lemma_sums_grow(3, i + 1, n as int);
        }
        if i % 5 == 0 && i % 3 != 0 {
            fives += i;
        }
        i += 1;
    }
    threes as i32 + fives
}

/// Three sums: the multiples of 3 and of 5, less those of 15.
pub fn option4(n: u64) -> (sum: u64)
    requires
        multiples_sum(3, n as int) + multiples_sum(5, n as int) <= u64::MAX,
    ensures
        sum == sum_multiples(n as int),
{
    proof {
        lemma_three_ways(n as int);
        lemma_sums_grow(3, n as int, n as int);
        lemma_sums_grow(5, n as int, n as int);
        lemma_sums_grow(15, n as int, n as int);
    }
    let sum3 = sum_by_steps(3, n);
    let sum5 = sum_by_steps(5, n);
    let sum15 = sum_by_steps(15, n);
    sum3 + sum5 - sum15
}

/// Up to just above its `t`-th multiple the multiples of `k` add up to `k`
/// times the `t`-th triangle number.
pub proof fn lemma_multiples_sum(k: int, t: int)
    requires
        k > 0,
        t >= 0,
    ensures
        2 * multiples_sum(k, k * t + 1) == k * (t * (t + 1)),
    decreases t,
{
    if t == 0 {
        assert(k * t + 1 == 1) by (nonlinear_arith)
            requires
                t == 0,
        ;
        reveal_with_fuel(multiples_sum, 2);
        assert(0int % k == 0) by {
            lemma_fundamental_div_mod_converse(0, k, 0, 0);
        }
        assert(k * (t * (t + 1)) == 0) by (nonlinear_arith)
            requires
                t == 0,
        ;
    } else {
        lemma_multiples_sum(k, t - 1);
        let low = k * (t - 1);
        let high = k * t;
        assert(high == low + k) by (nonlinear_arith)
            requires
                high == k * t,
                low == k * (t - 1),
        ;
        assert(low % k == 0) by {
            assert(low == (t - 1) * k + 0) by (nonlinear_arith)
                requires
                    low == k * (t - 1),
            ;
            lemma_fundamental_div_mod_converse(low, k, t - 1, 0);
        }
        assert(high % k == 0) by {
            assert(high == t * k + 0) by (nonlinear_arith)
                requires
                    high == k * t,
            ;
            lemma_fundamental_div_mod_converse(high, k, t, 0);
        }
        assert forall|j: int| low + 1 <= j < high implies !#[trigger] is_multiple(j, k) by {
            lemma_after_multiple(k, low, j);
        }
        lemma_gap(k, low + 1, high);
        assert(k * ((t - 1) * t) + 2 * (k * t) == k * (t * (t + 1))) by (nonlinear_arith);
    }
}

/// The multiples of 3 or 5 below 1000 add up to 233168.
pub proof fn lemma_known_sum()
    ensures
        multiples_sum(3, 1000) == 166833,
        multiples_sum(5, 1000) == 99500,
        multiples_sum(15, 1000) == 33165,
        sum_multiples(1000) == 233168,
{
    lemma_multiples_sum(3, 333);
    lemma_multiples_sum(5, 199);
    lemma_multiples_sum(15, 66);
    assert forall|j: int| 996 <= j < 1000 implies !#[trigger] is_multiple(j, 5) by {}
    lemma_gap(5, 996, 1000);
    assert forall|j: int| 991 <= j < 1000 implies !#[trigger] is_multiple(j, 15) by {}
    lemma_gap(15, 991, 1000);
    lemma_three_ways(1000);
}

/// The sum of all the multiples of 3 or 5 below 1000.
pub fn answer() -> (sum: u64)
    ensures
        sum == sum_multiples(1000),
        sum == 233168,
{
    proof {
        lemma_known_sum();
    }
    option4(1000)
}

} // verus!
