//! Smallest multiple.
//!
//! 2520 is the smallest number that can be divided by each of the numbers
//! from 1 to 10 without any remainder. Wanted: the smallest positive number
//! that is evenly divisible by all of the numbers from 1 to 20.
//!
//! Greatest common divisors and lowest common multiples come from the
//! `num-integer` crate.

use vstd::prelude::*;

verus! {

/// `d` divides both `a` and `b`.
pub open spec fn is_common_divisor(a: nat, b: nat, d: nat) -> bool {
    d >= 1 && a % d == 0 && b % d == 0
}

/// `g` is the greatest common divisor of `a` and `b`.
pub open spec fn is_gcd(a: nat, b: nat, g: nat) -> bool {
    is_common_divisor(a, b, g) && forall|d: nat| #[trigger] is_common_divisor(a, b, d) ==> d <= g
}

/// The greatest common divisor of `a` and `b`.
pub open spec fn gcd_of(a: nat, b: nat) -> nat {
    choose|g: nat| is_gcd(a, b, g)
}

/// `m` is a positive multiple of both `a` and `b`.
pub open spec fn is_common_multiple(a: nat, b: nat, m: nat) -> bool {
    m >= 1 && m % a == 0 && m % b == 0
}

/// The lowest common multiple of `a` and `b`, by the greatest common
/// divisor.
pub open spec fn lcm_of(a: nat, b: nat) -> nat {
    a * (b / gcd_of(a, b))
}

/// Two numbers have one greatest common divisor.
pub proof fn lemma_gcd_is(a: nat, b: nat, g: nat)
    requires
        is_gcd(a, b, g),
    ensures
        gcd_of(a, b) == g,
{
    let h = gcd_of(a, b);
    assert(is_gcd(a, b, h));
    assert(is_common_divisor(a, b, g));
    assert(is_common_divisor(a, b, h));
}

/// `num_integer::gcd`: the greatest common divisor of two numbers that are
/// not both zero.
#[verifier::external_body]
pub(crate) fn gcd(a: usize, b: usize) -> (g: usize)
    ensures
        a >= 1 || b >= 1 ==> is_gcd(a as nat, b as nat, g as nat),
{
    num_integer::gcd(a, b)
}

/// `num_integer::lcm`: the lowest common multiple of two numbers from one
/// on, computed as `a` times the quotient of `b` by the greatest common
/// divisor. That product has to fit.
#[verifier::external_body]
pub(crate) fn lcm(a: usize, b: usize) -> (l: usize)
    requires
        a >= 1,
        b >= 1,
        lcm_of(a as nat, b as nat) <= usize::MAX,
    ensures
        l == lcm_of(a as nat, b as nat),
        is_common_multiple(a as nat, b as nat, l as nat),
        forall|m: nat| #[trigger] is_common_multiple(a as nat, b as nat, m) ==> l <= m,
{
    num_integer::lcm(a, b)
}

/// The lowest common multiple of `a` and `b` where it fits, nothing where
/// it does not.
pub fn checked_lcm(a: usize, b: usize) -> (l: Option<usize>)
    requires
        a >= 1,
        b >= 1,
    ensures
        match l {
            Some(x) => x == lcm_of(a as nat, b as nat),
            None => lcm_of(a as nat, b as nat) > usize::MAX,
        },
{
    let g = gcd(a, b);
    proof {
        lemma_gcd_is(a as nat, b as nat, g as nat);
    }
    match a.checked_mul(b / g) {
        Some(_) => Some(lcm(a, b)),
        None => None,
    }
}

/// The lowest common multiple of `start` and the first `k` members of
/// `list`, taken in one after the other.
pub open spec fn lcm_fold(start: nat, list: Seq<usize>, k: int) -> nat
    decreases k,
{
    if k <= 0 {
        start
    } else {
        lcm_of(lcm_fold(start, list, k - 1), list[k - 1] as nat)
    }
}

/// Every step of the fold over the first `k` members fits.
pub open spec fn fold_fits(start: nat, list: Seq<usize>, k: int) -> bool {
    forall|j: int| 0 <= j <= k ==> #[trigger] lcm_fold(start, list, j) <= usize::MAX
}

/// The lowest common multiple of `start` and all of `list`, or nothing
/// where a step of the fold does not fit.
pub fn fold_lcm(start: usize, list: &Vec<usize>) -> (l: Option<usize>)
    requires
        start >= 1,
        forall|i: int| 0 <= i < list.len() ==> #[trigger] list[i] >= 1,
    ensures
        match l {
            Some(x) => x == lcm_fold(start as nat, list@, list.len() as int) && fold_fits(
                start as nat,
                list@,
                list.len() as int,
            ),
            None => !fold_fits(start as nat, list@, list.len() as int),
        },
{
    let mut a = start;
    let mut k: usize = 0;
    while k < list.len()
        invariant
            k <= list.len(),
            a >= 1,
            forall|i: int| 0 <= i < list.len() ==> #[trigger] list[i] >= 1,
            a == lcm_fold(start as nat, list@, k as int),
            fold_fits(start as nat, list@, k as int),
        decreases list.len() - k,
    {
        match checked_lcm(a, list[k]) {
            Some(x) => {
                proof {
                    lemma_lcm_positive(a as nat, list[k as int] as nat);
                }
                a = x;
            },
            None => {
                assert(lcm_fold(start as nat, list@, k + 1) > usize::MAX);
                return None;
            },
        }
        k += 1;
    }
    Some(a)
}

/// The lowest common multiple of two numbers from one on is at least one.
pub proof fn lemma_lcm_positive(a: nat, b: nat)
    requires
        a >= 1,
        b >= 1,
    ensures
        lcm_of(a, b) >= 1,
{
    assert(is_common_divisor(a, b, 1));
    assert forall|d: nat| #[trigger] is_common_divisor(a, b, d) implies d <= b by {
        if d > b {
            vstd::arithmetic::div_mod::lemma_small_mod(b, d);
        }
    }
    lemma_bounded_max(a, b, b);
    let g = gcd_of(a, b);
    assert(is_gcd(a, b, g));
    assert(is_common_divisor(a, b, g));
    assert(1 <= g <= b);
    vstd::arithmetic::div_mod::lemma_div_non_zero(b as int, g as int);
    assert(a * (b / g) >= 1) by (nonlinear_arith)
        requires
            a >= 1,
            b / g >= 1,
    ;
}

/// Among the common divisors up to a bound there is a greatest.
pub proof fn lemma_bounded_max(a: nat, b: nat, bound: nat)
    requires
        is_common_divisor(a, b, 1),
        forall|d: nat| #[trigger] is_common_divisor(a, b, d) ==> d <= bound,
    ensures
        exists|g: nat| is_gcd(a, b, g),
{
    let g = greatest_below(a, b, bound);
    lemma_greatest_below(a, b, bound);
    assert(is_gcd(a, b, g));
}

/// The greatest common divisor of `a` and `b` that is not above `bound`,
/// or zero if there is none.
pub open spec fn greatest_below(a: nat, b: nat, bound: nat) -> nat
    decreases bound,
{
    if bound == 0 {
        0
    } else if is_common_divisor(a, b, bound) {
        bound
    } else {
        greatest_below(a, b, (bound - 1) as nat)
    }
}

/// `greatest_below` is a common divisor where there is one up to the
/// bound, and no common divisor up to the bound is above it.
pub proof fn lemma_greatest_below(a: nat, b: nat, bound: nat)
    ensures
        forall|d: nat| d <= bound && #[trigger] is_common_divisor(a, b, d) ==> d <= greatest_below(
            a,
            b,
            bound,
        ) && is_common_divisor(a, b, greatest_below(a, b, bound)),
    decreases bound,
{
    if bound > 0 && !is_common_divisor(a, b, bound) {
        lemma_greatest_below(a, b, (bound - 1) as nat);
    }
}

/// Some number above `lo` and up to `hi` divides both `a` and `b`.
pub open spec fn common_above(a: nat, b: nat, lo: nat, hi: nat) -> bool
    decreases hi,
{
    if hi <= lo {
        false
    } else {
        is_common_divisor(a, b, hi) || common_above(a, b, lo, (hi - 1) as nat)
    }
}

/// Where no number above `lo` and up to `hi` divides both, none does.
pub proof fn lemma_common_above(a: nat, b: nat, lo: nat, hi: nat)
    requires
        !common_above(a, b, lo, hi),
    ensures
        forall|d: nat| lo < d <= hi ==> !#[trigger] is_common_divisor(a, b, d),
    decreases hi,
{
    if hi > lo {
        lemma_common_above(a, b, lo, (hi - 1) as nat);
    }
}

/// One step of a fold: with `g` the greatest common divisor of what was
/// folded so far and the next member, the fold goes on to their product
/// over `g`.
pub proof fn lemma_fold_step(start: nat, list: Seq<usize>, k: int, a: nat, b: nat, g: nat)
    requires
        1 <= k <= list.len(),
        lcm_fold(start, list, k - 1) == a,
        list[k - 1] == b,
        a >= 1,
        b >= 1,
        is_common_divisor(a, b, g),
        !common_above(a, b, g, b),
    ensures
        lcm_fold(start, list, k) == a * (b / g),
{
    lemma_common_above(a, b, g, b);
    assert(is_gcd(a, b, g)) by {
        assert forall|d: nat| #[trigger] is_common_divisor(a, b, d) implies d <= g by {
            if d > b {
                vstd::arithmetic::div_mod::lemma_small_mod(b, d);
            }
        }
    }
    lemma_gcd_is(a, b, g);
}

/// Folded over the other numbers, the product of the primes below 20 gives
/// 232792560.
pub proof fn lemma_others_fold()
    ensures
        fold_fits(9699690, others(), 10),
        lcm_fold(9699690, others(), 10) == 232792560,
{
    let list = others();
    reveal_with_fuel(common_above, 21);
    assert(lcm_fold(9699690, list, 0) == 9699690);
    lemma_fold_step(9699690, list, 1, 9699690, 4, 2);
    assert(lcm_fold(9699690, list, 1) == 19399380);
    lemma_fold_step(9699690, list, 2, 19399380, 6, 6);
    assert(lcm_fold(9699690, list, 2) == 19399380);
    lemma_fold_step(9699690, list, 3, 19399380, 8, 4);
    assert(lcm_fold(9699690, list, 3) == 38798760);
    lemma_fold_step(9699690, list, 4, 38798760, 9, 3);
    assert(lcm_fold(9699690, list, 4) == 116396280);
    lemma_fold_step(9699690, list, 5, 116396280, 10, 10);
    assert(lcm_fold(9699690, list, 5) == 116396280);
    lemma_fold_step(9699690, list, 6, 116396280, 12, 12);
    assert(lcm_fold(9699690, list, 6) == 116396280);
    lemma_fold_step(9699690, list, 7, 116396280, 16, 8);
    assert(lcm_fold(9699690, list, 7) == 232792560);
    lemma_fold_step(9699690, list, 8, 232792560, 18, 18);
    assert(lcm_fold(9699690, list, 8) == 232792560);
    lemma_fold_step(9699690, list, 9, 232792560, 19, 19);
    assert(lcm_fold(9699690, list, 9) == 232792560);
    lemma_fold_step(9699690, list, 10, 232792560, 20, 20);
    assert(lcm_fold(9699690, list, 10) == 232792560);
    assert forall|j: int| 0 <= j <= 10 implies #[trigger] lcm_fold(9699690, list, j) <= usize::MAX by {
        assert(lcm_fold(9699690, list, j) <= 232792560);
    }
}

/// Folded over all the numbers that are no primes, the product of the primes
/// below 20 gives 232792560 as well.
pub proof fn lemma_composites_fold()
    ensures
        fold_fits(9699690, composites(), 12),
        lcm_fold(9699690, composites(), 12) == 232792560,
{
    let list = composites();
    reveal_with_fuel(common_above, 21);
    assert(lcm_fold(9699690, list, 0) == 9699690);
    lemma_fold_step(9699690, list, 1, 9699690, 4, 2);
    assert(lcm_fold(9699690, list, 1) == 19399380);
    lemma_fold_step(9699690, list, 2, 19399380, 6, 6);
    assert(lcm_fold(9699690, list, 2) == 19399380);
    lemma_fold_step(9699690, list, 3, 19399380, 8, 4);
    assert(lcm_fold(9699690, list, 3) == 38798760);
    lemma_fold_step(9699690, list, 4, 38798760, 9, 3);
    assert(lcm_fold(9699690, list, 4) == 116396280);
    lemma_fold_step(9699690, list, 5, 116396280, 10, 10);
    assert(lcm_fold(9699690, list, 5) == 116396280);
    lemma_fold_step(9699690, list, 6, 116396280, 12, 12);
    assert(lcm_fold(9699690, list, 6) == 116396280);
    lemma_fold_step(9699690, list, 7, 116396280, 14, 14);
    assert(lcm_fold(9699690, list, 7) == 116396280);
    lemma_fold_step(9699690, list, 8, 116396280, 15, 15);
    assert(lcm_fold(9699690, list, 8) == 116396280);
    lemma_fold_step(9699690, list, 9, 116396280, 16, 8);
    assert(lcm_fold(9699690, list, 9) == 232792560);
    lemma_fold_step(9699690, list, 10, 232792560, 18, 18);
    assert(lcm_fold(9699690, list, 10) == 232792560);
    lemma_fold_step(9699690, list, 11, 232792560, 19, 19);
    assert(lcm_fold(9699690, list, 11) == 232792560);
    lemma_fold_step(9699690, list, 12, 232792560, 20, 20);
    assert(lcm_fold(9699690, list, 12) == 232792560);
    assert forall|j: int| 0 <= j <= 12 implies #[trigger] lcm_fold(9699690, list, j) <= usize::MAX by {
        assert(lcm_fold(9699690, list, j) <= 232792560);
    }
}

/// Folded over 3 to 10, 2 gives 2520.
pub proof fn lemma_ten_fold()
    ensures
        fold_fits(2, from_three(10), 8),
        lcm_fold(2, from_three(10), 8) == 2520,
{
    let list = from_three(10);
    reveal_with_fuel(common_above, 21);
    assert(lcm_fold(2, list, 0) == 2);
    lemma_fold_step(2, list, 1, 2, 3, 1);
    assert(lcm_fold(2, list, 1) == 6);
    lemma_fold_step(2, list, 2, 6, 4, 2);
    assert(lcm_fold(2, list, 2) == 12);
    lemma_fold_step(2, list, 3, 12, 5, 1);
    assert(lcm_fold(2, list, 3) == 60);
    lemma_fold_step(2, list, 4, 60, 6, 6);
    assert(lcm_fold(2, list, 4) == 60);
    lemma_fold_step(2, list, 5, 60, 7, 1);
    assert(lcm_fold(2, list, 5) == 420);
    lemma_fold_step(2, list, 6, 420, 8, 4);
    assert(lcm_fold(2, list, 6) == 840);
    lemma_fold_step(2, list, 7, 840, 9, 3);
    assert(lcm_fold(2, list, 7) == 2520);
    lemma_fold_step(2, list, 8, 2520, 10, 10);
    assert(lcm_fold(2, list, 8) == 2520);
    assert forall|j: int| 0 <= j <= 8 implies #[trigger] lcm_fold(2, list, j) <= usize::MAX by {
        assert(lcm_fold(2, list, j) <= 2520);
    }
}

/// Folded over 4, 6, 8, 9 and 10, the product of the primes below 10 gives
/// 2520.
pub proof fn lemma_small_fold()
    ensures
        fold_fits(210, seq![4usize, 6, 8, 9, 10], 5),
        lcm_fold(210, seq![4usize, 6, 8, 9, 10], 5) == 2520,
{
    let list = seq![4usize, 6, 8, 9, 10];
    reveal_with_fuel(common_above, 21);
    assert(lcm_fold(210, list, 0) == 210);
    lemma_fold_step(210, list, 1, 210, 4, 2);
    assert(lcm_fold(210, list, 1) == 420);
    lemma_fold_step(210, list, 2, 420, 6, 6);
    assert(lcm_fold(210, list, 2) == 420);
    lemma_fold_step(210, list, 3, 420, 8, 4);
    assert(lcm_fold(210, list, 3) == 840);
    lemma_fold_step(210, list, 4, 840, 9, 3);
    assert(lcm_fold(210, list, 4) == 2520);
    lemma_fold_step(210, list, 5, 2520, 10, 10);
    assert(lcm_fold(210, list, 5) == 2520);
    assert forall|j: int| 0 <= j <= 5 implies #[trigger] lcm_fold(210, list, j) <= usize::MAX by {
        assert(lcm_fold(210, list, j) <= 2520);
    }
}

/// Folded over 4, 6, 8 and 9, the product of the primes below 10 gives
/// 2520.
pub proof fn lemma_smaller_fold()
    ensures
        fold_fits(210, seq![4usize, 6, 8, 9], 4),
        lcm_fold(210, seq![4usize, 6, 8, 9], 4) == 2520,
{
    let list = seq![4usize, 6, 8, 9];
    reveal_with_fuel(common_above, 21);
    assert(lcm_fold(210, list, 0) == 210);
    lemma_fold_step(210, list, 1, 210, 4, 2);
    assert(lcm_fold(210, list, 1) == 420);
    lemma_fold_step(210, list, 2, 420, 6, 6);
    assert(lcm_fold(210, list, 2) == 420);
    lemma_fold_step(210, list, 3, 420, 8, 4);
    assert(lcm_fold(210, list, 3) == 840);
    lemma_fold_step(210, list, 4, 840, 9, 3);
    assert(lcm_fold(210, list, 4) == 2520);
    assert forall|j: int| 0 <= j <= 4 implies #[trigger] lcm_fold(210, list, j) <= usize::MAX by {
        assert(lcm_fold(210, list, j) <= 2520);
    }
}

/// The numbers from 3 to `n`.
pub open spec fn from_three(n: nat) -> Seq<usize> {
    Seq::new((n - 2) as nat, |i: int| (i + 3) as usize)
}

/// The lowest common multiple of the numbers from 1 to `n`, folded from 2
/// over 3 to `n`; `n` itself below 3. Zero where a step of the fold does
/// not fit.
pub fn option1(n: usize) -> (l: usize)
    ensures
        n < 3 ==> l == n,
        n >= 3 ==> l == if fold_fits(2, from_three(n as nat), n - 2) {
            lcm_fold(2, from_three(n as nat), n - 2)
        } else {
            0
        },
{
    if n < 3 {
        return n;
    }
    let mut list: Vec<usize> = Vec::new();
    let mut k: usize = 0;
    while k < n - 2
        invariant
            n >= 3,
            k <= n - 2,
            list.len() == k,
            forall|i: int| 0 <= i < list.len() ==> #[trigger] list[i] == i + 3,
        decreases n - 2 - k,
    {
        list.push(k + 3);
        k += 1;
    }
    proof {
        assert(list@ =~= from_three(n as nat));
    }
    match fold_lcm(2, &list) {
        Some(l) => l,
        None => 0,
    }
}

/// The numbers from 2 to 20 without the primes, 14 and 15: every one of
/// the latter divides a product of the primes.
pub open spec fn others() -> Seq<usize> {
    seq![4, 6, 8, 9, 10, 12, 16, 18, 19, 20]
}

/// The product of the primes below 20.
pub const PRIMES: usize = 9699690;

/// The lowest common multiple of the numbers from 1 to 20: the product of
/// the primes, folded over the other numbers.
pub fn option3() -> (l: usize)
    ensures
        l == lcm_fold(PRIMES as nat, others(), 10),
        l == 232792560,
{
    let list: Vec<usize> = vec![4, 6, 8, 9, 10, 12, 16, 18, 19, 20];
    proof {
        assert(list@ =~= others());
        lemma_others_fold();
    }
    match fold_lcm(PRIMES, &list) {
        Some(l) => l,
        None => 0,
    }
}

/// The numbers from 2 to 20 without the primes.
pub open spec fn composites() -> Seq<usize> {
    seq![4, 6, 8, 9, 10, 12, 14, 15, 16, 18, 19, 20]
}

/// The lowest common multiple of the numbers from 1 to 20: the product of
/// the primes, folded over all the other numbers.
pub fn option2() -> (l: usize)
    ensures
        l == lcm_fold(PRIMES as nat, composites(), 12),
        l == 232792560,
{
    let list: Vec<usize> = vec![4, 6, 8, 9, 10, 12, 14, 15, 16, 18, 19, 20];
    proof {
        assert(list@ =~= composites());
        lemma_composites_fold();
    }
    match fold_lcm(PRIMES, &list) {
        Some(l) => l,
        None => 0,
    }
}

/// The product of the primes below 10.
pub const SMALL_PRIMES: usize = 210;

/// The lowest common multiple of the numbers from 1 to 10: the product of
/// the primes, folded over 4, 6, 8, 9 and 10.
pub fn option2a() -> (l: usize)
    ensures
        l == lcm_fold(SMALL_PRIMES as nat, seq![4usize, 6, 8, 9, 10], 5),
        l == 2520,
{
    let list: Vec<usize> = vec![4, 6, 8, 9, 10];
    proof {
        assert(list@ =~= seq![4usize, 6, 8, 9, 10]);
        lemma_small_fold();
    }
    match fold_lcm(SMALL_PRIMES, &list) {
        Some(l) => l,
        None => 0,
    }
}

/// The lowest common multiple of the numbers from 1 to 10: the product of
/// the primes, folded over 4, 6, 8 and 9.
pub fn option3a() -> (l: usize)
    ensures
        l == lcm_fold(SMALL_PRIMES as nat, seq![4usize, 6, 8, 9], 4),
        l == 2520,
{
    let list: Vec<usize> = vec![4, 6, 8, 9];
    proof {
        assert(list@ =~= seq![4usize, 6, 8, 9]);
        lemma_smaller_fold();
    }
    match fold_lcm(SMALL_PRIMES, &list) {
        Some(l) => l,
        None => 0,
    }
}

/// The smallest positive number that is evenly divisible by all of the
/// numbers from 1 to 20.
pub fn answer() -> (l: u64)
    ensures
        l == lcm_fold(PRIMES as nat, others(), 10),
        l == 232792560,
{
    option3() as u64
}

/// The smallest positive number that is evenly divisible by all of the
/// numbers from 1 to 10.
pub fn sample() -> (l: u64)
    ensures
        l == lcm_fold(2, from_three(10), 8),
        l == 2520,
{
    proof {
        lemma_ten_fold();
    }
    option1(10) as u64
}

} // verus!
