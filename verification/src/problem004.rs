//! Largest palindrome product.
//!
//! A palindromic number reads the same both ways. The largest palindrome
//! made from the product of two 2-digit numbers is 9009 = 91 × 99. Wanted:
//! the largest palindrome made from the product of two 3-digit numbers.

use vstd::prelude::*;
use crate::math::{isqrt, lemma_power_grows, pow, power};

verus! {

/// How many digits `x` is taken to have: one, and one more for every
/// division by ten while `x` is above ten.
pub open spec fn digit_count(x: nat) -> nat
    decreases x,
{
    if x <= 10 {
        1
    } else {
        1 + digit_count(x / 10)
    }
}

/// The last `n` digits of `x` in reverse order, written behind `acc`.
pub open spec fn reversed(x: nat, n: nat, acc: nat) -> nat
    decreases n,
{
    if n == 0 {
        acc
    } else {
        reversed(x / 10, (n - 1) as nat, acc * 10 + x % 10)
    }
}

/// `x` read backwards.
pub open spec fn mirror(x: nat) -> nat {
    reversed(x, digit_count(x), 0)
}

/// `x` followed by `x` read backwards.
pub open spec fn palindrome_of(x: nat) -> nat {
    x * power(10, digit_count(x)) + mirror(x)
}

/// `x` has a divisor below `limit` that is not below its integer square
/// root.
pub open spec fn has_divisor_from_root(x: nat, limit: nat) -> bool {
    exists|y: nat| 0 < y < limit && x < (y + 1) * (y + 1) && #[trigger] (x % y) == 0
}

/// Writing more digits behind `acc` does not make it smaller.
pub proof fn lemma_reversed_grows(x: nat, n: nat, acc: nat)
    ensures
        acc <= reversed(x, n, acc),
    decreases n,
{
    if n > 0 {
        lemma_reversed_grows(x / 10, (n - 1) as nat, acc * 10 + x % 10);
    }
}

/// No number has more than twenty digits.
pub proof fn lemma_digit_count_small(x: nat)
    requires
        x <= u64::MAX,
    ensures
        digit_count(x) <= 20,
{
    reveal_with_fuel(digit_count, 21);
}

/// The number of digits of `x`, counted by dividing by ten while `x` is
/// above ten.
pub fn number_of_digits(x: usize) -> (n: u32)
    ensures
        n == digit_count(x as nat),
{
    let mut rest = x;
    let mut n: u32 = 1;
    proof {
        lemma_digit_count_small(x as nat);
    }
    while rest > 10
        invariant
            n + digit_count(rest as nat) == digit_count(x as nat) + 1,
            digit_count(x as nat) <= 20,
            n >= 1,
        decreases rest,
    {
        rest /= 10;
        n += 1;
    }
    n
}

/// `x` read backwards.
pub fn reverse_number(x: usize) -> (back: usize)
    requires
        mirror(x as nat) <= usize::MAX,
    ensures
        back == mirror(x as nat),
{
    let n = number_of_digits(x);
    let mut y = x;
    let mut back: usize = 0;
    let mut k: u32 = 0;
    while k < n
        invariant
            k <= n,
            reversed(y as nat, (n - k) as nat, back as nat) == mirror(x as nat),
            n == digit_count(x as nat),
            mirror(x as nat) <= usize::MAX,
        decreases n - k,
    {
        proof {
            lemma_reversed_grows((y / 10) as nat, (n - k - 1) as nat, (back * 10 + y % 10) as nat);
        }
        back = back * 10 + y % 10;
        y /= 10;
        k += 1;
    }
    back
}

/// `x` followed by `x` read backwards.
pub fn create_palindrome(x: usize) -> (p: usize)
    requires
        palindrome_of(x as nat) <= usize::MAX,
    ensures
        p == palindrome_of(x as nat),
{
    let n = number_of_digits(x);
    if x == 0 {
        proof {
            reveal_with_fuel(power, 2);
            reveal_with_fuel(reversed, 2);
            assert(power(10, 1) == 10);
            assert(mirror(0) == 0);
        }
        return 0;
    }
    proof {
        let t = power(10, n as nat);
        lemma_power_grows(10, 0, n as nat);
        assert(t <= x * t) by (nonlinear_arith)
            requires
                x >= 1,
                t >= 0,
        ;
    }
    x * pow(10, n) + reverse_number(x)
}

/// Whether `x` has a divisor from its integer square root up to below
/// `limit`.
fn is_divisible_below(x: usize, limit: usize) -> (found: bool)
    ensures
        found == has_divisor_from_root(x as nat, limit as nat),
{
    let m = isqrt(x);
    let mut y = limit;
    while y > m
        invariant
            m * m <= x < (m + 1) * (m + 1),
            y <= limit,
            forall|z: nat|
                y <= z < limit && 0 < z && x < (z + 1) * (z + 1) ==> #[trigger] (x as nat % z) != 0,
        decreases y,
    {
        y -= 1;
        proof {
            assert((m + 1) * (m + 1) <= (y + 1) * (y + 1)) by (nonlinear_arith)
                requires
                    m <= y,
            ;
        }
        if y != 0 && x % y == 0 {
            assert(0 < (y as nat) < limit && x < (y + 1) * (y + 1) && (x as nat % (y as nat)) == 0);
            return true;
        }
    }
    proof {
        assert forall|z: nat|
            0 < z < limit && x < (z + 1) * (z + 1) implies #[trigger] (x as nat % z) != 0 by {
            if z < y {
                assert((z + 1) * (z + 1) <= m * m) by (nonlinear_arith)
                    requires
                        z + 1 <= m,
                ;
            }
        }
    }
    false
}

/// Whether `x` is the product of two 3-digit numbers, as far as a divisor
/// from its integer square root up to 999 shows it.
pub fn is_divisible_by_3digits(x: usize) -> (found: bool)
    ensures
        found == has_divisor_from_root(x as nat, 1000),
{
    is_divisible_below(x, 1000)
}

/// Whether `x` is the product of two 2-digit numbers, as far as a divisor
/// from its integer square root up to 99 shows it.
pub fn is_divisible_by_2digits(x: usize) -> (found: bool)
    ensures
        found == has_divisor_from_root(x as nat, 100),
{
    is_divisible_below(x, 100)
}

/// `best` is the palindrome of the greatest number from `low` to `high`
/// whose palindrome has a divisor from its root up to below `limit`; zero
/// if there is no such number.
pub open spec fn is_largest_palindrome(best: nat, low: nat, high: nat, limit: nat) -> bool {
    if exists|x: nat| low <= x <= high && #[trigger] has_divisor_from_root(palindrome_of(x), limit) {
        exists|x: nat|
            low <= x <= high && best == palindrome_of(x) && #[trigger] has_divisor_from_root(
                palindrome_of(x),
                limit,
            ) && forall|z: nat|
                x < z <= high ==> !#[trigger] has_divisor_from_root(palindrome_of(z), limit)
    } else {
        best == 0
    }
}

/// A number of two or three digits has a palindrome of four or six.
pub proof fn lemma_short_palindromes(x: nat)
    requires
        11 <= x <= 999,
    ensures
        palindrome_of(x) <= 999_999,
{
    reveal_with_fuel(digit_count, 4);
    reveal_with_fuel(reversed, 4);
    reveal_with_fuel(power, 4);
    if x <= 109 {
        assert(digit_count(x) == 2);
        assert(power(10, 2) == 100);
        assert(mirror(x) <= 99);
    } else {
        assert(digit_count(x) == 3);
        assert(power(10, 3) == 1000);
        assert(mirror(x) <= 999);
    }
}

/// The first palindrome, counting down from `high` to `low`, that has a
/// divisor from its root up to below `limit`.
fn largest_palindrome(low: usize, high: usize, limit: usize) -> (best: usize)
    requires
        11 <= low <= high <= 999,
    ensures
        is_largest_palindrome(best as nat, low as nat, high as nat, limit as nat),
{
    let mut x = high;
    loop
        invariant
            11 <= low <= x <= high <= 999,
            forall|z: nat|
                x < z <= high ==> !#[trigger] has_divisor_from_root(palindrome_of(z), limit as nat),
        decreases x,
    {
        proof {
            lemma_short_palindromes(x as nat);
        }
        let p = create_palindrome(x);
        if is_divisible_below(p, limit) {
            assert(has_divisor_from_root(palindrome_of(x as nat), limit as nat));
            return p;
        }
        if x == low {
            return 0;
        }
        x -= 1;
    }
}

/// The largest palindrome made from the product of two 3-digit numbers, and
/// from first halves up to 997. Zero if there is none.
pub fn answer() -> (best: u64)
    ensures
        is_largest_palindrome(best as nat, 100, 997, 1000),
{
    largest_palindrome(100, 997, 1000) as u64
}

/// The largest palindrome made from the product of two 2-digit numbers, and
/// from first halves from 90 to 97. Zero if there is none.
pub fn sample() -> (best: u64)
    ensures
        is_largest_palindrome(best as nat, 90, 97, 100),
{
    largest_palindrome(90, 97, 100) as u64
}

} // verus!
