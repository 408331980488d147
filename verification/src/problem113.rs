//! Non-bouncy numbers.
//!
//! A number whose digits never fall from left to right is increasing, one
//! whose digits never rise is decreasing, and a number that is neither is
//! bouncy. Wanted: how many numbers below a googol are not bouncy.
//!
//! A non-bouncy number of n digits with d different digits is fixed by the
//! choice of its digits and by the places at which one digit gives way to
//! the next. Both are counted by polytopic numbers: with p(r, k) the k-th
//! polytopic number of dimension r there are p(d, 10 − d) increasing and
//! p(d, 11 − d) decreasing choices of d digits, and p(d − 1, n + 1 − d)
//! choices of places.
//!
//! `closed` brings the count into closed form, and `digits` shows that it
//! is the number of the numbers that are increasing or decreasing.

pub mod closed;
pub mod digits;

use vstd::prelude::*;
use crate::math::{factorial, polytopic, power, rising};

verus! {

/// The polytopic number of dimension `i` + 1 at place `j` + 1: along a row
/// each number adds the one above it to the one before it.
pub open spec fn poly(i: nat, j: nat) -> nat
    decreases i + j,
{
    if j == 0 {
        1
    } else if i == 0 {
        j + 1
    } else {
        poly(i, (j - 1) as nat) + poly((i - 1) as nat, j)
    }
}

/// How many non-bouncy numbers of `n` digits have exactly `d` different
/// digits, for `d` from 2 to 10.
pub open spec fn with_digits(n: nat, d: nat) -> nat {
    if d == 10 {
        poly(8, (n - 10) as nat)
    } else {
        (poly((d - 1) as nat, (9 - d) as nat) + poly((d - 1) as nat, (10 - d) as nat)) * poly(
            (d - 2) as nat,
            (n - d) as nat,
        )
    }
}

/// How many non-bouncy numbers of `n` digits have from 2 to `d` different
/// digits.
pub open spec fn with_digits_upto(n: nat, d: nat) -> nat
    decreases d,
{
    if d < 2 {
        0
    } else {
        with_digits_upto(n, (d - 1) as nat) + with_digits(n, d)
    }
}

/// The greatest number of different digits that `n` digits can show.
pub open spec fn digit_limit(n: nat) -> nat {
    if n < 10 {
        n
    } else {
        10
    }
}

/// How many numbers below ten to the power `exp` are counted as not
/// bouncy: the nine of one digit, and for every further length the nine
/// with one digit repeated and those with several.
pub open spec fn non_bouncy_number(exp: nat) -> nat
    decreases exp,
{
    if exp <= 1 {
        9
    } else {
        non_bouncy_number((exp - 1) as nat) + 9 + with_digits_upto(exp, digit_limit(exp))
    }
}

/// The rising product from one on is the factorial.
pub proof fn lemma_rising_from_one(r: nat)
    ensures
        rising(1, r) == factorial(r),
    decreases r,
{
    if r > 0 {
        lemma_rising_from_one((r - 1) as nat);
    }
}

/// A rising product of one more factor begins with its first factor.
pub proof fn lemma_rising_shift(n: nat, r: nat)
    ensures
        rising(n, r + 1) == n * rising(n + 1, r),
    decreases r,
{
    if r > 0 {
        lemma_rising_shift(n, (r - 1) as nat);
        let a = rising(n + 1, (r - 1) as nat);
        assert(rising(n, r) == n * a);
        assert(rising(n, r + 1) == rising(n, r) * (n + r));
        assert(rising(n + 1, r) == a * (n + r));
        assert((n * a) * (n + r) == n * (a * (n + r))) by (nonlinear_arith);
    } else {
        reveal_with_fuel(rising, 2);
        assert(rising(n, 1) == n);
        assert(rising(n + 1, 0) == 1);
    }
}

/// The factorials are at least one.
pub proof fn lemma_factorial_positive(r: nat)
    ensures
        factorial(r) >= 1,
    decreases r,
{
    if r > 0 {
        lemma_factorial_positive((r - 1) as nat);
        let a = factorial((r - 1) as nat);
        assert(a * r >= 1) by (nonlinear_arith)
            requires
                a >= 1,
                r >= 1,
        ;
    }
}

/// The numbers of the table are the polytopic numbers: the number at place
/// `j` of row `i`, times the factorial of `i` + 1, is the rising product of
/// `i` + 1 factors from `j` + 1.
pub proof fn lemma_poly_closed(i: nat, j: nat)
    ensures
        poly(i, j) * factorial(i + 1) == rising(j + 1, i + 1),
        poly(i, j) == polytopic(i + 1, j + 1),
        poly(i, j) >= 1,
    decreases i + j,
{
    lemma_factorial_positive(i + 1);
    if j == 0 {
        lemma_rising_from_one(i + 1);
        assert(1 * factorial(i + 1) == factorial(i + 1));
    } else if i == 0 {
        assert(factorial(0) == 1);
        assert(factorial(1) == factorial(0) * 1);
        assert(rising(j + 1, 0) == 1);
        assert(rising(j + 1, 1) == rising(j + 1, 0) * (j + 1));
        assert(factorial(1) == 1);
        assert(rising(j + 1, 1) == j + 1);
        assert(poly(0, j) == j + 1) by {
            lemma_poly_first_row(j);
        }
    } else {
        lemma_poly_closed(i, (j - 1) as nat);
        lemma_poly_closed((i - 1) as nat, j);
        let a = poly(i, (j - 1) as nat);
        let b = poly((i - 1) as nat, j);
        let f = factorial(i);
        let base = rising(j + 1, i);
        assert(factorial(i + 1) == f * (i + 1));
        assert(a * factorial(i + 1) == rising(j, i + 1));
        assert(b * f == base);
        lemma_rising_shift(j, i);
        assert(rising(j, i + 1) == j * base);
        assert(rising(j + 1, i + 1) == base * (j + i + 1));
        assert((a + b) * (f * (i + 1)) == a * (f * (i + 1)) + (b * f) * (i + 1)) by (nonlinear_arith);
        assert(j * base + base * (i + 1) == base * (j + i + 1)) by (nonlinear_arith);
    }
    let p = poly(i, j);
    let f = factorial(i + 1);
    let r = rising(j + 1, i + 1);
    assert(p == r / f) by {
        assert(r == f * p) by (nonlinear_arith)
            requires
                p * f == r,
        ;
        vstd::arithmetic::div_mod::lemma_div_multiples_vanish(p as int, f as int);
    }
    lemma_poly_bound_low(i, j);
}

/// The first row of the table counts from one.
pub proof fn lemma_poly_first_row(j: nat)
    ensures
        poly(0, j) == j + 1,
    decreases j,
{
    if j > 0 {
        lemma_poly_first_row((j - 1) as nat);
    }
}

/// The numbers of the table are at least one.
pub proof fn lemma_poly_bound_low(i: nat, j: nat)
    ensures
        poly(i, j) >= 1,
    decreases i + j,
{
    if j == 0 {
    } else if i == 0 {
    } else {
        lemma_poly_bound_low(i, (j - 1) as nat);
        lemma_poly_bound_low((i - 1) as nat, j);
    }
}

/// A rising product whose factors stay up to a hundred is not above the
/// power of a hundred.
pub proof fn lemma_rising_bound(n: nat, r: nat)
    requires
        n + r <= 101,
    ensures
        rising(n, r) <= power(100, r),
    decreases r,
{
    if r > 0 {
        lemma_rising_bound(n, (r - 1) as nat);
        let a = rising(n, (r - 1) as nat);
        let b = power(100, (r - 1) as nat);
        let f = (n + r - 1) as nat;
        assert(a * f <= b * 100) by (nonlinear_arith)
            requires
                a <= b,
                f <= 100,
        ;
    }
}

/// The most that a number of the rows 0 to 7 of the table can be, where
/// its row and place add up to less than a hundred.
pub const ROW_CAP: u64 = 250_000_000_000;

/// The most that one length can add for one number of different digits.
pub const SHARE_CAP: u64 = 512_000_000_000_000;

/// The factorials up to the ninth, and the powers of a hundred that they
/// divide into little.
pub proof fn lemma_caps(k: nat)
    requires
        1 <= k <= 9,
    ensures
        k <= 8 ==> power(100, k) <= factorial(k) * ROW_CAP,
        power(100, k) <= factorial(k) * 3_000_000_000_000,
        power(100, k) <= 1_000_000_000_000_000_000,
{
    reveal_with_fuel(factorial, 10);
    reveal_with_fuel(power, 10);
    assert(factorial(1) == 1);
    assert(factorial(2) == 2);
    assert(factorial(3) == 6);
    assert(factorial(4) == 24);
    assert(factorial(5) == 120);
    assert(factorial(6) == 720);
    assert(factorial(7) == 5040);
    assert(factorial(8) == 40320);
    assert(factorial(9) == 362880);
    assert(power(100, 1) == 100);
    assert(power(100, 2) == 10000);
    assert(power(100, 3) == 1000000);
    assert(power(100, 4) == 100000000);
    assert(power(100, 5) == 10000000000);
    assert(power(100, 6) == 1000000000000);
    assert(power(100, 7) == 100000000000000);
    assert(power(100, 8) == 10000000000000000);
    assert(power(100, 9) == 1000000000000000000);
}

/// A number of the table whose row and place add up to less than a
/// hundred is not above the power of a hundred over the factorial.
pub proof fn lemma_poly_cap(i: nat, j: nat)
    requires
        i <= 8,
        i + j <= 99,
    ensures
        poly(i, j) <= 1_000_000_000_000_000_000,
        poly(i, j) <= 3_000_000_000_000,
        i <= 7 ==> poly(i, j) <= ROW_CAP,
{
    lemma_poly_closed(i, j);
    lemma_rising_bound(j + 1, i + 1);
    lemma_caps(i + 1);
    lemma_factorial_positive(i + 1);
    let p = poly(i, j);
    let f = factorial(i + 1);
    assert(p <= p * f) by (nonlinear_arith)
        requires
            f >= 1,
            p >= 0,
    ;
    assert(p <= 3_000_000_000_000) by (nonlinear_arith)
        requires
            p * f <= f * 3_000_000_000_000,
            f >= 1,
    ;
    if i <= 7 {
        assert(p <= ROW_CAP) by (nonlinear_arith)
            requires
                p * f <= f * ROW_CAP,
                f >= 1,
        ;
    }
}

/// A number of the table whose row and place add up to at most ten is at
/// most 1024.
pub proof fn lemma_poly_small(i: nat, j: nat)
    requires
        i + j <= 9,
    ensures
        poly(i, j) <= doubled_to(i + j + 1),
        poly(i, j) <= 1024,
    decreases i + j,
{
    if j == 0 {
        lemma_doubled_to(i + j + 1);
    } else if i == 0 {
        lemma_poly_first_row(j);
        lemma_doubled_to(j + 1);
        lemma_doubled_to(j);
        lemma_poly_small(0, (j - 1) as nat);
    } else {
        lemma_poly_small(i, (j - 1) as nat);
        lemma_poly_small((i - 1) as nat, j);
        lemma_doubled_to(i + j + 1);
    }
    lemma_doubled_to(i + j + 1);
}

/// Two to the power `k`.
pub open spec fn doubled_to(k: nat) -> nat
    decreases k,
{
    if k == 0 {
        1
    } else {
        2 * doubled_to((k - 1) as nat)
    }
}

/// Up to the tenth, the powers of two are at most 1024 and at least one.
pub proof fn lemma_doubled_to(k: nat)
    requires
        k <= 10,
    ensures
        1 <= doubled_to(k) <= 1024,
    decreases 10 - k,
{
    if k == 10 {
        reveal_with_fuel(doubled_to, 11);
    } else {
        lemma_doubled_to(k + 1);
    }
}

/// The counts for one length stay below the cap for every number of
/// different digits.
pub proof fn lemma_with_digits_bound(n: nat, d: nat)
    requires
        2 <= n <= 100,
        d <= digit_limit(n),
    ensures
        with_digits_upto(n, d) <= d * SHARE_CAP,
        d >= 2 ==> with_digits(n, d) <= SHARE_CAP,
    decreases d,
{
    if d >= 2 {
        lemma_with_digits_bound(n, (d - 1) as nat);
        if d == 10 {
            lemma_poly_cap(8, (n - 10) as nat);
        } else {
            let a = poly((d - 1) as nat, (9 - d) as nat);
            let b = poly((d - 1) as nat, (10 - d) as nat);
            let c = poly((d - 2) as nat, (n - d) as nat);
            lemma_poly_small((d - 1) as nat, (9 - d) as nat);
            lemma_poly_small((d - 1) as nat, (10 - d) as nat);
            lemma_poly_cap((d - 2) as nat, (n - d) as nat);
            assert((a + b) * c <= 2048 * ROW_CAP) by (nonlinear_arith)
                requires
                    0 <= a + b <= 2048,
                    0 <= c <= ROW_CAP,
            ;
        }
        assert((d - 1) * SHARE_CAP + SHARE_CAP == d * SHARE_CAP) by (nonlinear_arith);
    }
}

/// The count up to a length stays below the length times eleven times the
/// cap.
pub proof fn lemma_non_bouncy_bound(exp: nat)
    requires
        exp <= 100,
    ensures
        non_bouncy_number(exp) <= 9 + exp * (11 * SHARE_CAP),
        non_bouncy_number(exp) <= 600_000_000_000_000_000,
    decreases exp,
{
    if exp > 1 {
        lemma_non_bouncy_bound((exp - 1) as nat);
        lemma_with_digits_bound(exp, digit_limit(exp));
        let t = SHARE_CAP as nat;
        assert(digit_limit(exp) * t <= 10 * t) by (nonlinear_arith)
            requires
                digit_limit(exp) <= 10,
                t >= 0,
        ;
        assert((exp - 1) * (11 * t) + 11 * t == exp * (11 * t)) by (nonlinear_arith);
    }
    assert(exp * (11 * SHARE_CAP) <= 100 * (11 * SHARE_CAP)) by (nonlinear_arith)
        requires
            0 <= exp <= 100,
    ;
}

/// The table of polytopic numbers: nine rows of 99 places, row by row. In
/// row `i` the places below 99 − `i` are filled.
fn polytopic_table() -> (p: Vec<u64>)
    ensures
        p.len() == 9 * 99,
        forall|i: int, j: int|
            0 <= i < 9 && 0 <= j < 99 - i ==> #[trigger] p[i * 99 + j] == poly(i as nat, j as nat),
{
    let mut p: Vec<u64> = Vec::new();
    let mut k: usize = 0;
    while k < 9 * 99
        invariant
            k <= 9 * 99,
            p.len() == k,
        decreases 9 * 99 - k,
    {
        p.push(0);
        k += 1;
    }
    let mut i: usize = 0;
    while i < 9
        invariant
            i <= 9,
            p.len() == 9 * 99,
            forall|r: int| 0 <= r < i ==> #[trigger] p[r * 99] == 1,
        decreases 9 - i,
    {
        p[i * 99] = 1;
        i += 1;
    }
    let mut j: usize = 1;
    proof {
        assert(p[0int * 99] == 1);
    }
    while j < 99
        invariant
            1 <= j <= 99,
            p.len() == 9 * 99,
            forall|r: int| 0 <= r < 9 ==> #[trigger] p[r * 99] == 1,
            forall|c: int| 0 <= c < j ==> #[trigger] p[c] == poly(0, c as nat),
        decreases 99 - j,
    {
        proof {
            assert(p[0int * 99] == 1);
            reveal_with_fuel(poly, 2);
        }
        p[j] = p[j - 1] + 1;
        j += 1;
    }
    let mut i: usize = 1;
    while i < 9
        invariant
            1 <= i <= 9,
            p.len() == 9 * 99,
            forall|r: int| 0 <= r < 9 ==> #[trigger] p[r * 99] == 1,
            forall|r: int, c: int|
                0 <= r < i && 0 <= c < 99 - r ==> #[trigger] p[r * 99 + c] == poly(
                    r as nat,
                    c as nat,
                ),
        decreases 9 - i,
    {
        let mut j: usize = 1;
        while j < 99 - i
            invariant
                1 <= i < 9,
                1 <= j <= 99 - i,
                p.len() == 9 * 99,
                forall|r: int| 0 <= r < 9 ==> #[trigger] p[r * 99] == 1,
                forall|r: int, c: int|
                    0 <= r < i && 0 <= c < 99 - r ==> #[trigger] p[r * 99 + c] == poly(
                        r as nat,
                        c as nat,
                    ),
                forall|c: int| 0 <= c < j ==> #[trigger] p[i * 99 + c] == poly(i as nat, c as nat),
            decreases 99 - i - j,
        {
            proof {
                lemma_poly_cap(i as nat, j as nat);
                assert(p[i * 99 + (j - 1)] == poly(i as nat, (j - 1) as nat));
                assert(p[(i - 1) * 99 + j] == poly((i - 1) as nat, j as nat));
            }
            p[i * 99 + j] = p[i * 99 + j - 1] + p[(i - 1) * 99 + j];
            j += 1;
        }
        proof {
            assert(p[i * 99] == 1);
        }
        i += 1;
    }
    p
}

/// How many numbers below ten to the power `exp` are not bouncy.
pub fn non_bouncy(exp: usize) -> (count: u64)
    requires
        1 <= exp <= 100,
    ensures
        count == non_bouncy_number(exp as nat),
        count == digits::non_bouncy_below(exp as nat).len(),
{
    proof {
        digits::lemma_non_bouncy_meaning(exp as nat);
    }
    let p = polytopic_table();
    let mut sum: u64 = 9;
    let mut n: usize = 2;
    while n <= exp
        invariant
            2 <= n <= exp + 1,
            exp <= 100,
            p.len() == 9 * 99,
            forall|i: int, j: int|
                0 <= i < 9 && 0 <= j < 99 - i ==> #[trigger] p[i * 99 + j] == poly(
                    i as nat,
                    j as nat,
                ),
            sum == non_bouncy_number((n - 1) as nat),
        decreases exp + 1 - n,
    {
        proof {
            lemma_non_bouncy_bound(n as nat);
            lemma_non_bouncy_bound((n - 1) as nat);
        }
        let ghost before = sum;
        sum += 9;
        let d_limit: usize = if n < 10 {
            n
        } else {
            10
        };
        let mut d: usize = 2;
        while d <= d_limit
            invariant
                2 <= d <= d_limit + 1,
                2 <= n <= 100,
                d_limit == digit_limit(n as nat),
                p.len() == 9 * 99,
                forall|i: int, j: int|
                    0 <= i < 9 && 0 <= j < 99 - i ==> #[trigger] p[i * 99 + j] == poly(
                        i as nat,
                        j as nat,
                    ),
                sum == before + 9 + with_digits_upto(n as nat, (d - 1) as nat),
                before + 9 + with_digits_upto(n as nat, d_limit as nat)
                    <= 600_000_000_000_000_000,
            decreases d_limit + 1 - d,
        {
            proof {
                lemma_with_digits_bound(n as nat, d as nat);
                lemma_with_digits_grows(n as nat, d as nat, d_limit as nat);
            }
            let more: u64 = if d == 10 {
                proof {
                    assert(p[8 * 99 + (n - 10)] == poly(8, (n - 10) as nat));
                }
                p[8 * 99 + n - 10]
            } else {
                proof {
                    assert(p[(d - 1) * 99 + (9 - d)] == poly((d - 1) as nat, (9 - d) as nat));
                    assert(p[(d - 1) * 99 + (10 - d)] == poly((d - 1) as nat, (10 - d) as nat));
                    assert(p[(d - 2) * 99 + (n - d)] == poly((d - 2) as nat, (n - d) as nat));
                    lemma_poly_small((d - 1) as nat, (9 - d) as nat);
                    lemma_poly_small((d - 1) as nat, (10 - d) as nat);
                }
                (p[(d - 1) * 99 + 9 - d] + p[(d - 1) * 99 + 10 - d]) * p[(d - 2) * 99 + n - d]
            };
            sum += more;
            d += 1;
        }
        n += 1;
    }
    sum
}

/// The counts for one length grow with the number of digits allowed.
pub proof fn lemma_with_digits_grows(n: nat, d: nat, limit: nat)
    requires
        d <= limit,
    ensures
        with_digits_upto(n, d) <= with_digits_upto(n, limit),
    decreases limit,
{
    if d < limit {
        lemma_with_digits_grows(n, d, (limit - 1) as nat);
    }
}

/// How many numbers below a googol are not bouncy.
pub fn answer() -> (count: u64)
    ensures
        count == non_bouncy_number(100),
        count == digits::non_bouncy_below(100).len(),
{
    non_bouncy(100)
}

} // verus!
