//! Sum square difference.
//!
//! The sum of the squares of the first ten natural numbers is 385, the
//! square of their sum is 3025, and the difference is 2640. Wanted: the same
//! difference for the first one hundred natural numbers.

use vstd::prelude::*;

verus! {

/// The sum 1 + 2 + … + n.
pub open spec fn sum_to(n: nat) -> nat
    decreases n,
{
    if n == 0 {
        0
    } else {
        sum_to((n - 1) as nat) + n
    }
}

/// The sum 1² + 2² + … + n².
pub open spec fn squares_to(n: nat) -> nat
    decreases n,
{
    if n == 0 {
        0
    } else {
        squares_to((n - 1) as nat) + n * n
    }
}

/// The square of the sum of the first `n` numbers less the sum of their
/// squares.
pub open spec fn square_gap(n: nat) -> int {
    sum_to(n) * sum_to(n) - squares_to(n)
}

/// The sum of the first `n` numbers is half of n(n+1).
pub proof fn lemma_sum_to(n: nat)
    ensures
        2 * sum_to(n) == (n + 1) * n,
        sum_to(n) == ((n + 1) * n) / 2,
    decreases n,
{
    if n > 0 {
        lemma_sum_to((n - 1) as nat);
        assert((n + 1) * n == n * (n - 1) + 2 * n) by (nonlinear_arith);
        assert((n - 1 + 1) * (n - 1) == n * (n - 1)) by (nonlinear_arith);
    } else {
        assert((n + 1) * n == 0) by (nonlinear_arith)
            requires
                n == 0,
        ;
    }
}

/// The sum of the squares is not above the square of the sum, and both grow
/// with `n`.
pub proof fn lemma_squares_below(i: nat, n: nat)
    requires
        i <= n,
    ensures
        squares_to(i) <= sum_to(i) * sum_to(i),
        sum_to(i) <= sum_to(n),
        squares_to(i) <= squares_to(n),
        sum_to(i) * sum_to(i) <= sum_to(n) * sum_to(n),
    decreases n,
{
    if n > 0 {
        if i < n {
            lemma_squares_below(i, (n - 1) as nat);
        } else {
            lemma_squares_below((i - 1) as nat, (n - 1) as nat);
            let s = sum_to((n - 1) as nat);
            assert((s + n) * (s + n) >= s * s + n * n) by (nonlinear_arith)
                requires
                    s >= 0,
                    n >= 0,
            ;
        }
        let a = sum_to(i);
        let b = sum_to(n);
        assert(a * a <= b * b) by (nonlinear_arith)
            requires
                0 <= a <= b,
        ;
    } else {
        assert(sum_to(0) * sum_to(0) == 0) by (nonlinear_arith)
            requires
                sum_to(0) == 0,
        ;
    }
}

/// The sum of the first `n` natural numbers.
pub fn sum_1_to(n: usize) -> (sum: usize)
    requires
        (n + 1) * n <= usize::MAX,
    ensures
        sum == sum_to(n as nat),
{
    proof {
        lemma_sum_to(n as nat);
    }
    (n + 1) * n / 2
}

/// The square of the sum of the first `n` natural numbers less the sum of
/// their squares.
pub fn option1(n: usize) -> (gap: usize)
    requires
        (n + 1) * n <= usize::MAX,
        sum_to(n as nat) * sum_to(n as nat) <= usize::MAX,
    ensures
        gap == square_gap(n as nat),
{
    let mut sum_of_squares: usize = 0;
    let mut i: usize = 0;
    while i < n
        invariant
            i <= n,
            sum_of_squares == squares_to(i as nat),
            sum_to(n as nat) * sum_to(n as nat) <= usize::MAX,
        decreases n - i,
    {
        proof {
            lemma_squares_below((i + 1) as nat, n as nat);
            lemma_squares_below(n as nat, n as nat);
            assert((i + 1) * (i + 1) <= squares_to((i + 1) as nat));
        }
        i += 1;
        sum_of_squares += i * i;
    }
    let sum = sum_1_to(n);
    proof {
        lemma_squares_below(n as nat, n as nat);
    }
    let square_of_sum = sum * sum;
    square_of_sum - sum_of_squares
}

/// Six times the sum of the first `n` squares is n(n+1)(2n+1).
pub proof fn lemma_squares_to(n: nat)
    ensures
        6 * squares_to(n) == n * (n + 1) * (2 * n + 1),
    decreases n,
{
    if n > 0 {
        lemma_squares_to((n - 1) as nat);
        assert((n - 1) * (n - 1 + 1) * (2 * (n - 1) + 1) + 6 * (n * n) == n * (n + 1) * (2 * n
            + 1)) by (nonlinear_arith);
    } else {
        assert(n * (n + 1) * (2 * n + 1) == 0) by (nonlinear_arith)
            requires
                n == 0,
        ;
    }
}

/// For ten numbers the difference is 2640, for a hundred 25164150.
pub proof fn lemma_known_gaps()
    ensures
        sum_to(10) == 55,
        sum_to(100) == 5050,
        square_gap(10) == 2640,
        square_gap(100) == 25164150,
{
    lemma_sum_to(100);
    lemma_sum_to(10);
    lemma_squares_to(100);
    lemma_squares_to(10);
    let ten: nat = 10;
    let hundred: nat = 100;
    assert(ten * (ten + 1) * (2 * ten + 1) == 2310) by (nonlinear_arith)
        requires
            ten == 10,
    ;
    assert(hundred * (hundred + 1) * (2 * hundred + 1) == 2030100) by (nonlinear_arith)
        requires
            hundred == 100,
    ;
    assert(6 * squares_to(10) == 2310);
    assert(6 * squares_to(100) == 2030100);
    assert(2 * sum_to(10) == 110) by (nonlinear_arith)
        requires
            2 * sum_to(10) == (ten + 1) * ten,
            ten == 10,
    ;
    assert(2 * sum_to(100) == 10100) by (nonlinear_arith)
        requires
            2 * sum_to(100) == (hundred + 1) * hundred,
            hundred == 100,
    ;
    let a = sum_to(10);
    let b = sum_to(100);
    assert(a * a == 3025) by (nonlinear_arith)
        requires
            a == 55,
    ;
    assert(b * b == 25502500) by (nonlinear_arith)
        requires
            b == 5050,
    ;
}

/// The difference for the first one hundred natural numbers.
pub fn answer() -> (gap: u64)
    ensures
        gap == square_gap(100),
        gap == 25164150,
{
    proof {
        lemma_known_gaps();
    }
    option1(100) as u64
}

/// The difference for the first ten natural numbers.
pub fn sample() -> (gap: u64)
    ensures
        gap == square_gap(10),
        gap == 2640,
{
    proof {
        lemma_known_gaps();
    }
    option1(10) as u64
}

} // verus!
