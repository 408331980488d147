//! The count of the non-bouncy numbers in closed form: below ten to the
//! power e there are C(e + 10, 10) + C(e + 9, 9) − 2 − 10·e of them.
//!
//! The polytopic numbers of the count are binomial coefficients, the count
//! for one length is a sum of products of two of them, and Vandermonde's
//! identity turns that sum into C(n + 8, 8) + C(n + 9, 9) − 10.

use vstd::prelude::*;
use crate::binomial::{
    binomial, lemma_binomial_beyond, lemma_binomial_full, lemma_binomial_one, lemma_vandermonde,
    vandermonde_sum,
};
use crate::problem113::{digit_limit, non_bouncy_number, poly, with_digits, with_digits_upto};

verus! {

/// The numbers of the table are binomial coefficients.
pub proof fn lemma_poly_is_binomial(i: nat, j: nat)
    ensures
        poly(i, j) == binomial(i + j + 1, i + 1),
    decreases i + j,
{
    if j == 0 {
        lemma_binomial_full(i + 1);
    } else if i == 0 {
        lemma_binomial_one(j + 1);
    } else {
        lemma_poly_is_binomial(i, (j - 1) as nat);
        lemma_poly_is_binomial((i - 1) as nat, j);
    }
}

/// Rows nine and ten of Pascal's triangle.
pub proof fn lemma_rows_nine_and_ten()
    ensures
        binomial(9, 0) == 1,
        binomial(9, 1) == 9,
        binomial(9, 2) == 36,
        binomial(9, 3) == 84,
        binomial(9, 4) == 126,
        binomial(9, 5) == 126,
        binomial(9, 6) == 84,
        binomial(9, 7) == 36,
        binomial(9, 8) == 9,
        binomial(9, 9) == 1,
        binomial(9, 10) == 0,
        binomial(10, 0) == 1,
        binomial(10, 1) == 10,
        binomial(10, 2) == 45,
        binomial(10, 3) == 120,
        binomial(10, 4) == 210,
        binomial(10, 5) == 252,
        binomial(10, 6) == 210,
        binomial(10, 7) == 120,
        binomial(10, 8) == 45,
        binomial(10, 9) == 10,
        binomial(10, 10) == 1,
{
    assert(binomial(0, 0) == 1);
    assert(binomial(0, 1) == 0);
    assert(binomial(0, 2) == 0);
    assert(binomial(0, 3) == 0);
    assert(binomial(0, 4) == 0);
    assert(binomial(0, 5) == 0);
    assert(binomial(0, 6) == 0);
    assert(binomial(0, 7) == 0);
    assert(binomial(0, 8) == 0);
    assert(binomial(0, 9) == 0);
    assert(binomial(0, 10) == 0);
    assert(binomial(1, 0) == 1);
    assert(binomial(1, 1) == 1);
    assert(binomial(1, 2) == 0);
    assert(binomial(1, 3) == 0);
    assert(binomial(1, 4) == 0);
    assert(binomial(1, 5) == 0);
    assert(binomial(1, 6) == 0);
    assert(binomial(1, 7) == 0);
    assert(binomial(1, 8) == 0);
    assert(binomial(1, 9) == 0);
    assert(binomial(1, 10) == 0);
    assert(binomial(2, 0) == 1);
    assert(binomial(2, 1) == 2);
    assert(binomial(2, 2) == 1);
    assert(binomial(2, 3) == 0);
    assert(binomial(2, 4) == 0);
    assert(binomial(2, 5) == 0);
    assert(binomial(2, 6) == 0);
    assert(binomial(2, 7) == 0);
    assert(binomial(2, 8) == 0);
    assert(binomial(2, 9) == 0);
    assert(binomial(2, 10) == 0);
    assert(binomial(3, 0) == 1);
    assert(binomial(3, 1) == 3);
    assert(binomial(3, 2) == 3);
    assert(binomial(3, 3) == 1);
    assert(binomial(3, 4) == 0);
    assert(binomial(3, 5) == 0);
    assert(binomial(3, 6) == 0);
    assert(binomial(3, 7) == 0);
    assert(binomial(3, 8) == 0);
    assert(binomial(3, 9) == 0);
    assert(binomial(3, 10) == 0);
    assert(binomial(4, 0) == 1);
    assert(binomial(4, 1) == 4);
    assert(binomial(4, 2) == 6);
    assert(binomial(4, 3) == 4);
    assert(binomial(4, 4) == 1);
    assert(binomial(4, 5) == 0);
    assert(binomial(4, 6) == 0);
    assert(binomial(4, 7) == 0);
    assert(binomial(4, 8) == 0);
    assert(binomial(4, 9) == 0);
    assert(binomial(4, 10) == 0);
    assert(binomial(5, 0) == 1);
    assert(binomial(5, 1) == 5);
    assert(binomial(5, 2) == 10);
    assert(binomial(5, 3) == 10);
    assert(binomial(5, 4) == 5);
    assert(binomial(5, 5) == 1);
    assert(binomial(5, 6) == 0);
    assert(binomial(5, 7) == 0);
    assert(binomial(5, 8) == 0);
    assert(binomial(5, 9) == 0);
    assert(binomial(5, 10) == 0);
    assert(binomial(6, 0) == 1);
    assert(binomial(6, 1) == 6);
    assert(binomial(6, 2) == 15);
    assert(binomial(6, 3) == 20);
    assert(binomial(6, 4) == 15);
    assert(binomial(6, 5) == 6);
    assert(binomial(6, 6) == 1);
    assert(binomial(6, 7) == 0);
    assert(binomial(6, 8) == 0);
    assert(binomial(6, 9) == 0);
    assert(binomial(6, 10) == 0);
    assert(binomial(7, 0) == 1);
    assert(binomial(7, 1) == 7);
    assert(binomial(7, 2) == 21);
    assert(binomial(7, 3) == 35);
    assert(binomial(7, 4) == 35);
    assert(binomial(7, 5) == 21);
    assert(binomial(7, 6) == 7);
    assert(binomial(7, 7) == 1);
    assert(binomial(7, 8) == 0);
    assert(binomial(7, 9) == 0);
    assert(binomial(7, 10) == 0);
    assert(binomial(8, 0) == 1);
    assert(binomial(8, 1) == 8);
    assert(binomial(8, 2) == 28);
    assert(binomial(8, 3) == 56);
    assert(binomial(8, 4) == 70);
    assert(binomial(8, 5) == 56);
    assert(binomial(8, 6) == 28);
    assert(binomial(8, 7) == 8);
    assert(binomial(8, 8) == 1);
    assert(binomial(8, 9) == 0);
    assert(binomial(8, 10) == 0);
    assert(binomial(9, 0) == 1);
    assert(binomial(9, 1) == 9);
    assert(binomial(9, 2) == 36);
    assert(binomial(9, 3) == 84);
    assert(binomial(9, 4) == 126);
    assert(binomial(9, 5) == 126);
    assert(binomial(9, 6) == 84);
    assert(binomial(9, 7) == 36);
    assert(binomial(9, 8) == 9);
    assert(binomial(9, 9) == 1);
    assert(binomial(9, 10) == 0);
    assert(binomial(10, 0) == 1);
    assert(binomial(10, 1) == 10);
    assert(binomial(10, 2) == 45);
    assert(binomial(10, 3) == 120);
    assert(binomial(10, 4) == 210);
    assert(binomial(10, 5) == 252);
    assert(binomial(10, 6) == 210);
    assert(binomial(10, 7) == 120);
    assert(binomial(10, 8) == 45);
    assert(binomial(10, 9) == 10);
    assert(binomial(10, 10) == 1);
}

/// In how many ways `d` different digits can be chosen for an increasing
/// or for a decreasing number.
pub open spec fn weight(d: nat) -> nat {
    binomial(9, d) + binomial(10, d)
}

/// The sum over the numbers of different digits from 2 to `d` of the
/// choices of digits times the choices of places among `n` digits.
pub open spec fn choices_upto(n: nat, d: nat) -> nat
    decreases d,
{
    if d < 2 {
        0
    } else {
        choices_upto(n, (d - 1) as nat) + weight(d) * binomial((n - 1) as nat, (d - 1) as nat)
    }
}

/// The count for `d` different digits is the choices of digits times the
/// choices of places.
pub proof fn lemma_with_digits(n: nat, d: nat)
    requires
        2 <= d <= 10,
        d <= n,
    ensures
        with_digits(n, d) == weight(d) * binomial((n - 1) as nat, (d - 1) as nat),
{
    lemma_rows_nine_and_ten();
    if d == 10 {
        lemma_poly_is_binomial(8, (n - 10) as nat);
        assert(weight(10) == 1);
        let c = binomial((n - 1) as nat, 9);
        assert(1 * c == c);
    } else {
        lemma_poly_is_binomial((d - 1) as nat, (9 - d) as nat);
        lemma_poly_is_binomial((d - 1) as nat, (10 - d) as nat);
        lemma_poly_is_binomial((d - 2) as nat, (n - d) as nat);
    }
}

/// Up to as many different digits as the length allows, the counts are
/// the choices.
pub proof fn lemma_choices_upto(n: nat, d: nat)
    requires
        d <= 10,
        d <= n,
    ensures
        with_digits_upto(n, d) == choices_upto(n, d),
    decreases d,
{
    if d >= 2 {
        lemma_choices_upto(n, (d - 1) as nat);
        lemma_with_digits(n, d);
    }
}

/// More different digits than the length allows add nothing.
pub proof fn lemma_choices_stop(n: nat, d: nat)
    requires
        1 <= n <= d,
    ensures
        choices_upto(n, d) == choices_upto(n, n),
    decreases d,
{
    if d > n {
        lemma_choices_stop(n, (d - 1) as nat);
        lemma_binomial_beyond((n - 1) as nat, (d - 1) as nat);
        assert(weight(d) * 0 == 0);
    }
}

/// The non-bouncy numbers of `n` digits are C(n + 8, 8) + C(n + 9, 9) − 10.
pub proof fn lemma_length_count(n: nat)
    requires
        n >= 1,
    ensures
        9 + with_digits_upto(n, digit_limit(n)) + 10 == binomial(n + 8, 8) + binomial(n + 9, 9),
{
    let below = (n - 1) as nat;
    lemma_choices_upto(n, digit_limit(n));
    if n < 10 {
        lemma_choices_stop(n, 10);
    }
    assert(with_digits_upto(n, digit_limit(n)) == choices_upto(n, 10));
    lemma_rows_nine_and_ten();
    lemma_vandermonde(9, below, 8);
    lemma_vandermonde(10, below, 9);
    let c0 = binomial(below, 0);
    let c1 = binomial(below, 1);
    let c2 = binomial(below, 2);
    let c3 = binomial(below, 3);
    let c4 = binomial(below, 4);
    let c5 = binomial(below, 5);
    let c6 = binomial(below, 6);
    let c7 = binomial(below, 7);
    let c8 = binomial(below, 8);
    let c9 = binomial(below, 9);
    assert(c0 == 1);
    reveal_with_fuel(choices_upto, 11);
    reveal_with_fuel(vandermonde_sum, 11);
    assert(weight(2) * c1 == 81 * c1) by (nonlinear_arith)
        requires
            weight(2) == 81,
    ;
    assert(weight(3) * c2 == 204 * c2) by (nonlinear_arith)
        requires
            weight(3) == 204,
    ;
    assert(weight(4) * c3 == 336 * c3) by (nonlinear_arith)
        requires
            weight(4) == 336,
    ;
    assert(weight(5) * c4 == 378 * c4) by (nonlinear_arith)
        requires
            weight(5) == 378,
    ;
    assert(weight(6) * c5 == 294 * c5) by (nonlinear_arith)
        requires
            weight(6) == 294,
    ;
    assert(weight(7) * c6 == 156 * c6) by (nonlinear_arith)
        requires
            weight(7) == 156,
    ;
    assert(weight(8) * c7 == 54 * c7) by (nonlinear_arith)
        requires
            weight(8) == 54,
    ;
    assert(weight(9) * c8 == 11 * c8) by (nonlinear_arith)
        requires
            weight(9) == 11,
    ;
    assert(weight(10) * c9 == 1 * c9) by (nonlinear_arith)
        requires
            weight(10) == 1,
    ;
    assert(binomial(9, 0) * c8 == 1 * c8) by (nonlinear_arith)
        requires
            binomial(9, 0) == 1,
    ;
    assert(binomial(9, 1) * c7 == 9 * c7) by (nonlinear_arith)
        requires
            binomial(9, 1) == 9,
    ;
    assert(binomial(9, 2) * c6 == 36 * c6) by (nonlinear_arith)
        requires
            binomial(9, 2) == 36,
    ;
    assert(binomial(9, 3) * c5 == 84 * c5) by (nonlinear_arith)
        requires
            binomial(9, 3) == 84,
    ;
    assert(binomial(9, 4) * c4 == 126 * c4) by (nonlinear_arith)
        requires
            binomial(9, 4) == 126,
    ;
    assert(binomial(9, 5) * c3 == 126 * c3) by (nonlinear_arith)
        requires
            binomial(9, 5) == 126,
    ;
    assert(binomial(9, 6) * c2 == 84 * c2) by (nonlinear_arith)
        requires
            binomial(9, 6) == 84,
    ;
    assert(binomial(9, 7) * c1 == 36 * c1) by (nonlinear_arith)
        requires
            binomial(9, 7) == 36,
    ;
    assert(binomial(9, 8) * c0 == 9 * c0) by (nonlinear_arith)
        requires
            binomial(9, 8) == 9,
    ;
    assert(binomial(10, 0) * c9 == 1 * c9) by (nonlinear_arith)
        requires
            binomial(10, 0) == 1,
    ;
    assert(binomial(10, 1) * c8 == 10 * c8) by (nonlinear_arith)
        requires
            binomial(10, 1) == 10,
    ;
    assert(binomial(10, 2) * c7 == 45 * c7) by (nonlinear_arith)
        requires
            binomial(10, 2) == 45,
    ;
    assert(binomial(10, 3) * c6 == 120 * c6) by (nonlinear_arith)
        requires
            binomial(10, 3) == 120,
    ;
    assert(binomial(10, 4) * c5 == 210 * c5) by (nonlinear_arith)
        requires
            binomial(10, 4) == 210,
    ;
    assert(binomial(10, 5) * c4 == 252 * c4) by (nonlinear_arith)
        requires
            binomial(10, 5) == 252,
    ;
    assert(binomial(10, 6) * c3 == 210 * c3) by (nonlinear_arith)
        requires
            binomial(10, 6) == 210,
    ;
    assert(binomial(10, 7) * c2 == 120 * c2) by (nonlinear_arith)
        requires
            binomial(10, 7) == 120,
    ;
    assert(binomial(10, 8) * c1 == 45 * c1) by (nonlinear_arith)
        requires
            binomial(10, 8) == 45,
    ;
    assert(binomial(10, 9) * c0 == 10 * c0) by (nonlinear_arith)
        requires
            binomial(10, 9) == 10,
    ;
}

/// Below ten to the power `exp` there are C(exp + 10, 10) + C(exp + 9, 9)
/// − 2 − 10·exp non-bouncy numbers.
pub proof fn lemma_non_bouncy_closed(exp: nat)
    requires
        exp >= 1,
    ensures
        non_bouncy_number(exp) + 2 + 10 * exp == binomial(exp + 10, 10) + binomial(exp + 9, 9),
    decreases exp,
{
    lemma_rows_nine_and_ten();
    if exp == 1 {
        assert(binomial(11, 10) == binomial(10, 9) + binomial(10, 10));
    } else {
        lemma_non_bouncy_closed((exp - 1) as nat);
        lemma_length_count(exp);
        assert(binomial(exp + 9, 9) == binomial((exp + 8) as nat, 8) + binomial(
            (exp + 8) as nat,
            9,
        ));
        assert(binomial(exp + 10, 10) == binomial((exp + 9) as nat, 9) + binomial(
            (exp + 9) as nat,
            10,
        ));
    }
}

} // verus!
