//! What the count counts: numbers by their digits.
//!
//! A number is increasing if no digit is above the digit to its right,
//! decreasing if no digit is below the digit to its right.

use vstd::prelude::*;
use vstd::relations::injective_on;
use vstd::set_lib::{lemma_map_size, lemma_set_disjoint_lens, lemma_set_intersect_union_lens};
use crate::binomial::{binomial, lemma_binomial_all_but_one, lemma_binomial_full};
use crate::math::{lemma_power_grows, power};
use crate::problem113::closed::lemma_non_bouncy_closed;
use crate::problem113::{non_bouncy_number, poly};

verus! {

/// From left to right no digit of `x` is above the next.
pub open spec fn is_increasing(x: nat) -> bool
    decreases x,
{
    x < 10 || ((x / 10) % 10 <= x % 10 && is_increasing(x / 10))
}

/// From left to right no digit of `x` is below the next.
pub open spec fn is_decreasing(x: nat) -> bool
    decreases x,
{
    x < 10 || ((x / 10) % 10 >= x % 10 && is_decreasing(x / 10))
}

/// The increasing numbers below ten to the power `e` whose last digit is
/// not above `j`; zero is one of them.
pub open spec fn increasing_below(e: nat, j: nat) -> Set<nat> {
    Set::new(|x: nat| x < power(10, e) && is_increasing(x) && x % 10 <= j)
}

/// `y` with the digit `j` written behind it.
pub open spec fn with_digit(j: nat) -> spec_fn(nat) -> nat {
    |y: nat| 10 * y + j
}

/// Writing one digit behind every number of a set makes as many numbers.
pub proof fn lemma_with_digit(s: Set<nat>, j: nat)
    requires
        s.finite(),
    ensures
        s.map(with_digit(j)).finite(),
        s.map(with_digit(j)).len() == s.len(),
{
    assert(injective_on(with_digit(j), s));
    lemma_map_size(s, s.map(with_digit(j)), with_digit(j));
}

/// An increasing number that ends in zero is zero.
pub proof fn lemma_increasing_to_zero(x: nat)
    requires
        is_increasing(x),
        x % 10 == 0,
    ensures
        x == 0,
    decreases x,
{
    if x >= 10 {
        lemma_increasing_to_zero(x / 10);
    }
}

/// The increasing numbers below ten to the power `e` that end in a digit up
/// to `j` are as many as the table of the polytopic numbers says.
pub proof fn lemma_increasing_count(e: nat, j: nat)
    requires
        e >= 1,
        j <= 9,
    ensures
        increasing_below(e, j).finite(),
        increasing_below(e, j).len() == poly((e - 1) as nat, j),
    decreases e + j,
{
    let all = increasing_below(e, j);
    lemma_power_grows(10, 0, e);
    lemma_power_grows(10, 1, e);
    assert(power(10, 1) == 10) by {
        reveal_with_fuel(power, 2);
    }
    if j == 0 {
        assert forall|x: nat| all.contains(x) implies x == 0 by {
            lemma_increasing_to_zero(x);
        }
        assert(all =~= Set::<nat>::empty().insert(0));
    } else {
        let j1 = (j - 1) as nat;
        lemma_increasing_count(e, j1);
        let before = increasing_below(e, j1);
        if e == 1 {
            assert(all =~= before.insert(j));
        } else {
            let e1 = (e - 1) as nat;
            lemma_increasing_count(e1, j);
            let shorter = increasing_below(e1, j);
            let new = shorter.map(with_digit(j));
            lemma_with_digit(shorter, j);
            assert(power(10, e) == power(10, e1) * 10);
            assert forall|x: nat| new.contains(x) implies all.contains(x) && !before.contains(
                x,
            ) by {
                let y = choose|y: nat| shorter.contains(y) && x == with_digit(j)(y);
                assert(x == 10 * y + j);
                assert(x / 10 == y && x % 10 == j);
            }
            assert forall|x: nat| all.contains(x) implies before.contains(x) || new.contains(
                x,
            ) by {
                if x % 10 == j {
                    let y = x / 10;
                    assert(x == 10 * y + j);
                    assert(shorter.contains(y));
                    assert(x == with_digit(j)(y));
                }
            }
            assert(all =~= before + new);
            assert(before.disjoint(new));
            lemma_set_disjoint_lens(before, new);
        }
    }
}

/// The decreasing numbers from one to below ten to the power `e` whose last
/// digit is not below `j`.
pub open spec fn decreasing_below(e: nat, j: nat) -> Set<nat> {
    Set::new(|x: nat| 1 <= x < power(10, e) && is_decreasing(x) && x % 10 >= j)
}

/// How many decreasing numbers of up to `e` digits end in a digit from `j`
/// on: those that end in a higher digit, the digit itself unless it is
/// zero, and the shorter ones with the digit written behind them.
pub open spec fn falling(e: nat, j: nat) -> nat
    decreases e + e + (10 - j),
{
    if e == 0 || j >= 10 {
        0
    } else {
        falling(e, j + 1) + (if j >= 1 {
            1nat
        } else {
            0nat
        }) + falling((e - 1) as nat, j)
    }
}

/// The digit `j` alone, unless it is zero.
pub open spec fn digit_alone(j: nat) -> Set<nat> {
    if j >= 1 {
        Set::<nat>::empty().insert(j)
    } else {
        Set::<nat>::empty()
    }
}

/// The decreasing numbers are as many as counted.
pub proof fn lemma_decreasing_count(e: nat, j: nat)
    requires
        j <= 10,
    ensures
        decreasing_below(e, j).finite(),
        decreasing_below(e, j).len() == falling(e, j),
    decreases e + e + (10 - j),
{
    let all = decreasing_below(e, j);
    lemma_power_grows(10, 0, e);
    if e == 0 || j >= 10 {
        assert(all =~= Set::<nat>::empty());
    } else {
        lemma_power_grows(10, 1, e);
        assert(power(10, 1) == 10) by {
            reveal_with_fuel(power, 2);
        }
        let e1 = (e - 1) as nat;
        lemma_decreasing_count(e, j + 1);
        lemma_decreasing_count(e1, j);
        let after = decreasing_below(e, j + 1);
        let alone = digit_alone(j);
        let shorter = decreasing_below(e1, j);
        let new = shorter.map(with_digit(j));
        lemma_with_digit(shorter, j);
        assert(power(10, e) == power(10, e1) * 10);
        assert forall|x: nat| new.contains(x) implies all.contains(x) && !after.contains(x)
            && !alone.contains(x) by {
            let y = choose|y: nat| shorter.contains(y) && x == with_digit(j)(y);
            assert(x == 10 * y + j);
            assert(x / 10 == y && x % 10 == j);
        }
        assert forall|x: nat| all.contains(x) implies after.contains(x) || alone.contains(x)
            || new.contains(x) by {
            if x % 10 == j && x >= 10 {
                let y = x / 10;
                assert(x == 10 * y + j);
                assert(shorter.contains(y));
                assert(x == with_digit(j)(y));
            }
        }
        assert(all =~= after + alone + new);
        assert(after.disjoint(alone));
        lemma_set_disjoint_lens(after, alone);
        assert((after + alone).disjoint(new));
        lemma_set_disjoint_lens(after + alone, new);
    }
}

/// The numbers from one to below ten to the power `e` that are increasing
/// and decreasing and end in the digit `j`.
pub open spec fn level_ending(e: nat, j: nat) -> Set<nat> {
    Set::new(
        |x: nat| 1 <= x < power(10, e) && is_increasing(x) && is_decreasing(x) && x % 10 == j,
    )
}

/// For every length up to `e` one number repeats the digit `j`, unless the
/// digit is zero.
pub proof fn lemma_level_ending(e: nat, j: nat)
    requires
        1 <= j <= 9,
    ensures
        level_ending(e, j).finite(),
        level_ending(e, j).len() == e,
    decreases e,
{
    let all = level_ending(e, j);
    lemma_power_grows(10, 0, e);
    if e == 0 {
        assert(all =~= Set::<nat>::empty());
    } else {
        lemma_power_grows(10, 1, e);
        assert(power(10, 1) == 10) by {
            reveal_with_fuel(power, 2);
        }
        let e1 = (e - 1) as nat;
        lemma_level_ending(e1, j);
        let alone = digit_alone(j);
        let shorter = level_ending(e1, j);
        let new = shorter.map(with_digit(j));
        lemma_with_digit(shorter, j);
        assert(power(10, e) == power(10, e1) * 10);
        assert forall|x: nat| new.contains(x) implies all.contains(x) && !alone.contains(x) by {
            let y = choose|y: nat| shorter.contains(y) && x == with_digit(j)(y);
            assert(x == 10 * y + j);
            assert(x / 10 == y && x % 10 == j);
        }
        assert forall|x: nat| all.contains(x) implies alone.contains(x) || new.contains(x) by {
            if x >= 10 {
                let y = x / 10;
                assert(x == 10 * y + j);
                assert(shorter.contains(y));
                assert(x == with_digit(j)(y));
            }
        }
        assert(all =~= alone + new);
        assert(alone.disjoint(new));
        lemma_set_disjoint_lens(alone, new);
    }
}

/// The numbers from one to below ten to the power `e` that are increasing
/// and decreasing and end in a digit up to `j`.
pub open spec fn level_below(e: nat, j: nat) -> Set<nat> {
    Set::new(
        |x: nat| 1 <= x < power(10, e) && is_increasing(x) && is_decreasing(x) && x % 10 <= j,
    )
}

/// The numbers that are increasing and decreasing are those that repeat
/// one digit: `e` for every digit but zero.
pub proof fn lemma_level_count(e: nat, j: nat)
    requires
        j <= 9,
    ensures
        level_below(e, j).finite(),
        level_below(e, j).len() == j * e,
    decreases j,
{
    let all = level_below(e, j);
    if j == 0 {
        assert forall|x: nat| !all.contains(x) by {
            if all.contains(x) {
                lemma_increasing_to_zero(x);
            }
        }
        assert(all =~= Set::<nat>::empty());
        assert(j * e == 0) by (nonlinear_arith)
            requires
                j == 0,
        ;
    } else {
        let j1 = (j - 1) as nat;
        lemma_level_count(e, j1);
        lemma_level_ending(e, j);
        let before = level_below(e, j1);
        let last = level_ending(e, j);
        assert(all =~= before + last);
        assert(before.disjoint(last));
        lemma_set_disjoint_lens(before, last);
        assert(j1 * e + e == j * e) by (nonlinear_arith)
            requires
                j1 + 1 == j,
        ;
    }
}

/// The decreasing numbers in closed form: with the empty number, and for
/// the last digit zero with the numbers of zeros alone, they are the ways
/// to pick.
pub proof fn lemma_falling_closed(e: nat, j: nat)
    requires
        j <= 10,
    ensures
        falling(e, j) + 1 + (if j == 0 {
            e
        } else {
            0
        }) == binomial((e + 10 - j) as nat, (10 - j) as nat),
    decreases e + e + (10 - j),
{
    if e == 0 {
        lemma_binomial_full((10 - j) as nat);
    } else if j >= 10 {
    } else {
        lemma_falling_closed(e, j + 1);
        lemma_falling_closed((e - 1) as nat, j);
        let n = (e + 10 - j) as nat;
        let k = (10 - j) as nat;
        assert(binomial(n, k) == binomial((n - 1) as nat, (k - 1) as nat) + binomial(
            (n - 1) as nat,
            k,
        ));
    }
}

/// The numbers of the table, the other way round.
pub proof fn lemma_poly_is_binomial_too(i: nat, j: nat)
    ensures
        poly(i, j) == binomial(i + j + 1, j),
    decreases i + j,
{
    if j == 0 {
    } else if i == 0 {
        lemma_binomial_all_but_one(j);
    } else {
        lemma_poly_is_binomial_too(i, (j - 1) as nat);
        lemma_poly_is_binomial_too((i - 1) as nat, j);
    }
}

/// The numbers from one to below ten to the power `e` that are not bouncy:
/// increasing or decreasing.
pub open spec fn non_bouncy_below(e: nat) -> Set<nat> {
    Set::new(|x: nat| 1 <= x < power(10, e) && (is_increasing(x) || is_decreasing(x)))
}

/// The count is the number of the numbers below ten to the power `e` that
/// are not bouncy.
pub proof fn lemma_non_bouncy_meaning(e: nat)
    requires
        e >= 1,
    ensures
        non_bouncy_below(e).finite(),
        non_bouncy_below(e).len() == non_bouncy_number(e),
{
    let with_zero = increasing_below(e, 9);
    let rising = with_zero.remove(0);
    let sinking = decreasing_below(e, 0);
    let level = level_below(e, 9);
    lemma_power_grows(10, 0, e);
    lemma_increasing_count(e, 9);
    lemma_decreasing_count(e, 0);
    lemma_level_count(e, 9);
    assert(with_zero.contains(0));
    assert(non_bouncy_below(e) =~= rising + sinking);
    assert(rising.intersect(sinking) =~= level);
    lemma_set_intersect_union_lens(rising, sinking);
    lemma_poly_is_binomial_too((e - 1) as nat, 9);
    lemma_falling_closed(e, 0);
    lemma_non_bouncy_closed(e);
}

} // verus!
