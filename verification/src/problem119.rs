//! Digit power sum.
//!
//! 512 is the cube of the sum of its digits, 8, and 614656 is the fourth
//! power of the sum of its digits, 28. Wanted: the thirtieth number of at
//! least two digits that is a power of the sum of its digits.

use vstd::prelude::*;
use crate::math::power;

verus! {

/// The sum of the digits of `x`.
pub open spec fn digit_sum(x: nat) -> nat
    decreases x,
{
    if x <= 9 {
        x
    } else {
        x % 10 + digit_sum(x / 10)
    }
}

/// The sum of the digits of a number is not above the number.
pub proof fn lemma_digit_sum_below(x: nat)
    ensures
        digit_sum(x) <= x,
    decreases x,
{
    if x > 9 {
        lemma_digit_sum_below(x / 10);
    }
}

/// The sum of the digits of `x`.
pub fn sum_of_digits(x: u64) -> (sum: u64)
    ensures
        sum == digit_sum(x as nat),
{
    let mut operand = x;
    let mut solution: u64 = 0;
    proof {
        lemma_digit_sum_below(x as nat);
    }
    while operand > 9
        invariant
            solution + digit_sum(operand as nat) == digit_sum(x as nat),
            digit_sum(x as nat) <= x,
        decreases operand,
    {
        solution += operand % 10;
        operand /= 10;
    }
    solution += operand;
    solution
}

/// The bases that are searched: 7 to 69.
pub const FIRST_BASE: u64 = 7;

/// How many exponents are tried for each base: 2 to 9.
pub const EXPONENTS: u64 = 8;

/// How many powers are searched in all.
pub const SEARCHED: u64 = 504;

/// The base of the `k`-th power searched.
pub open spec fn base_at(k: nat) -> nat {
    FIRST_BASE as nat + k / EXPONENTS as nat
}

/// The `k`-th power searched: bases ascending, and for each base the
/// exponents ascending.
pub open spec fn power_at(k: nat) -> nat {
    power(base_at(k), 2 + k % EXPONENTS as nat)
}

/// The powers among the first `upto` searched whose digits add up to their
/// base, in the order of the search.
pub open spec fn digit_powers(upto: nat) -> Seq<u64>
    decreases upto,
{
    if upto == 0 {
        Seq::empty()
    } else {
        let rest = digit_powers((upto - 1) as nat);
        if digit_sum(power_at((upto - 1) as nat)) == base_at((upto - 1) as nat) {
            rest.push(power_at((upto - 1) as nat) as u64)
        } else {
            rest
        }
    }
}

/// `sorted` holds what `list` holds, in ascending order.
pub open spec fn is_sorted_form(list: Seq<u64>, sorted: Seq<u64>) -> bool {
    &&& sorted.to_multiset() == list.to_multiset()
    &&& forall|i: int, j: int| 0 <= i <= j < sorted.len() ==> sorted[i] <= sorted[j]
}

/// `x` is the `n`-th smallest member of `list`, counting from one.
pub open spec fn is_nth_smallest(list: Seq<u64>, n: nat, x: u64) -> bool {
    exists|sorted: Seq<u64>| #[trigger]
        is_sorted_form(list, sorted) && 1 <= n <= sorted.len() && sorted[n - 1] == x
}

/// Powers grow with their base.
pub proof fn lemma_power_of_smaller(a: nat, b: nat, e: nat)
    requires
        a <= b,
    ensures
        power(a, e) <= power(b, e),
    decreases e,
{
    if e > 0 {
        lemma_power_of_smaller(a, b, (e - 1) as nat);
        let x = power(a, (e - 1) as nat);
        let y = power(b, (e - 1) as nat);
        assert(x * a <= y * b) by (nonlinear_arith)
            requires
                0 <= x <= y,
                0 <= a <= b,
        ;
    }
}

/// The ninth power of seventy, and with it every power searched, fits in
/// 64 bits.
pub proof fn lemma_powers_fit(i: nat, e: nat)
    requires
        i <= 70,
        e <= 9,
    ensures
        power(i, e) <= 40353607000000000,
    decreases 9 - e,
{
    if e == 9 {
        lemma_power_of_smaller(i, 70, 9);
        reveal_with_fuel(power, 10);
        assert(power(70, 9) == 40353607000000000);
    } else {
        lemma_powers_fit(i, e + 1);
        crate::math::lemma_power_grows(if i == 0 {
            1
        } else {
            i
        }, e, e + 1);
        if i == 0 {
            if e == 0 {
            } else {
                assert(power(0, e) == 0);
            }
        }
    }
}

/// Sorts the vector in ascending order with `sort` of the standard library:
/// afterwards it holds what it held, each member as often as before, and no
/// member stands before a smaller one.
#[verifier::external_body]
fn sort_ascending(v: &mut Vec<u64>)
    ensures
        is_sorted_form(old(v)@, final(v)@),
{
    v.sort();
}

/// The `n`-th number, in ascending order, among the powers with exponents 2
/// to 9 of the bases 7 to 69 whose digits add up to their base. Zero for
/// `n` = 0, for `n` above 30, and where fewer than `n` such powers exist.
pub fn option1(n: usize) -> (found: u64)
    ensures
        if 1 <= n <= 30 && n <= digit_powers(SEARCHED as nat).len() {
            is_nth_smallest(digit_powers(SEARCHED as nat), n as nat, found)
        } else {
            found == 0
        },
{
    if n > 30 || n == 0 {
        return 0;
    }
    let mut v: Vec<u64> = Vec::new();
    let mut i: u64 = 7;
    while i < 70
        invariant
            7 <= i <= 70,
            v@ == digit_powers(((i - 7) * 8) as nat),
        decreases 70 - i,
    {
        let mut p: u64 = i;
        let mut j: u64 = 2;
        proof {
            reveal_with_fuel(power, 2);
            assert(power(i as nat, 1) == i);
        }
        while j < 10
            invariant
                2 <= j <= 10,
                7 <= i < 70,
                p == power(i as nat, (j - 1) as nat),
                v@ == digit_powers(((i - 7) * 8 + (j - 2)) as nat),
            decreases 10 - j,
        {
            proof {
                lemma_powers_fit(i as nat, j as nat);
                let k = ((i - 7) * 8 + (j - 2)) as nat;
                assert(k / 8 == i - 7 && k % 8 == j - 2) by {
                    vstd::arithmetic::div_mod::lemma_fundamental_div_mod_converse(
                        k as int,
                        8,
                        i - 7,
                        j - 2,
                    );
                }
                assert(base_at(k) == i);
                assert(power_at(k) == power(i as nat, j as nat));
            }
            p = p * i;
            if sum_of_digits(p) == i {
                v.push(p);
            }
            j += 1;
        }
        i += 1;
    }
    sort_ascending(&mut v);
    if n > v.len() {
        proof {
            let list = digit_powers(SEARCHED as nat);
            list.to_multiset_ensures();
            v@.to_multiset_ensures();
        }
        return 0;
    }
    proof {
        let list = digit_powers(SEARCHED as nat);
        list.to_multiset_ensures();
        v@.to_multiset_ensures();
        assert(is_sorted_form(list, v@));
    }
    v[n - 1]
}

/// The thirtieth such number, or zero if the search finds fewer.
pub fn answer() -> (found: u64)
    ensures
        if 30 <= digit_powers(SEARCHED as nat).len() {
            is_nth_smallest(digit_powers(SEARCHED as nat), 30, found)
        } else {
            found == 0
        },
{
    option1(30)
}

} // verus!
