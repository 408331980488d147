//! Diophantine reciprocals.
//!
//! In 1/x + 1/y = 1/n with positive integers x ≤ y, x runs from n + 1 to 2n,
//! and x = n + i is a solution exactly when i divides n². So n has as many
//! solutions as n² has divisors from 1 to n. Wanted: the least n with more
//! than one thousand solutions.

use vstd::prelude::*;
use crate::divisors::divisors_upto;

verus! {

/// The number of solutions of 1/x + 1/y = 1/n with x ≤ y.
pub open spec fn solutions(n: nat) -> nat {
    divisors_upto(n * n, n)
}

/// `x` and `y` solve 1/x + 1/y = 1/n: multiplied out, n(x + y) = xy.
pub open spec fn solves(n: nat, x: nat, y: nat) -> bool {
    x >= 1 && y >= 1 && n * (x + y) == x * y
}

/// What the count of divisors counts: for `i` from 1 to `n`, the number
/// `n` + `i` is the smaller member of a solution exactly when `i` divides
/// the square of `n`; and no solution has a smaller member outside that
/// range.
pub proof fn lemma_solutions_meaning(n: nat, i: nat)
    requires
        n >= 1,
        1 <= i <= n,
    ensures
        (n * n) % i == 0 <==> exists|y: nat| y >= n + i && #[trigger] solves(n, n + i, y),
{
    let x = n + i;
    if (n * n) % i == 0 {
        vstd::arithmetic::div_mod::lemma_fundamental_div_mod((n * n) as int, i as int);
        let q = (n * n) / i;
        let y = n + q;
        assert(q >= n) by (nonlinear_arith)
            requires
                n * n == i * q,
                1 <= i <= n,
                q >= 0,
        ;
        assert(n * (x + y) == x * y) by (nonlinear_arith)
            requires
                x == n + i,
                y == n + q,
                n * n == i * q,
        ;
        assert(y >= n + i && solves(n, n + i, y));
    }
    if exists|y: nat| y >= n + i && #[trigger] solves(n, n + i, y) {
        let y = choose|y: nat| y >= n + i && #[trigger] solves(n, n + i, y);
        assert(y >= n) by (nonlinear_arith)
            requires
                y >= n + i,
        ;
        let k = (y - n) as nat;
        assert(n * n == k * i + 0) by (nonlinear_arith)
            requires
                n * (x + y) == x * y,
                x == n + i,
                k == y - n,
        ;
        vstd::arithmetic::div_mod::lemma_fundamental_div_mod_converse(
            (n * n) as int,
            i as int,
            k as int,
            0,
        );
    }
}

/// In every solution with x ≤ y, x lies above `n` and not above twice `n`.
pub proof fn lemma_solutions_range(n: nat, x: nat, y: nat)
    requires
        n >= 1,
        x <= y,
        solves(n, x, y),
    ensures
        n < x <= 2 * n,
{
    assert(x > n) by (nonlinear_arith)
        requires
            n * (x + y) == x * y,
            x >= 1,
            y >= 1,
            n >= 1,
    ;
    assert(x <= 2 * n) by (nonlinear_arith)
        requires
            n * (x + y) == x * y,
            x <= y,
            x >= 1,
            n >= 1,
    ;
}

/// There are no more divisors up to a bound than numbers up to it.
pub proof fn lemma_divisors_upto(m: nat, upto: nat)
    ensures
        divisors_upto(m, upto) <= upto,
    decreases upto,
{
    if upto > 0 {
        lemma_divisors_upto(m, (upto - 1) as nat);
    }
}

/// The number of solutions for `n`.
pub fn diophantine_solutions(n: u64) -> (count: u64)
    requires
        n * n <= u64::MAX,
    ensures
        count == solutions(n as nat),
{
    let n2 = n * n;
    let mut count: u64 = 0;
    let mut i: u64 = 0;
    while i < n
        invariant
            i <= n,
            n2 == n * n,
            count == divisors_upto(n2 as nat, i as nat),
            count <= i,
        decreases n - i,
    {
        i += 1;
        if n2 % i == 0 {
            count += 1;
        }
    }
    count
}

/// The greatest number whose square fits.
pub const ROOT_LIMIT: u64 = 4294967295;

/// `found` is the first of `start`, `start` + 10, `start` + 20, … up to
/// `ROOT_LIMIT` with more than `goal` solutions, or zero if none has.
pub open spec fn is_first_above(start: nat, goal: nat, found: nat) -> bool {
    if exists|k: nat| start + 10 * k <= ROOT_LIMIT && #[trigger] solutions(start + 10 * k) > goal {
        exists|k: nat|
            found == start + 10 * k && found <= ROOT_LIMIT && #[trigger] solutions(start + 10 * k)
                > goal && forall|j: nat| j < k ==> #[trigger] solutions(start + 10 * j) <= goal
    } else {
        found == 0
    }
}

/// Searches from `start` on in steps of ten for a number with more than
/// `goal` solutions.
pub fn option1(start: u64, goal: u64) -> (found: u64)
    ensures
        is_first_above(start as nat, goal as nat, found as nat),
{
    let mut i = start;
    let ghost mut k: nat = 0;
    while i <= ROOT_LIMIT
        invariant
            i == start + 10 * k,
            forall|j: nat| j < k ==> #[trigger] solutions(start as nat + 10 * j) <= goal,
        decreases ROOT_LIMIT + 10 - i,
    {
        assert(i * i <= u64::MAX) by (nonlinear_arith)
            requires
                0 <= i <= 4294967295,
        ;
        let count = diophantine_solutions(i);
        if count > goal {
            proof {
                assert(solutions(start as nat + 10 * k) > goal);
            }
            return i;
        }
        proof {
            k = k + 1;
        }
        i += 10;
    }
    proof {
        assert forall|j: nat| start + 10 * j <= ROOT_LIMIT implies #[trigger] solutions(
            start as nat + 10 * j,
        ) <= goal by {
            if j >= k {
                assert(start + 10 * j >= start + 10 * k) by (nonlinear_arith)
                    requires
                        j >= k,
                ;
            }
        }
    }
    0
}

/// The count of solutions at every number of the search at which the count
/// is a new high: the numbers `n1`, `n1` + 10, … up to `n2` are searched in
/// turn, and the search ends with the first count above one thousand.
pub open spec fn highs(n1: nat, steps: nat) -> Seq<(u64, u64)>
    decreases steps,
{
    if steps == 0 {
        Seq::empty()
    } else {
        let before = highs(n1, (steps - 1) as nat);
        let i = n1 + 10 * (steps - 1);
        if ended(before) || solutions(i as nat) <= best(before) {
            before
        } else {
            before.push((i as u64, solutions(i as nat) as u64))
        }
    }
}

/// The highest count listed, zero where none is.
pub open spec fn best(list: Seq<(u64, u64)>) -> nat {
    if list.len() == 0 {
        0
    } else {
        list.last().1 as nat
    }
}

/// The search has ended: the last count listed is above one thousand.
pub open spec fn ended(list: Seq<(u64, u64)>) -> bool {
    best(list) > 1000
}

/// How many of the numbers `n1`, `n1` + 10, … are not above `n2`.
pub open spec fn steps_between(n1: nat, n2: nat) -> nat {
    if n2 < n1 {
        0
    } else {
        ((n2 - n1) / 10 + 1) as nat
    }
}

/// The numbers from `n1` to `n2` in steps of ten at which the count of
/// solutions reaches a new high, each with its count, up to the first count
/// above one thousand.
pub fn record_highs(n1: u64, n2: u64) -> (list: Vec<(u64, u64)>)
    requires
        n2 <= ROOT_LIMIT,
    ensures
        list@ == highs(n1 as nat, steps_between(n1 as nat, n2 as nat)),
{
    let mut list: Vec<(u64, u64)> = Vec::new();
    let mut max: u64 = 0;
    if n2 < n1 {
        return list;
    }
    let mut i = n1;
    let ghost mut k: nat = 0;
    loop
        invariant_except_break
            n1 <= i <= n2 <= ROOT_LIMIT,
            i == n1 + 10 * k,
            k < steps_between(n1 as nat, n2 as nat),
            list@ == highs(n1 as nat, k),
            max == best(list@),
            !ended(list@),
        ensures
            list@ == highs(n1 as nat, steps_between(n1 as nat, n2 as nat)),
        decreases n2 - i,
    {
        assert(i * i <= u64::MAX) by (nonlinear_arith)
            requires
                0 <= i <= 4294967295,
        ;
        let solution = diophantine_solutions(i);
        if solution > max {
            max = solution;
            list.push((i, solution));
        }
        proof {
            k = k + 1;
        }
        if max > 1000 {
            proof {
                lemma_highs_end(n1 as nat, k, steps_between(n1 as nat, n2 as nat));
            }
            break ;
        }
        if n2 - i < 10 {
            proof {
                assert(k == steps_between(n1 as nat, n2 as nat)) by {
                    let d = (n2 - n1) as int;
                    assert(d == 10 * (k - 1) + (n2 - i));
                    vstd::arithmetic::div_mod::lemma_fundamental_div_mod_converse(
                        d,
                        10,
                        k - 1,
                        (n2 - i) as int,
                    );
                }
            }
            break ;
        }
        proof {
            let d = (n2 - n1) as int;
            assert(d == 10 * k + (n2 - i - 10));
            vstd::arithmetic::div_mod::lemma_fundamental_div_mod(d, 10);
            assert(d / 10 >= k) by {
                if d / 10 < k {
                    assert(10 * (d / 10) <= 10 * (k - 1));
                }
            }
        }
        i += 10;
    }
    list
}

/// Once the search has ended, further numbers add nothing.
pub proof fn lemma_highs_end(n1: nat, k: nat, steps: nat)
    requires
        k <= steps,
        ended(highs(n1, k)),
    ensures
        highs(n1, steps) == highs(n1, k),
    decreases steps,
{
    if k < steps {
        lemma_highs_end(n1, k, (steps - 1) as nat);
    }
}

/// The least n, among 180000, 180010, …, with more than one thousand
/// solutions.
pub fn answer() -> (found: u64)
    ensures
        is_first_above(180000, 1000, found as nat),
{
    option1(180000, 1000)
}

} // verus!
