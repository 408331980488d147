//! Squarefree binomial coefficients.
//!
//! The first eight rows of Pascal's triangle hold twelve distinct numbers:
//! 1, 2, 3, 4, 5, 6, 7, 10, 15, 20, 21 and 35. All of them but 4 and 20 are
//! squarefree, that is, divisible by no square of a prime, and the sum of
//! the squarefree ones is 105. Wanted: the same sum for the first 51 rows.

pub mod bounds;

use vstd::prelude::*;
use std::collections::HashSet;
use crate::factors::{divides, lemma_divides_multiple, lemma_divides_quotient, lemma_prime_factor};
use crate::primes::{is_prime, is_prime_list, new_sieve, sieve_primes, upper_bound};
use crate::problem203::bounds::lemma_first_rows;

verus! {

/// The number at place `k` of row `r` of Pascal's triangle, both counted
/// from zero.
pub open spec fn pascal(r: nat, k: nat) -> nat
    decreases r,
{
    if k == 0 || k >= r {
        1
    } else {
        pascal((r - 1) as nat, (k - 1) as nat) + pascal((r - 1) as nat, k)
    }
}

/// The square of no member of `primes` divides `x`.
pub open spec fn is_free_of_squares(x: nat, primes: Seq<usize>) -> bool {
    forall|i: int| 0 <= i < primes.len() ==> #[trigger] (x % ((primes[i] * primes[i]) as nat)) != 0
}

/// No square but one divides `x`.
pub open spec fn is_squarefree(x: nat) -> bool {
    forall|d: nat| d >= 2 ==> #[trigger] (x % (d * d)) != 0
}

/// A number below the square of `to` + 1 is squarefree just when it is free
/// of the squares of the primes up to `to`: a square that divides it has a
/// prime in its root, and that prime is not above `to`.
pub proof fn lemma_free_of_squares(x: nat, primes: Seq<usize>, to: nat)
    requires
        x >= 1,
        to <= usize::MAX,
        x < (to + 1) * (to + 1),
        is_prime_list(primes, 2, to),
    ensures
        is_free_of_squares(x, primes) <==> is_squarefree(x),
{
    if is_squarefree(x) {
        assert forall|i: int| 0 <= i < primes.len() implies #[trigger] (x % ((primes[i]
            * primes[i]) as nat)) != 0 by {
            let p = primes[i] as nat;
            assert(p >= 2);
            assert(x % (p * p) != 0);
        }
    }
    if is_free_of_squares(x, primes) {
        assert forall|d: nat| d >= 2 implies #[trigger] (x % (d * d)) != 0 by {
            if x % (d * d) == 0 {
                lemma_prime_factor(d);
                let p = choose|p: nat| is_prime(p) && #[trigger] divides(p, d);
                lemma_divides_quotient(p, d);
                let k = d / p;
                assert(d * d >= 4) by (nonlinear_arith)
                    requires
                        d >= 2,
                ;
                lemma_divides_quotient(d * d, x);
                let q = x / (d * d);
                assert(x == (p * p) * (k * k * q)) by (nonlinear_arith)
                    requires
                        x == (d * d) * q,
                        d == p * k,
                ;
                assert(p * p >= 4) by (nonlinear_arith)
                    requires
                        p >= 2,
                ;
                lemma_divides_multiple(p * p, k * k * q);
                assert(d <= to) by (nonlinear_arith)
                    requires
                        x == (d * d) * q,
                        q >= 1,
                        x < (to + 1) * (to + 1),
                        d >= 0,
                        to >= 0,
                ;
                assert(primes.contains(p as usize));
                let i = choose|i: int| 0 <= i < primes.len() && primes[i] == p as usize;
                assert(x % ((primes[i] * primes[i]) as nat) != 0);
            }
        }
    }
}

/// `x` stands in row `r` at one of the inner places below `upto`.
pub open spec fn seen_in_row(r: nat, upto: nat, x: nat) -> bool {
    exists|i: nat| 1 <= i < upto && i < r && #[trigger] pascal(r, i) == x
}

/// `x` is 1 or stands at an inner place of one of the rows from 2 to below
/// `r`.
pub open spec fn seen_above(r: nat, x: nat) -> bool {
    x == 1 || exists|q: nat| 2 <= q < r && #[trigger] seen_in_row(q, q, x)
}

/// What the number at place `i` of row `r` adds to the sum: itself if it
/// stands nowhere before that place and is free of squares, else nothing.
pub open spec fn share(r: nat, i: nat, primes: Seq<usize>) -> nat {
    let x = pascal(r, i);
    if !seen_above(r, x) && !seen_in_row(r, i, x) && is_free_of_squares(x, primes) {
        x
    } else {
        0
    }
}

/// The shares of the inner places below `upto` of row `r`.
pub open spec fn row_sum(r: nat, upto: nat, primes: Seq<usize>) -> nat
    decreases upto,
{
    if upto <= 1 {
        0
    } else {
        row_sum(r, (upto - 1) as nat, primes) + share(r, (upto - 1) as nat, primes)
    }
}

/// The sum of the distinct numbers in the first `rows` rows of Pascal's
/// triangle that are free of the squares of `primes`.
pub open spec fn pascal_sum(rows: nat, primes: Seq<usize>) -> nat
    decreases rows,
{
    if rows <= 2 {
        1
    } else {
        pascal_sum((rows - 1) as nat, primes) + row_sum(
            (rows - 1) as nat,
            (rows - 1) as nat,
            primes,
        )
    }
}

/// What the number at place `i` of row `r` adds to the sum of the distinct
/// squarefree numbers: itself if it stands nowhere before that place and is
/// squarefree, else nothing.
pub open spec fn squarefree_share(r: nat, i: nat) -> nat {
    let x = pascal(r, i);
    if !seen_above(r, x) && !seen_in_row(r, i, x) && is_squarefree(x) {
        x
    } else {
        0
    }
}

/// The shares of the inner places below `upto` of row `r`.
pub open spec fn squarefree_row(r: nat, upto: nat) -> nat
    decreases upto,
{
    if upto <= 1 {
        0
    } else {
        squarefree_row(r, (upto - 1) as nat) + squarefree_share(r, (upto - 1) as nat)
    }
}

/// The sum of the distinct squarefree numbers in the first `rows` rows of
/// Pascal's triangle.
pub open spec fn squarefree_sum(rows: nat) -> nat
    decreases rows,
{
    if rows <= 2 {
        1
    } else {
        squarefree_sum((rows - 1) as nat) + squarefree_row((rows - 1) as nat, (rows - 1) as nat)
    }
}

/// In the first 51 rows, to be free of the squares of the primes up to
/// 11243248 or beyond is to be squarefree: the rows hold no number as large
/// as the square of the next number.
pub proof fn lemma_row_is_squarefree(r: nat, upto: nat, primes: Seq<usize>, to: nat)
    requires
        r <= 50,
        11243248 <= to <= usize::MAX,
        is_prime_list(primes, 2, to),
    ensures
        row_sum(r, upto, primes) == squarefree_row(r, upto),
    decreases upto,
{
    if upto > 1 {
        lemma_row_is_squarefree(r, (upto - 1) as nat, primes, to);
        let x = pascal(r, (upto - 1) as nat);
        lemma_first_rows(r, (upto - 1) as nat);
        assert(x < (to + 1) * (to + 1)) by (nonlinear_arith)
            requires
                x <= 126410606437752,
                to >= 11243248,
        ;
        lemma_free_of_squares(x, primes, to);
    }
}

/// Over the first 51 rows at most, the sum of the numbers free of the
/// squares of the primes up to 11243248 or beyond is the sum of the
/// squarefree numbers.
pub proof fn lemma_sum_is_squarefree(rows: nat, primes: Seq<usize>, to: nat)
    requires
        rows <= 51,
        11243248 <= to <= usize::MAX,
        is_prime_list(primes, 2, to),
    ensures
        pascal_sum(rows, primes) == squarefree_sum(rows),
    decreases rows,
{
    if rows > 2 {
        lemma_sum_is_squarefree((rows - 1) as nat, primes, to);
        lemma_row_is_squarefree((rows - 1) as nat, (rows - 1) as nat, primes, to);
    }
}

/// A ceiling for the numbers of the first 51 rows of the triangle: two to
/// the fiftieth.
pub const CEILING: u64 = 0x4_0000_0000_0000;

/// Two to the power `r`, for the rows of the triangle.
pub open spec fn doubled(r: nat) -> nat
    decreases r,
{
    if r == 0 {
        1
    } else {
        2 * doubled((r - 1) as nat)
    }
}

/// The numbers of row `r` are at least one and at most two to the `r`.
pub proof fn lemma_pascal_bound(r: nat, k: nat)
    ensures
        1 <= pascal(r, k) <= doubled(r),
    decreases r,
{
    if k == 0 || k >= r {
        lemma_doubled(0, r);
    } else {
        lemma_pascal_bound((r - 1) as nat, (k - 1) as nat);
        lemma_pascal_bound((r - 1) as nat, k);
    }
}

/// The powers of two grow, and the fiftieth is the ceiling.
pub proof fn lemma_doubled(a: nat, b: nat)
    requires
        a <= b,
    ensures
        1 <= doubled(a) <= doubled(b),
        b <= 50 ==> doubled(b) <= CEILING,
    decreases b,
{
    if a < b {
        lemma_doubled(a, (b - 1) as nat);
    } else if b > 0 {
        lemma_doubled((a - 1) as nat, (b - 1) as nat);
    }
    if b <= 50 {
        lemma_fifty(b);
    }
}

/// Up to the fiftieth, the powers of two stay below the ceiling.
proof fn lemma_fifty(b: nat)
    requires
        b <= 50,
    ensures
        doubled(b) <= CEILING,
    decreases 50 - b,
{
    if b == 50 {
        reveal_with_fuel(doubled, 51);
    } else {
        lemma_fifty(b + 1);
    }
}

/// The sums stay below the ceiling times the places that add to them.
pub proof fn lemma_sum_bound(rows: nat, r: nat, upto: nat, primes: Seq<usize>)
    requires
        rows <= 51,
        r <= 50,
        upto <= 51,
    ensures
        row_sum(r, upto, primes) <= upto * CEILING,
        pascal_sum(rows, primes) <= 1 + rows * (51 * CEILING),
    decreases rows, upto,
{
    if upto > 1 {
        lemma_sum_bound(0, r, (upto - 1) as nat, primes);
        lemma_pascal_bound(r, (upto - 1) as nat);
        lemma_doubled(r, 50);
    }
    if rows > 2 {
        lemma_sum_bound((rows - 1) as nat, (rows - 1) as nat, 0, primes);
        lemma_sum_bound(0, (rows - 1) as nat, (rows - 1) as nat, primes);
    }
}

/// Whether the square of no member of `primes` divides `x`, where `primes`
/// ascends.
pub fn free_of_squares(x: u64, primes: &Vec<usize>) -> (free: bool)
    requires
        x >= 1,
        forall|i: int| 0 <= i < primes.len() ==> #[trigger] primes[i] >= 2,
        forall|i: int, j: int| 0 <= i < j < primes.len() ==> primes[i] < primes[j],
    ensures
        free == is_free_of_squares(x as nat, primes@),
{
    let mut k: usize = 0;
    while k < primes.len()
        invariant
            k <= primes.len(),
            x >= 1,
            forall|i: int| 0 <= i < primes.len() ==> #[trigger] primes[i] >= 2,
            forall|i: int, j: int| 0 <= i < j < primes.len() ==> primes[i] < primes[j],
            forall|i: int|
                0 <= i < k ==> #[trigger] (x as nat % ((primes[i] * primes[i]) as nat)) != 0,
        decreases primes.len() - k,
    {
        let p = primes[k] as u128;
        assert(p * p <= 0xFFFF_FFFF_FFFF_FFFF * 0xFFFF_FFFF_FFFF_FFFF) by (nonlinear_arith)
            requires
                0 <= p <= 0xFFFF_FFFF_FFFF_FFFF,
        ;
        assert(p * p >= 4) by (nonlinear_arith)
            requires
                p >= 2,
        ;
        let square = p * p;
        if square > x as u128 {
            proof {
                assert forall|i: int| k <= i < primes.len() implies #[trigger] (x as nat % ((
                primes[i] * primes[i]) as nat)) != 0 by {
                    let q = primes[i];
                    assert(q * q >= p * p) by (nonlinear_arith)
                        requires
                            q >= p,
                            p >= 0,
                    ;
                    vstd::arithmetic::div_mod::lemma_small_mod(x as nat, (q * q) as nat);
                }
            }
            return true;
        }
        if (x as u128) % square == 0 {
            assert((x as nat % ((primes[k as int] * primes[k as int]) as nat)) == 0);
            return false;
        }
        k += 1;
    }
    true
}

/// The sum of the distinct numbers in the first `n` rows of Pascal's
/// triangle that are free of the squares of `primes`.
pub fn sum_free_of_squares(n: usize, primes: &Vec<usize>) -> (sum: u64)
    requires
        n <= 51,
        forall|i: int| 0 <= i < primes.len() ==> #[trigger] primes[i] >= 2,
        forall|i: int, j: int| 0 <= i < j < primes.len() ==> primes[i] < primes[j],
    ensures
        sum == pascal_sum(n as nat, primes@),
{
    if n <= 2 {
        return 1;
    }
    let mut used: HashSet<u64> = HashSet::new();
    let mut sum: u64 = 1;
    used.insert(1);
    let mut above: Vec<u64> = Vec::new();
    above.push(1);
    above.push(1);
    let mut r: usize = 2;
    proof {
        assert(used@ =~= Set::new(|x: u64| seen_above(2, x as nat)));
        reveal_with_fuel(pascal, 2);
    }
    while r < n
        invariant
            2 <= r <= n <= 51,
            forall|i: int| 0 <= i < primes.len() ==> #[trigger] primes[i] >= 2,
            forall|i: int, j: int| 0 <= i < j < primes.len() ==> primes[i] < primes[j],
            above.len() == r,
            forall|k: int| 0 <= k < r ==> #[trigger] above[k] == pascal((r - 1) as nat, k as nat),
            used@ == Set::new(|x: u64| seen_above(r as nat, x as nat)),
            sum == pascal_sum(r as nat, primes@),
        decreases n - r,
    {
        let mut row: Vec<u64> = Vec::new();
        row.push(1);
        let mut i: usize = 1;
        let ghost start = sum;
        proof {
            assert(used@ =~= Set::new(
                |x: u64| seen_above(r as nat, x as nat) || seen_in_row(r as nat, 1, x as nat),
            ));
        }
        while i < r
            invariant
                1 <= i <= r < n <= 51,
                forall|j: int| 0 <= j < primes.len() ==> #[trigger] primes[j] >= 2,
                forall|a: int, b: int| 0 <= a < b < primes.len() ==> primes[a] < primes[b],
                above.len() == r,
                forall|k: int|
                    0 <= k < r ==> #[trigger] above[k] == pascal((r - 1) as nat, k as nat),
                row.len() == i,
                forall|k: int| 0 <= k < i ==> #[trigger] row[k] == pascal(r as nat, k as nat),
                used@ == Set::new(
                    |x: u64| seen_above(r as nat, x as nat) || seen_in_row(r as nat, i as nat, x as nat),
                ),
                start == pascal_sum(r as nat, primes@),
                sum == start + row_sum(r as nat, i as nat, primes@),
            decreases r - i,
        {
            proof {
                lemma_pascal_bound(r as nat, i as nat);
                lemma_doubled(r as nat, 50);
                lemma_sum_bound(r as nat, r as nat, (i + 1) as nat, primes@);
                assert(above[i - 1] == pascal((r - 1) as nat, (i - 1) as nat));
                assert(above[i as int] == pascal((r - 1) as nat, i as nat));
                assert(r * (51 * CEILING) <= 50 * (51 * CEILING)) by (nonlinear_arith)
                    requires
                        r <= 50,
                ;
                assert((i + 1) * CEILING <= 51 * CEILING) by (nonlinear_arith)
                    requires
                        i + 1 <= 51,
                ;
            }
            let x = above[i - 1] + above[i];
            let ghost before = used@;
            let fresh = used.insert(x);
            proof {
                assert(fresh == (!seen_above(r as nat, x as nat) && !seen_in_row(
                    r as nat,
                    i as nat,
                    x as nat,
                )));
                assert(used@ =~= Set::new(
                    |y: u64|
                        seen_above(r as nat, y as nat) || seen_in_row(
                            r as nat,
                            (i + 1) as nat,
                            y as nat,
                        ),
                )) by {
                    assert forall|y: u64|
                        seen_in_row(r as nat, (i + 1) as nat, y as nat) implies seen_in_row(
                        r as nat,
                        i as nat,
                        y as nat,
                    ) || y == x by {
                        let k = choose|k: nat|
                            1 <= k < i + 1 && k < r && #[trigger] pascal(r as nat, k) == y as nat;
                        if k < i {
                            assert(pascal(r as nat, k) == y as nat);
                        }
                    }
                    assert(seen_in_row(r as nat, (i + 1) as nat, x as nat)) by {
                        assert(pascal(r as nat, i as nat) == x as nat);
                    }
                    assert forall|y: u64|
                        seen_in_row(r as nat, i as nat, y as nat) implies seen_in_row(
                        r as nat,
                        (i + 1) as nat,
                        y as nat,
                    ) by {
                        let k = choose|k: nat|
                            1 <= k < i && k < r && #[trigger] pascal(r as nat, k) == y as nat;
                        assert(pascal(r as nat, k) == y as nat);
                    }
                }
            }
            if fresh {
                if free_of_squares(x, primes) {
                    sum += x;
                }
            }
            row.push(x);
            i += 1;
        }
        row.push(1);
        proof {
            assert(used@ =~= Set::new(|x: u64| seen_above((r + 1) as nat, x as nat))) by {
                assert forall|x: u64|
                    seen_above((r + 1) as nat, x as nat) implies seen_above(r as nat, x as nat)
                    || seen_in_row(r as nat, r as nat, x as nat) by {
                    if x != 1 {
                        let q = choose|q: nat|
                            2 <= q < r + 1 && #[trigger] seen_in_row(q, q, x as nat);
                        if q < r {
                            assert(seen_in_row(q, q, x as nat));
                        }
                    }
                }
                assert forall|x: u64|
                    seen_above(r as nat, x as nat) || seen_in_row(
                        r as nat,
                        r as nat,
                        x as nat,
                    ) implies seen_above((r + 1) as nat, x as nat) by {
                    if x != 1 {
                        if seen_in_row(r as nat, r as nat, x as nat) {
                            assert(2 <= r < r + 1 && seen_in_row(r as nat, r as nat, x as nat));
                        } else {
                            let q = choose|q: nat|
                                2 <= q < r && #[trigger] seen_in_row(q, q, x as nat);
                            assert(2 <= q < r + 1 && seen_in_row(q, q, x as nat));
                        }
                    }
                }
            }
        }
        above = row;
        r += 1;
    }
    sum
}

/// The first `n` rows of Pascal's triangle.
pub fn pascal_rows(n: usize) -> (rows: Vec<Vec<u64>>)
    requires
        n <= 51,
    ensures
        rows.len() == n,
        forall|r: int| 0 <= r < n ==> (#[trigger] rows[r]).len() == r + 1,
        forall|r: int, k: int|
            0 <= r < n && 0 <= k <= r ==> #[trigger] rows[r][k] == pascal(r as nat, k as nat),
{
    let mut rows: Vec<Vec<u64>> = Vec::new();
    let mut r: usize = 0;
    while r < n
        invariant
            r <= n <= 51,
            rows.len() == r,
            forall|q: int| 0 <= q < r ==> (#[trigger] rows[q]).len() == q + 1,
            forall|q: int, k: int|
                0 <= q < r && 0 <= k <= q ==> #[trigger] rows[q][k] == pascal(q as nat, k as nat),
        decreases n - r,
    {
        let mut row: Vec<u64> = Vec::new();
        row.push(1);
        let mut i: usize = 1;
        while i < r
            invariant
                1 <= i <= r || r == 0,
                r < 51,
                rows.len() == r,
                forall|q: int| 0 <= q < r ==> (#[trigger] rows[q]).len() == q + 1,
                forall|q: int, k: int|
                    0 <= q < r && 0 <= k <= q ==> #[trigger] rows[q][k] == pascal(
                        q as nat,
                        k as nat,
                    ),
                r >= 1 ==> row.len() == i,
                r == 0 ==> row.len() == 1,
                forall|k: int| 0 <= k < row.len() ==> #[trigger] row[k] == pascal(r as nat, k as nat),
            decreases r - i,
        {
            proof {
                lemma_pascal_bound(r as nat, i as nat);
                lemma_doubled(r as nat, 50);
                assert(rows[r - 1][i - 1] == pascal((r - 1) as nat, (i - 1) as nat));
                assert(rows[r - 1][i as int] == pascal((r - 1) as nat, i as nat));
            }
            let x = rows[r - 1][i - 1] + rows[r - 1][i];
            row.push(x);
            i += 1;
        }
        if r > 0 {
            row.push(1);
        }
        let ghost filled = row@;
        let ghost above = rows@;
        rows.push(row);
        proof {
            assert(rows[r as int]@ == filled);
            assert(filled.len() == r + 1);
            assert forall|q: int| 0 <= q < r + 1 implies (#[trigger] rows[q]).len() == q + 1 by {
                if q < r {
                    assert(rows[q] == above[q]);
                }
            }
            assert forall|q: int, k: int| 0 <= q < r + 1 && 0 <= k <= q implies #[trigger] rows[q][k]
                == pascal(q as nat, k as nat) by {
                if q < r {
                    assert(rows[q] == above[q]);
                } else {
                    assert(rows[q]@[k] == filled[k]);
                }
            }
        }
        r += 1;
    }
    rows
}

/// The sum of the distinct squarefree numbers in the first `n` rows of
/// Pascal's triangle.
pub fn sum_square_free_pascal(n: usize) -> (sum: u64)
    requires
        n <= 51,
    ensures
        sum == squarefree_sum(n as nat),
{
    let sieve = new_sieve(11243248);
    let bound = upper_bound(&sieve);
    let primes = sieve_primes(&sieve);
    proof {
        lemma_sum_is_squarefree(n as nat, primes@, bound as nat);
    }
    sum_free_of_squares(n, &primes)
}

/// The sum of the distinct squarefree numbers in the first 51 rows of
/// Pascal's triangle.
pub fn answer() -> (sum: u64)
    ensures
        sum == squarefree_sum(51),
{
    sum_square_free_pascal(51)
}

} // verus!
