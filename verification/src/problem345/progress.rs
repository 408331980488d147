//! Why the solver comes to an end: every adjustment cycle lowers the sum of
//! all costs of the working grid by at least the side length.
//!
//! The least uncovered cost is taken off every cell under no line and added
//! to every cell under two. With fewer lines than the grid has rows, the
//! cells under no line outnumber those under two by the side length for
//! every line that is missing.

use vstd::prelude::*;
use crate::problem345::adjust::{adjusted, least_uncovered, lemma_adjusted_nonnegative};
use crate::problem345::augment::{lemma_matched, matched};
use crate::problem345::matrix::{is_nonnegative, is_square, Grid};
use crate::problem345::maximum::{
    lemma_cycle_moves, lemma_lines_hold_assigned, lemma_room, place_in,
};
use crate::problem345::optimal::{rows_of, total};
use crate::problem345::reduce::{lemma_reduced_is_reduced, reduced};
use crate::problem345::search::{column_taken, row_taken};
use crate::problem345::solver::{
    cycled, is_complete, lines_cols, lines_rows, settle_from, solve_from, solved,
};

verus! {

/// How many of the flags are set.
pub open spec fn count_set(flags: Seq<bool>) -> nat
    decreases flags.len(),
{
    if flags.len() == 0 {
        0
    } else {
        count_set(flags.drop_last()) + if flags.last() {
            1nat
        } else {
            0nat
        }
    }
}

/// The places at which the flags are set, ascending.
pub open spec fn set_places(flags: Seq<bool>) -> Seq<int>
    decreases flags.len(),
{
    if flags.len() == 0 {
        Seq::empty()
    } else if flags.last() {
        set_places(flags.drop_last()).push(flags.len() - 1)
    } else {
        set_places(flags.drop_last())
    }
}

/// The sum of the costs in the first `upto` rows of the grid.
pub open spec fn grid_sum(g: Grid, upto: int) -> int
    decreases upto,
{
    if upto <= 0 {
        0
    } else {
        grid_sum(g, upto - 1) + total(g[upto - 1])
    }
}

/// There are as many places as flags set, each a place of a set flag, and
/// no place is listed twice.
pub proof fn lemma_set_places(flags: Seq<bool>)
    ensures
        set_places(flags).len() == count_set(flags),
        count_set(flags) <= flags.len(),
        forall|i: int|
            0 <= i < set_places(flags).len() ==> 0 <= #[trigger] set_places(flags)[i] < flags.len()
                && flags[set_places(flags)[i]],
        forall|i: int, j: int|
            0 <= i < j < set_places(flags).len() ==> #[trigger] set_places(flags)[i]
                < #[trigger] set_places(flags)[j],
    decreases flags.len(),
{
    if flags.len() > 0 {
        let front = flags.drop_last();
        lemma_set_places(front);
        let before = set_places(front);
        let now = set_places(flags);
        assert forall|i: int| 0 <= i < now.len() implies 0 <= #[trigger] now[i] < flags.len()
            && flags[now[i]] by {
            if i < before.len() {
                assert(now[i] == before[i]);
                assert(front[before[i]] == flags[before[i]]);
            }
        }
        assert forall|i: int, j: int| 0 <= i < j < now.len() implies #[trigger] now[i]
            < #[trigger] now[j] by {
            assert(now[i] == before[i]);
            if j < before.len() {
                assert(now[j] == before[j]);
            }
        }
    }
}

/// The sum of a row grows by its last cost.
pub proof fn lemma_total_take(row: Seq<int>, k: int)
    requires
        0 <= k < row.len(),
    ensures
        total(row.take(k + 1)) == total(row.take(k)) + row[k],
{
    assert(row.take(k + 1).drop_last() =~= row.take(k));
    assert(row.take(k + 1).last() == row[k]);
}

/// The number of flags set among the first grows by one with a set flag.
pub proof fn lemma_count_take(flags: Seq<bool>, k: int)
    requires
        0 <= k < flags.len(),
    ensures
        count_set(flags.take(k + 1)) == count_set(flags.take(k)) + if flags[k] {
            1int
        } else {
            0int
        },
{
    assert(flags.take(k + 1).drop_last() =~= flags.take(k));
    assert(flags.take(k + 1).last() == flags[k]);
}

/// What an adjustment does to the sum of the first `k` costs of a row: it
/// adds the least uncovered cost once for every line through a column where
/// a line runs through the row, and takes it off once for every column
/// without a line where none runs through the row.
pub proof fn lemma_row_change(
    before: Seq<int>,
    after: Seq<int>,
    cols: Seq<bool>,
    lined: bool,
    least: int,
    k: int,
)
    requires
        before.len() == after.len(),
        before.len() == cols.len(),
        0 <= k <= before.len(),
        forall|c: int|
            0 <= c < before.len() ==> #[trigger] after[c] == if lined && cols[c] {
                before[c] + least
            } else if !lined && !cols[c] {
                before[c] - least
            } else {
                before[c]
            },
    ensures
        total(after.take(k)) == total(before.take(k)) + if lined {
            least * count_set(cols.take(k))
        } else {
            -(least * (k - count_set(cols.take(k))))
        },
    decreases k,
{
    if k > 0 {
        lemma_row_change(before, after, cols, lined, least, k - 1);
        lemma_total_take(before, k - 1);
        lemma_total_take(after, k - 1);
        lemma_count_take(cols, k - 1);
        let n = count_set(cols.take(k - 1)) as int;
        assert(least * (n + 1) == least * n + least) by (nonlinear_arith);
        assert(least * (k - (n + 1)) == least * (k - 1 - n)) by (nonlinear_arith);
        assert(least * (k - n) == least * (k - 1 - n) + least) by (nonlinear_arith);
    } else {
        assert(before.take(0) =~= Seq::<int>::empty());
        assert(after.take(0) =~= Seq::<int>::empty());
        assert(cols.take(0) =~= Seq::<bool>::empty());
        assert(least * 0 == 0) by (nonlinear_arith);
    }
}

/// What an adjustment does to the sum of the first `k` rows.
pub proof fn lemma_grid_change(g: Grid, rows: Seq<bool>, cols: Seq<bool>, k: int)
    requires
        is_square(g, g.len() as int),
        rows.len() == g.len(),
        cols.len() == g.len(),
        0 <= k <= g.len(),
    ensures
        grid_sum(adjusted(g, rows, cols), k) == grid_sum(g, k) + least_uncovered(g, rows, cols) * (
        count_set(rows.take(k)) * count_set(cols)) - least_uncovered(g, rows, cols) * ((k
            - count_set(rows.take(k))) * (g.len() - count_set(cols))),
    decreases k,
{
    let n = g.len() as int;
    let least = least_uncovered(g, rows, cols);
    let h = adjusted(g, rows, cols);
    let marked = count_set(cols) as int;
    if k > 0 {
        lemma_grid_change(g, rows, cols, k - 1);
        lemma_count_take(rows, k - 1);
        let r = k - 1;
        lemma_row_change(g[r], h[r], cols, rows[r], least, n);
        assert(g[r].take(n) =~= g[r]);
        assert(h[r].take(n) =~= h[r]);
        assert(cols.take(n) =~= cols);
        let done = count_set(rows.take(k - 1)) as int;
        if rows[r] {
            assert(least * ((done + 1) * marked) == least * (done * marked) + least * marked)
                by (nonlinear_arith);
        } else {
            assert(least * ((k - done) * (n - marked)) == least * ((k - 1 - done) * (n - marked))
                + least * (n - marked)) by (nonlinear_arith);
        }
    } else {
        assert(rows.take(0) =~= Seq::<bool>::empty());
        assert(least * (0 * marked) == 0) by (nonlinear_arith);
        assert(least * ((0 - 0) * (n - marked)) == 0) by (nonlinear_arith);
    }
}

/// On a grid without negative costs no sum is below zero.
pub proof fn lemma_grid_sum_sign(g: Grid, k: int)
    requires
        is_square(g, g.len() as int),
        is_nonnegative(g),
        0 <= k <= g.len(),
    ensures
        grid_sum(g, k) >= 0,
    decreases k,
{
    if k > 0 {
        lemma_grid_sum_sign(g, k - 1);
        let row = g[k - 1];
        assert forall|c: int| 0 <= c < row.len() implies #[trigger] row[c] >= 0 by {
            assert(g[k - 1][c] >= 0);
        }
        lemma_total_sign(row);
    }
}

/// A sum of costs none of which is below zero is not below zero.
pub proof fn lemma_total_sign(row: Seq<int>)
    requires
        forall|c: int| 0 <= c < row.len() ==> #[trigger] row[c] >= 0,
    ensures
        total(row) >= 0,
    decreases row.len(),
{
    if row.len() > 0 {
        let front = row.drop_last();
        assert forall|c: int| 0 <= c < front.len() implies #[trigger] front[c] >= 0 by {
            assert(row[c] >= 0);
        }
        lemma_total_sign(row.drop_last());
        assert(row[row.len() - 1] >= 0);
    }
}

/// Where the search is incomplete, fewer lines are drawn than the grid has
/// rows.
pub proof fn lemma_few_lines(g: Grid)
    requires
        g.len() <= usize::MAX,
        is_square(g, g.len() as int),
        !is_complete(g),
    ensures
        count_set(lines_rows(g)) + count_set(lines_cols(g)) < g.len(),
{
    let a = matched(g).assigned;
    lemma_matched(g);
    lemma_lines_within(g);
    assert forall|i: int, j: int| 0 <= i < j < a.len() implies #[trigger] rows_of(a)[i]
        != #[trigger] rows_of(a)[j] by {
        assert(a[i].0 != a[j].0);
    }
    lemma_room(rows_of(a), g.len() as int);
}

/// Where the search is incomplete, every line holds an assigned cell of
/// its own: the lines are not more than the independent zeros found.
pub proof fn lemma_lines_within(g: Grid)
    requires
        g.len() <= usize::MAX,
        is_square(g, g.len() as int),
        !is_complete(g),
    ensures
        count_set(lines_rows(g)) + count_set(lines_cols(g)) <= matched(g).assigned.len(),
{
    let n = g.len() as int;
    let t = matched(g);
    let a = t.assigned;
    let rows = lines_rows(g);
    let cols = lines_cols(g);
    lemma_matched(g);
    lemma_lines_hold_assigned(g);
    lemma_set_places(rows);
    lemma_set_places(cols);
    let by_row = set_places(rows);
    let by_col = set_places(cols);
    let held = Seq::new(
        by_row.len() + by_col.len(),
        |i: int|
            if i < by_row.len() {
                place_in(a, by_row[i])
            } else {
                choose|k: int|
                    0 <= k < a.len() && (#[trigger] a[k]).1 == by_col[i - by_row.len()]
            },
    );
    assert forall|i: int| 0 <= i < held.len() implies 0 <= #[trigger] held[i] < a.len() && (if i
        < by_row.len() {
        a[held[i]].0 == by_row[i] && rows[a[held[i]].0 as int]
    } else {
        a[held[i]].1 == by_col[i - by_row.len()] && cols[a[held[i]].1 as int]
    }) by {
        if i < by_row.len() {
            let r = by_row[i];
            assert(rows[r]);
            assert(row_taken(a, r));
        } else {
            let c = by_col[i - by_row.len()];
            assert(cols[c]);
            assert(column_taken(a, c));
        }
    }
    assert forall|i: int, j: int| 0 <= i < j < held.len() implies #[trigger] held[i]
        != #[trigger] held[j] by {
        if held[i] == held[j] {
            let m = held[i];
            if j < by_row.len() {
                assert(by_row[i] < by_row[j]);
            } else if i >= by_row.len() {
                assert(by_col[i - by_row.len()] < by_col[j - by_row.len()]);
            } else {
                assert(rows[a[m].0 as int] && cols[a[m].1 as int]);
            }
        }
    }
    lemma_room(held, a.len() as int);
}

/// Every adjustment cycle on an incomplete grid lowers the sum of all
/// costs by at least the side length.
pub proof fn lemma_cycle_lowers_sum(g: Grid)
    requires
        g.len() <= usize::MAX,
        is_square(g, g.len() as int),
        is_nonnegative(g),
        !is_complete(g),
    ensures
        grid_sum(cycled(g), g.len() as int) <= grid_sum(g, g.len() as int) - g.len(),
{
    let n = g.len() as int;
    let rows = lines_rows(g);
    let cols = lines_cols(g);
    let least = least_uncovered(g, rows, cols);
    lemma_cycle_moves(g);
    lemma_few_lines(g);
    lemma_grid_change(g, rows, cols, n);
    lemma_set_places(rows);
    lemma_set_places(cols);
    assert(rows.take(n) =~= rows);
    let cr = count_set(rows) as int;
    let cc = count_set(cols) as int;
    assert(cr * cc - (n - cr) * (n - cc) == n * (cr + cc - n)) by (nonlinear_arith);
    assert(least * (cr * cc) - least * ((n - cr) * (n - cc)) == least * (n * (cr + cc - n)))
        by (nonlinear_arith)
        requires
            cr * cc - (n - cr) * (n - cc) == n * (cr + cc - n),
    ;
    assert(least * (n * (cr + cc - n)) <= -n) by (nonlinear_arith)
        requires
            least >= 1,
            n >= 0,
            cr + cc - n <= -1,
    ;
}

/// With more cycles allowed than the sum of its costs holds side lengths,
/// the loop ends with an assignment.
pub proof fn lemma_enough_cycles(g: Grid, cycles: nat)
    requires
        g.len() <= usize::MAX,
        is_square(g, g.len() as int),
        is_nonnegative(g),
        cycles * g.len() > grid_sum(g, g.len() as int),
    ensures
        solve_from(g, cycles) is Ok,
    decreases cycles,
{
    let n = g.len() as int;
    lemma_grid_sum_sign(g, n);
    if !is_complete(g) {
        if cycles == 0 {
            assert(cycles * g.len() == 0) by (nonlinear_arith)
                requires
                    cycles == 0,
            ;
        } else {
            lemma_cycle_lowers_sum(g);
            lemma_adjusted_nonnegative(g, lines_rows(g), lines_cols(g), n);
            assert((cycles - 1) * n == cycles * n - n) by (nonlinear_arith);
            lemma_enough_cycles(cycled(g), (cycles - 1) as nat);
        }
    }
}

/// Solving returns an assignment for every grid whose costs, once reduced,
/// add up to less than the square of the side length.
pub proof fn lemma_success_is_owed(g: Grid)
    requires
        g.len() >= 1,
        g.len() <= usize::MAX,
        is_square(g, g.len() as int),
        grid_sum(reduced(g), g.len() as int) < g.len() * g.len(),
    ensures
        solved(g) is Ok,
{
    lemma_reduced_is_reduced(g, g.len() as int);
    lemma_enough_cycles(reduced(g), g.len());
}

/// Once the loop ends with an assignment, more cycles change nothing.
pub proof fn lemma_more_cycles(g: Grid, cycles: nat, more: nat)
    requires
        solve_from(g, cycles) is Ok,
        cycles <= more,
    ensures
        solve_from(g, more) == solve_from(g, cycles),
        settle_from(g, more) == settle_from(g, cycles),
    decreases cycles,
{
    if !is_complete(g) {
        lemma_more_cycles(cycled(g), (cycles - 1) as nat, (more - 1) as nat);
    }
}

/// How many cycles are enough for the grid, whatever it holds: one more
/// than the sum of its costs.
pub open spec fn enough(g: Grid) -> nat {
    (grid_sum(g, g.len() as int) + 1) as nat
}

/// With enough cycles the loop ends with an assignment, and what it
/// returns from a grid is what it returns from the grid after one cycle.
pub proof fn lemma_enough(g: Grid)
    requires
        g.len() >= 1,
        g.len() <= usize::MAX,
        is_square(g, g.len() as int),
        is_nonnegative(g),
    ensures
        solve_from(g, enough(g)) is Ok,
        !is_complete(g) ==> solve_from(g, enough(g)) == solve_from(cycled(g), enough(cycled(g)))
            && settle_from(g, enough(g)) == settle_from(cycled(g), enough(cycled(g)))
            && grid_sum(cycled(g), g.len() as int) < grid_sum(g, g.len() as int),
        is_complete(g) ==> settle_from(g, enough(g)) == g,
        grid_sum(g, g.len() as int) >= 0,
{
    let n = g.len() as int;
    lemma_grid_sum_sign(g, n);
    let sum = grid_sum(g, n);
    assert((sum + 1) * n > sum) by (nonlinear_arith)
        requires
            sum >= 0,
            n >= 1,
    ;
    lemma_enough_cycles(g, enough(g));
    if !is_complete(g) {
        let h = cycled(g);
        lemma_cycle_lowers_sum(g);
        lemma_adjusted_nonnegative(g, lines_rows(g), lines_cols(g), n);
        lemma_grid_sum_sign(h, n);
        let less = grid_sum(h, n);
        assert((less + 1) * n > less) by (nonlinear_arith)
            requires
                less >= 0,
                n >= 1,
        ;
        lemma_enough_cycles(h, enough(h));
        lemma_more_cycles(h, enough(h), (enough(g) - 1) as nat);
    }
}

} // verus!
