//! The solver: reduce once, then search and adjust in turn until the search
//! assigns every row.
//!
//! `assignment` and `max_assignment` give up after as many adjustments as
//! the grid has rows; `solve_within` takes the number of adjustments from
//! its caller; `solve_to_end` and `matrix_sum` go on for as long as it
//! takes, which is never for ever.

use vstd::prelude::*;
use crate::problem345::adjust::{
    adjusted, is_uncovered, least_uncovered, lemma_adjusted_nonnegative,
    lemma_least_uncovered_exists, update_cost,
};
use crate::problem345::augment::{improve, lemma_matched, matched};
use crate::problem345::marking::{
    column_reached, covered_cols, covered_rows, is_start, lemma_start_reached,
    lemma_step_reached, linked, mark, row_reached, Marking,
};
use crate::problem345::matrix::{
    column, grid_of, input_error, is_nonnegative, is_square, lemma_min_is, lemma_offset,
    CostMatrix, Grid, SolveError,
};
use crate::problem345::maximum::{lemma_failure_is_honest, lemma_incomplete_has_no_perfect};
use crate::problem345::optimal::{
    cost_of, is_cheapest, is_dearest, is_perfect, lemma_zeros_are_cheapest,
};
use crate::problem345::progress::{
    enough, grid_sum, lemma_enough, lemma_enough_cycles, lemma_grid_sum_sign,
    lemma_success_is_owed,
};
use crate::problem345::reduce::{lemma_reduced_is_reduced, reduce, reduced, rows_reduced};
use crate::problem345::search::{find_assignment, independent_zeros, row_taken};

verus! {

/// The rows through which the lines run once `g` has been searched.
pub open spec fn lines_rows(g: Grid) -> Seq<bool> {
    covered_rows(g, matched(g).assigned, matched(g).unassigned)
}

/// The columns through which the lines run once `g` has been searched.
pub open spec fn lines_cols(g: Grid) -> Seq<bool> {
    covered_cols(g, matched(g).assigned, matched(g).unassigned)
}

/// The grid after one cycle of marking and adjustment.
pub open spec fn cycled(g: Grid) -> Grid {
    adjusted(g, lines_rows(g), lines_cols(g))
}

/// The independent zeros found in `g` give one to every row.
pub open spec fn is_complete(g: Grid) -> bool {
    matched(g).assigned.len() == g.len()
}

/// What the loop returns from a reduced grid with `cycles` adjustments left.
pub open spec fn solve_from(g: Grid, cycles: nat) -> Result<Seq<(usize, usize)>, SolveError>
    decreases cycles,
{
    if is_complete(g) {
        Ok(matched(g).assigned)
    } else if cycles == 0 {
        Err(SolveError::NoAssignmentFound)
    } else {
        solve_from(cycled(g), (cycles - 1) as nat)
    }
}

/// The grid on which the loop stops, from a reduced grid with `cycles`
/// adjustments left.
pub open spec fn settle_from(g: Grid, cycles: nat) -> Grid
    decreases cycles,
{
    if is_complete(g) || cycles == 0 {
        g
    } else {
        settle_from(cycled(g), (cycles - 1) as nat)
    }
}

/// What solving the grid `g` for the least total returns.
pub open spec fn solved(g: Grid) -> Result<Seq<(usize, usize)>, SolveError> {
    solve_from(reduced(g), g.len())
}

/// The grid that solving `g` leaves behind.
pub open spec fn settled(g: Grid) -> Grid {
    settle_from(reduced(g), g.len())
}

/// `g` is `costs` with `u[r]` taken off row `r` and `v[c]` off column `c`.
pub open spec fn is_shifted(g: Grid, costs: Grid, u: Seq<int>, v: Seq<int>) -> bool {
    &&& u.len() == g.len()
    &&& v.len() == g.len()
    &&& forall|r: int, c: int|
        0 <= r < g.len() && 0 <= c < g.len() ==> #[trigger] g[r][c] == costs[r][c] - u[r] - v[c]
}

/// Every cost of the n×n grid `costs` lies between zero and `bound`.
pub open spec fn is_bounded(costs: Grid, n: int, bound: int) -> bool {
    forall|r: int, c: int| 0 <= r < n && 0 <= c < n ==> 0 <= #[trigger] costs[r][c] <= bound
}

/// The row shifts that a reduction applies.
pub open spec fn reduce_rows_shift(g: Grid) -> Seq<int> {
    Seq::new(g.len(), |r: int| g[r].min())
}

/// The column shifts that a reduction applies.
pub open spec fn reduce_cols_shift(g: Grid) -> Seq<int> {
    Seq::new(g.len(), |c: int| column(rows_reduced(g), c).min())
}

/// The row shifts after one more adjustment: the least uncovered cost is
/// taken off every row without a line.
pub open spec fn cycle_rows_shift(g: Grid, u: Seq<int>) -> Seq<int> {
    Seq::new(
        u.len(),
        |r: int|
            if lines_rows(g)[r] {
                u[r]
            } else {
                u[r] + least_uncovered(g, lines_rows(g), lines_cols(g))
            },
    )
}

/// The column shifts after one more adjustment: the least uncovered cost is
/// given back to every column under a line.
pub open spec fn cycle_cols_shift(g: Grid, v: Seq<int>) -> Seq<int> {
    Seq::new(
        v.len(),
        |c: int|
            if lines_cols(g)[c] {
                v[c] - least_uncovered(g, lines_rows(g), lines_cols(g))
            } else {
                v[c]
            },
    )
}

/// A reduction shifts rows and columns.
pub proof fn lemma_reduced_is_shifted(g: Grid, n: int)
    requires
        n >= 1,
        is_square(g, n),
    ensures
        is_shifted(reduced(g), g, reduce_rows_shift(g), reduce_cols_shift(g)),
{
    lemma_reduced_is_reduced(g, n);
}

/// An adjustment shifts rows and columns.
pub proof fn lemma_cycled_is_shifted(g: Grid, costs: Grid, u: Seq<int>, v: Seq<int>, n: int)
    requires
        is_square(g, n),
        is_shifted(g, costs, u, v),
    ensures
        is_shifted(cycled(g), costs, cycle_rows_shift(g, u), cycle_cols_shift(g, v)),
{
}

/// Where two lines cross, the cost and the least uncovered cost together
/// stay within twice the largest cost of the grid that was handed in.
pub proof fn lemma_crossing_fits(
    g: Grid,
    costs: Grid,
    u: Seq<int>,
    v: Seq<int>,
    n: int,
    bound: int,
    r: int,
    c: int,
)
    requires
        is_square(g, n),
        n <= usize::MAX,
        is_nonnegative(g),
        is_shifted(g, costs, u, v),
        is_bounded(costs, n, bound),
        0 <= r < n,
        0 <= c < n,
        lines_rows(g)[r],
        lines_cols(g)[c],
    ensures
        g[r][c] + least_uncovered(g, lines_rows(g), lines_cols(g)) <= 2 * bound,
{
    let s = matched(g);
    let rows = lines_rows(g);
    let cols = lines_cols(g);
    lemma_matched(g);
    assert(column_reached(g, s.assigned, s.unassigned, c));
    let a = choose|a: int|
        0 <= a < g.len() && #[trigger] row_reached(g, s.assigned, s.unassigned, a) && g[a][c] == 0;
    assert(!row_reached(g, s.assigned, s.unassigned, r));
    assert(row_taken(s.assigned, r) || s.unassigned.contains(r as usize));
    if s.unassigned.contains(r as usize) {
        let i = choose|i: int| 0 <= i < s.unassigned.len() && s.unassigned[i] == r as usize;
        assert(s.unassigned[i] == r);
        assert(is_start(s.unassigned, r));
        lemma_start_reached(g, s.assigned, s.unassigned, r);
    }
    let k = choose|k: int| 0 <= k < s.assigned.len() && (#[trigger] s.assigned[k]).0 == r;
    let cs = s.assigned[k].1 as int;
    assert(g[r][cs] == 0);
    if column_reached(g, s.assigned, s.unassigned, cs) {
        let q = choose|q: int|
            0 <= q < g.len() && #[trigger] row_reached(g, s.assigned, s.unassigned, q) && g[q][cs]
                == 0;
        assert(linked(g, s.assigned, q, r));
        lemma_step_reached(g, s.assigned, s.unassigned, q, r);
    }
    assert(is_uncovered(rows, cols, a, cs));
    lemma_least_uncovered_exists(g, rows, cols);
    let t = least_uncovered(g, rows, cols);
    assert(t <= g[a][cs]);
    assert(g[r][c] == costs[r][c] - u[r] - v[c]);
    assert(g[a][cs] == costs[a][cs] - u[a] - v[cs]);
    assert(g[a][c] == costs[a][c] - u[a] - v[c]);
    assert(g[r][cs] == costs[r][cs] - u[r] - v[cs]);
    assert(0 <= costs[r][c] <= bound);
    assert(0 <= costs[a][cs] <= bound);
    assert(0 <= costs[a][c] <= bound);
    assert(0 <= costs[r][cs] <= bound);
}

/// One search of the matrix: the assignment if it is complete, the covering
/// lines for the next adjustment if it is not.
pub fn assign_workers(m: &CostMatrix) -> (step: Result<Vec<(usize, usize)>, Marking>)
    ensures
        match step {
            Ok(cells) => is_complete(m@) && cells@ == matched(m@).assigned && is_perfect(
                cells@,
                m.dim(),
            ) && independent_zeros(m@, cells@),
            Err(lines) => !is_complete(m@) && lines.row_marked@ == lines_rows(m@)
                && lines.col_marked@ == lines_cols(m@) && (forall|r: int, c: int|
                0 <= r < m.dim() && 0 <= c < m.dim() && #[trigger] m@[r][c] == 0
                    ==> lines.row_marked[r] || lines.col_marked[c]) && (forall|
                p: Seq<(usize, usize)>,
            | #[trigger] is_perfect(p, m.dim()) ==> !independent_zeros(m@, p)),
        },
{
    let n = m.size();
    let found = find_assignment(m);
    proof {
        lemma_matched(m@);
        if !is_complete(m@) {
            assert forall|p: Seq<(usize, usize)>| #[trigger] is_perfect(p, m.dim()) implies
                !independent_zeros(m@, p) by {
                lemma_incomplete_has_no_perfect(m@, p);
            }
        }
    }
    if found.assigned.len() == n {
        return Ok(found.assigned);
    }
    let better = improve(m, found);
    if better.assigned.len() == n {
        Ok(better.assigned)
    } else {
        Err(mark(m, &better.assigned, &better.unassigned))
    }
}

/// Solves the working matrix in place for the least total with at most
/// `cycles` adjustments: reduces it, then searches and adjusts in turn. If
/// the search is still incomplete when the adjustments are used up, the
/// solve has failed.
pub fn solve_within(m: &mut CostMatrix, cycles: usize) -> (outcome: Result<
    Vec<(usize, usize)>,
    SolveError,
>)
    requires
        is_bounded(old(m)@, old(m).dim(), i64::MAX as int),
    ensures
        final(m).dim() == old(m).dim(),
        final(m)@ == settle_from(reduced(old(m)@), cycles as nat),
        match outcome {
            Ok(cells) => solve_from(reduced(old(m)@), cycles as nat) == Ok::<
                Seq<(usize, usize)>,
                SolveError,
            >(cells@) && is_perfect(cells@, old(m).dim()) && independent_zeros(
                final(m)@,
                cells@,
            ) && is_cheapest(old(m)@, cells@),
            Err(e) => e == SolveError::NoAssignmentFound && solve_from(
                reduced(old(m)@),
                cycles as nat,
            ) == Err::<Seq<(usize, usize)>, SolveError>(e) && forall|p: Seq<(usize, usize)>| #[trigger]
                is_perfect(p, old(m).dim()) ==> !independent_zeros(final(m)@, p),
        },
        cycles * old(m).dim() > grid_sum(reduced(old(m)@), old(m).dim()) ==> outcome is Ok,
{
    let n = m.size();
    let ghost costs = m@;
    proof {
        lemma_reduced_is_reduced(costs, n as int);
        if cycles * n > grid_sum(reduced(costs), n as int) {
            lemma_enough_cycles(reduced(costs), cycles as nat);
        }
        lemma_reduced_is_shifted(costs, n as int);
        lemma_solve_from(
            reduced(costs),
            costs,
            reduce_rows_shift(costs),
            reduce_cols_shift(costs),
            cycles as nat,
        );
        if solve_from(reduced(costs), cycles as nat) is Err {
            assert forall|p: Seq<(usize, usize)>| #[trigger] is_perfect(p, n as int) implies
                !independent_zeros(settle_from(reduced(costs), cycles as nat), p) by {
                lemma_failure_is_honest(reduced(costs), cycles as nat, p);
            }
        }
    }
    reduce(m);
    let ghost mut u = reduce_rows_shift(costs);
    let ghost mut v = reduce_cols_shift(costs);
    proof {
        lemma_reduced_is_shifted(costs, n as int);
    }
    let mut left: usize = cycles;
    loop
        invariant
            n == m.dim(),
            n == old(m).dim(),
            costs == old(m)@,
            n == costs.len(),
            is_square(costs, n as int),
            is_bounded(costs, n as int, i64::MAX as int),
            is_shifted(m@, costs, u, v),
            solve_from(m@, left as nat) == solve_from(reduced(costs), cycles as nat),
            settle_from(m@, left as nat) == settle_from(reduced(costs), cycles as nat),
            solve_from(reduced(costs), cycles as nat) matches Ok(cells) ==> is_perfect(
                cells,
                n as int,
            ) && independent_zeros(settle_from(reduced(costs), cycles as nat), cells)
                && is_cheapest(costs, cells),
            solve_from(reduced(costs), cycles as nat) is Err ==> forall|p: Seq<(usize, usize)>| #[trigger]
                is_perfect(p, n as int) ==> !independent_zeros(
                    settle_from(reduced(costs), cycles as nat),
                    p,
                ),
            cycles * n > grid_sum(reduced(costs), n as int) ==> solve_from(
                reduced(costs),
                cycles as nat,
            ) is Ok,
        decreases left,
    {
        match assign_workers(m) {
            Ok(cells) => {
                return Ok(cells);
            },
            Err(lines) => {
                if left == 0 {
                    return Err(SolveError::NoAssignmentFound);
                }
                let ghost g = m@;
                let side = m.size();
                proof {
                    assert(side == n);
                    assert forall|r: int, c: int|
                        0 <= r < n && 0 <= c < n && lines.row_marked[r]
                            && lines.col_marked[c] implies #[trigger] g[r][c] + least_uncovered(
                        g,
                        lines.row_marked@,
                        lines.col_marked@,
                    ) <= u64::MAX by {
                        lemma_crossing_fits(g, costs, u, v, n as int, i64::MAX as int, r, c);
                    }
                    lemma_cycled_is_shifted(g, costs, u, v, n as int);
                    u = cycle_rows_shift(g, u);
                    v = cycle_cols_shift(g, v);
                }
                update_cost(m, &lines);
                left -= 1;
            },
        }
    }
}

/// Solves the working matrix in place for the least total, with as many
/// adjustments at most as the matrix has rows.
pub fn solve(m: &mut CostMatrix) -> (outcome: Result<Vec<(usize, usize)>, SolveError>)
    requires
        is_bounded(old(m)@, old(m).dim(), i64::MAX as int),
    ensures
        final(m).dim() == old(m).dim(),
        final(m)@ == settled(old(m)@),
        match outcome {
            Ok(cells) => solved(old(m)@) == Ok::<Seq<(usize, usize)>, SolveError>(cells@)
                && is_perfect(cells@, old(m).dim()) && independent_zeros(final(m)@, cells@)
                && is_cheapest(old(m)@, cells@),
            Err(e) => e == SolveError::NoAssignmentFound && solved(old(m)@) == Err::<
                Seq<(usize, usize)>,
                SolveError,
            >(e) && forall|p: Seq<(usize, usize)>| #[trigger]
                is_perfect(p, old(m).dim()) ==> !independent_zeros(final(m)@, p),
        },
        grid_sum(reduced(old(m)@), old(m).dim()) < old(m).dim() * old(m).dim() ==> outcome is Ok,
{
    let n = m.size();
    solve_within(m, n)
}

/// Solves the working matrix in place for the least total with as many
/// adjustments as it takes: every cycle lowers the sum of the costs, so the
/// search is complete in the end.
pub fn solve_to_end(m: &mut CostMatrix) -> (cells: Vec<(usize, usize)>)
    requires
        is_bounded(old(m)@, old(m).dim(), i64::MAX as int),
    ensures
        final(m).dim() == old(m).dim(),
        final(m)@ == settle_from(reduced(old(m)@), enough(reduced(old(m)@))),
        solve_from(reduced(old(m)@), enough(reduced(old(m)@))) == Ok::<
            Seq<(usize, usize)>,
            SolveError,
        >(cells@),
        is_perfect(cells@, old(m).dim()),
        independent_zeros(final(m)@, cells@),
        is_cheapest(old(m)@, cells@),
{
    let n = m.size();
    let ghost costs = m@;
    proof {
        lemma_reduced_is_reduced(costs, n as int);
        lemma_reduced_is_shifted(costs, n as int);
        lemma_solve_from(
            reduced(costs),
            costs,
            reduce_rows_shift(costs),
            reduce_cols_shift(costs),
            enough(reduced(costs)),
        );
    }
    reduce(m);
    let ghost mut u = reduce_rows_shift(costs);
    let ghost mut v = reduce_cols_shift(costs);
    let ghost whole = enough(reduced(costs));
    loop
        invariant
            n == m.dim(),
            n == old(m).dim(),
            costs == old(m)@,
            n == costs.len(),
            n >= 1,
            whole == enough(reduced(costs)),
            is_square(costs, n as int),
            is_bounded(costs, n as int, i64::MAX as int),
            is_shifted(m@, costs, u, v),
            solve_from(m@, enough(m@)) == solve_from(reduced(costs), whole),
            settle_from(m@, enough(m@)) == settle_from(reduced(costs), whole),
            solve_from(reduced(costs), whole) matches Ok(cells) ==> is_perfect(cells, n as int)
                && independent_zeros(settle_from(reduced(costs), whole), cells) && is_cheapest(
                costs,
                cells,
            ),
        decreases grid_sum(m@, n as int),
    {
        let side = m.size();
        proof {
            lemma_enough(m@);
        }
        match assign_workers(m) {
            Ok(cells) => {
                return cells;
            },
            Err(lines) => {
                let ghost g = m@;
                proof {
                    assert forall|r: int, c: int|
                        0 <= r < n && 0 <= c < n && lines.row_marked[r]
                            && lines.col_marked[c] implies #[trigger] g[r][c] + least_uncovered(
                        g,
                        lines.row_marked@,
                        lines.col_marked@,
                    ) <= u64::MAX by {
                        lemma_crossing_fits(g, costs, u, v, n as int, i64::MAX as int, r, c);
                    }
                    lemma_cycled_is_shifted(g, costs, u, v, n as int);
                    u = cycle_rows_shift(g, u);
                    v = cycle_cols_shift(g, v);
                }
                update_cost(m, &lines);
                let after = m.size();
                proof {
                    assert(m@ == cycled(g));
                    lemma_grid_sum_sign(m@, n as int);
                }
            },
        }
    }
}

/// Whatever the loop returns as an assignment picks one zero of the settled
/// grid in every row and column, and is a cheapest assignment of the costs
/// from which the grid was shifted.
pub proof fn lemma_solve_from(g: Grid, costs: Grid, u: Seq<int>, v: Seq<int>, cycles: nat)
    requires
        is_square(g, g.len() as int),
        g.len() <= usize::MAX,
        costs.len() == g.len(),
        is_nonnegative(g),
        is_shifted(g, costs, u, v),
    ensures
        is_square(settle_from(g, cycles), g.len() as int),
        is_nonnegative(settle_from(g, cycles)),
        solve_from(g, cycles) matches Ok(cells) ==> is_perfect(cells, g.len() as int)
            && independent_zeros(settle_from(g, cycles), cells) && is_cheapest(costs, cells),
        solve_from(g, cycles) matches Err(e) ==> e == SolveError::NoAssignmentFound,
    decreases cycles,
{
    let n = g.len() as int;
    if is_complete(g) {
        lemma_matched(g);
        lemma_zeros_are_cheapest(g, costs, u, v, matched(g).assigned);
    } else if cycles > 0 {
        lemma_adjusted_nonnegative(g, lines_rows(g), lines_cols(g), n);
        lemma_cycled_is_shifted(g, costs, u, v, n);
        lemma_solve_from(
            cycled(g),
            costs,
            cycle_rows_shift(g, u),
            cycle_cols_shift(g, v),
            (cycles - 1) as nat,
        );
    }
}

/// An assignment that solving returns picks one cell in every row and every
/// column, and no other such pick costs less.
pub proof fn lemma_solved_is_cheapest(g: Grid)
    requires
        g.len() >= 1,
        g.len() <= usize::MAX,
        is_square(g, g.len() as int),
    ensures
        solved(g) matches Ok(cells) ==> is_perfect(cells, g.len() as int) && is_cheapest(g, cells)
            && independent_zeros(settled(g), cells),
        solved(g) matches Err(e) ==> e == SolveError::NoAssignmentFound,
{
    let n = g.len() as int;
    lemma_reduced_is_reduced(g, n);
    lemma_reduced_is_shifted(g, n);
    lemma_solve_from(reduced(g), g, reduce_rows_shift(g), reduce_cols_shift(g), g.len());
}

/// A reduced grid on which the search is complete is solved without any
/// adjustment: the search's assignment is returned and the grid is left as
/// the reduction made it.
pub proof fn lemma_complete_needs_no_cycle(g: Grid)
    requires
        is_complete(reduced(g)),
    ensures
        solved(g) == Ok::<Seq<(usize, usize)>, SolveError>(matched(reduced(g)).assigned),
        settled(g) == reduced(g),
{
}

/// What solving a buffer of `n`×`n` costs for the least total returns: the
/// input's fault if it has one, else what the solver makes of the grid.
pub open spec fn least_assignment(cells: Seq<i64>, n: int) -> Result<
    Seq<(usize, usize)>,
    SolveError,
> {
    match input_error(cells, n) {
        Some(e) => Err(e),
        None => solved(grid_of(cells, n)),
    }
}

/// Finds an assignment of least total cost for the `n`×`n` costs in `cells`,
/// given row by row.
pub fn assignment(cells: &Vec<i64>, n: usize) -> (outcome: Result<Vec<(usize, usize)>, SolveError>)
    ensures
        match outcome {
            Ok(picked) => least_assignment(cells@, n as int) == Ok::<
                Seq<(usize, usize)>,
                SolveError,
            >(picked@) && is_perfect(picked@, n as int) && is_cheapest(
                grid_of(cells@, n as int),
                picked@,
            ),
            Err(e) => least_assignment(cells@, n as int) == Err::<Seq<(usize, usize)>, SolveError>(
                e,
            ),
        },
        input_error(cells@, n as int) is None && grid_sum(
            reduced(grid_of(cells@, n as int)),
            n as int,
        ) < n * n ==> outcome is Ok,
{
    proof {
        if input_error(cells@, n as int) is None && grid_sum(
            reduced(grid_of(cells@, n as int)),
            n as int,
        ) < n * n {
            let g = grid_of(cells@, n as int);
            assert(is_square(g, n as int));
            lemma_success_is_owed(g);
        }
    }
    match CostMatrix::new(cells, n) {
        Err(e) => Err(e),
        Ok(mut m) => {
            proof {
                let g = grid_of(cells@, n as int);
                assert(is_bounded(g, n as int, i64::MAX as int)) by {
                    assert forall|r: int, c: int| 0 <= r < n && 0 <= c < n implies 0
                        <= #[trigger] g[r][c] <= i64::MAX by {
                        lemma_offset(n as int, r, c);
                    }
                }
                assert(is_square(g, n as int));
                lemma_solved_is_cheapest(g);
            }
            solve(&mut m)
        },
    }
}

/// The limit from which `max_assignment` and `matrix_sum` measure the
/// costs: no cost of the matrices they are made for is above it.
pub const ULIMIT: i64 = 1000;

/// The costs turned into their distances from `limit`.
pub open spec fn complement(cells: Seq<i64>, limit: int) -> Seq<i64> {
    Seq::new(cells.len(), |i: int| (limit - cells[i]) as i64)
}

/// What is wrong with a buffer handed in for the greatest total, if
/// anything: the dimension is judged first; then a cost below zero, or one
/// above `limit`, whose distance from the limit would be below zero.
pub open spec fn limit_error(cells: Seq<i64>, n: int, limit: int) -> Option<SolveError> {
    if n == 0 || cells.len() != n * n {
        Some(SolveError::InvalidDimension)
    } else if exists|i: int| 0 <= i < cells.len() && (cells[i] < 0 || cells[i] > limit) {
        Some(SolveError::NegativeCost)
    } else {
        None
    }
}

/// What solving a buffer of `n`×`n` costs for the greatest total returns,
/// with the costs measured from `limit`.
pub open spec fn greatest_assignment(cells: Seq<i64>, n: int, limit: int) -> Result<
    Seq<(usize, usize)>,
    SolveError,
> {
    match limit_error(cells, n, limit) {
        Some(e) => Err(e),
        None => solved(grid_of(complement(cells, limit), n)),
    }
}

/// Measured from the limit, the total of any cells is the limit times their
/// number less their total.
pub proof fn lemma_complement_cost(
    cells: Seq<i64>,
    n: int,
    limit: int,
    picked: Seq<(usize, usize)>,
)
    requires
        n >= 1,
        cells.len() == n * n,
        limit <= i64::MAX,
        forall|i: int| 0 <= i < cells.len() ==> 0 <= #[trigger] cells[i] <= limit,
        forall|i: int| 0 <= i < picked.len() ==> (#[trigger] picked[i]).0 < n && picked[i].1 < n,
    ensures
        cost_of(grid_of(complement(cells, limit), n), picked) == picked.len() * limit - cost_of(
            grid_of(cells, n),
            picked,
        ),
    decreases picked.len(),
{
    if picked.len() > 0 {
        let front = picked.drop_last();
        lemma_complement_cost(cells, n, limit, front);
        let last = picked.last();
        assert(picked[picked.len() - 1] == last);
        lemma_offset(n, last.0 as int, last.1 as int);
        assert((picked.len() - 1) * limit + limit == picked.len() * limit) by (nonlinear_arith);
    }
}

/// A cheapest assignment of the distances from the limit is a dearest
/// assignment of the costs.
pub proof fn lemma_complement_dearest(
    cells: Seq<i64>,
    n: int,
    limit: int,
    picked: Seq<(usize, usize)>,
)
    requires
        n >= 1,
        cells.len() == n * n,
        limit <= i64::MAX,
        forall|i: int| 0 <= i < cells.len() ==> 0 <= #[trigger] cells[i] <= limit,
        is_perfect(picked, n),
        is_cheapest(grid_of(complement(cells, limit), n), picked),
    ensures
        is_dearest(grid_of(cells, n), picked),
{
    let g = grid_of(cells, n);
    let far = grid_of(complement(cells, limit), n);
    assert forall|other: Seq<(usize, usize)>| #[trigger] is_perfect(other, n) implies cost_of(
        g,
        other,
    ) <= cost_of(g, picked) by {
        lemma_complement_cost(cells, n, limit, picked);
        lemma_complement_cost(cells, n, limit, other);
        assert(far.len() == n);
        assert(is_perfect(other, far.len() as int));
        assert(cost_of(far, picked) <= cost_of(far, other));
    }
}

/// Whatever limit the costs are measured from, the reduction leaves the
/// same grid, so the solver finds the same assignment: the limit only has
/// to be a number that no cost is above.
pub proof fn lemma_limit_is_free(cells: Seq<i64>, n: int, low: int, high: int)
    requires
        n >= 1,
        limit_error(cells, n, low) is None,
        low <= high <= i64::MAX,
    ensures
        limit_error(cells, n, high) is None,
        rows_reduced(grid_of(complement(cells, low), n)) == rows_reduced(
            grid_of(complement(cells, high), n),
        ),
        greatest_assignment(cells, n, low) == greatest_assignment(cells, n, high),
{
    let near = grid_of(complement(cells, low), n);
    let far = grid_of(complement(cells, high), n);
    assert forall|r: int| 0 <= r < n implies #[trigger] near[r].min() + (high - low)
        == far[r].min() by {
        near[r].min_ensures();
        let least = near[r].min();
        let c0 = choose|c: int| 0 <= c < near[r].len() && near[r][c] == least;
        lemma_offset(n, r, c0);
        assert(far[r][c0] == least + (high - low));
        assert forall|c: int| 0 <= c < far[r].len() implies least + (high - low) <= far[r][c] by {
            lemma_offset(n, r, c);
            assert(near[r][c] >= least);
        }
        lemma_min_is(far[r], least + (high - low));
    }
    assert forall|r: int, c: int| 0 <= r < n && 0 <= c < n implies #[trigger] rows_reduced(
        near,
    )[r][c] == rows_reduced(far)[r][c] by {
        lemma_offset(n, r, c);
        assert(near[r].min() + (high - low) == far[r].min());
    }
    assert forall|r: int| 0 <= r < n implies #[trigger] rows_reduced(near)[r] == rows_reduced(
        far,
    )[r] by {
        assert(rows_reduced(near)[r] =~= rows_reduced(far)[r]);
    }
    assert(near.len() == n && far.len() == n);
    assert(rows_reduced(near).len() == n && rows_reduced(far).len() == n);
    assert(rows_reduced(near) =~= rows_reduced(far));
}

/// Turns the costs into their distances from `limit`, where the buffer
/// holds `n`×`n` costs from zero to the limit.
pub fn complemented(cells: &Vec<i64>, n: usize, limit: i64) -> (far: Result<Vec<i64>, SolveError>)
    ensures
        match far {
            Ok(list) => limit_error(cells@, n as int, limit as int) is None && list@ == complement(
                cells@,
                limit as int,
            ) && input_error(list@, n as int) is None,
            Err(e) => limit_error(cells@, n as int, limit as int) == Some(e),
        },
{
    if n == 0 {
        return Err(SolveError::InvalidDimension);
    }
    let len = cells.len();
    match n.checked_mul(n) {
        Some(area) => {
            if area != len {
                return Err(SolveError::InvalidDimension);
            }
        },
        None => {
            return Err(SolveError::InvalidDimension);
        },
    }
    let mut far: Vec<i64> = Vec::new();
    let mut i: usize = 0;
    while i < cells.len()
        invariant
            i <= cells.len(),
            n >= 1,
            cells.len() == n * n,
            far.len() == i,
            forall|k: int| 0 <= k < i ==> 0 <= #[trigger] cells[k] <= limit,
            forall|k: int| 0 <= k < i ==> #[trigger] far[k] == limit - cells[k],
        decreases cells.len() - i,
    {
        if cells[i] < 0 || cells[i] > limit {
            return Err(SolveError::NegativeCost);
        }
        far.push(limit - cells[i]);
        i += 1;
    }
    proof {
        assert(far@ =~= complement(cells@, limit as int));
        assert(input_error(far@, n as int) is None);
    }
    Ok(far)
}

/// Finds an assignment of greatest total for the `n`×`n` costs in `cells`,
/// given row by row. The caller chooses the limit from which the costs are
/// measured: a number that no cost is above. A cost above it is turned
/// down like one below zero.
pub fn max_assignment_with(cells: &Vec<i64>, n: usize, limit: i64) -> (outcome: Result<
    Vec<(usize, usize)>,
    SolveError,
>)
    ensures
        match outcome {
            Ok(picked) => greatest_assignment(cells@, n as int, limit as int) == Ok::<
                Seq<(usize, usize)>,
                SolveError,
            >(picked@) && is_perfect(picked@, n as int) && is_dearest(
                grid_of(cells@, n as int),
                picked@,
            ),
            Err(e) => greatest_assignment(cells@, n as int, limit as int) == Err::<
                Seq<(usize, usize)>,
                SolveError,
            >(e),
        },
        limit_error(cells@, n as int, limit as int) is None && grid_sum(
            reduced(grid_of(complement(cells@, limit as int), n as int)),
            n as int,
        ) < n * n ==> outcome is Ok,
{
    let far = match complemented(cells, n, limit) {
        Ok(far) => far,
        Err(e) => {
            return Err(e);
        },
    };
    let outcome = assignment(&far, n);
    proof {
        if outcome is Ok {
            lemma_complement_dearest(cells@, n as int, limit as int, outcome->Ok_0@);
        }
    }
    outcome
}

/// Finds an assignment of greatest total for the `n`×`n` costs in `cells`,
/// given row by row, none of them above `ULIMIT`.
pub fn max_assignment(cells: &Vec<i64>, n: usize) -> (outcome: Result<
    Vec<(usize, usize)>,
    SolveError,
>)
    ensures
        match outcome {
            Ok(picked) => greatest_assignment(cells@, n as int, ULIMIT as int) == Ok::<
                Seq<(usize, usize)>,
                SolveError,
            >(picked@) && is_perfect(picked@, n as int) && is_dearest(
                grid_of(cells@, n as int),
                picked@,
            ),
            Err(e) => greatest_assignment(cells@, n as int, ULIMIT as int) == Err::<
                Seq<(usize, usize)>,
                SolveError,
            >(e),
        },
        limit_error(cells@, n as int, ULIMIT as int) is None && grid_sum(
            reduced(grid_of(complement(cells@, ULIMIT as int), n as int)),
            n as int,
        ) < n * n ==> outcome is Ok,
{
    max_assignment_with(cells, n, ULIMIT)
}

/// The greatest total of `n` of the `n`×`n` costs in `cells`, one in every
/// row and every column: the matrix sum. The costs are given row by row;
/// the caller chooses the limit from which they are measured, a number
/// that no cost is above.
pub fn matrix_sum_with(cells: &Vec<i64>, n: usize, limit: i64) -> (outcome: Result<
    i128,
    SolveError,
>)
    ensures
        match outcome {
            Ok(sum) => limit_error(cells@, n as int, limit as int) is None && exists|
                picked: Seq<(usize, usize)>,
            |
                #[trigger] is_perfect(picked, n as int) && is_dearest(
                    grid_of(cells@, n as int),
                    picked,
                ) && sum == cost_of(grid_of(cells@, n as int), picked),
            Err(e) => limit_error(cells@, n as int, limit as int) == Some(e),
        },
{
    let far = match complemented(cells, n, limit) {
        Ok(far) => far,
        Err(e) => {
            return Err(e);
        },
    };
    match CostMatrix::new(&far, n) {
        Err(e) => Err(e),
        Ok(mut m) => {
            proof {
                let g = grid_of(far@, n as int);
                assert(is_bounded(g, n as int, i64::MAX as int)) by {
                    assert forall|r: int, c: int| 0 <= r < n && 0 <= c < n implies 0
                        <= #[trigger] g[r][c] <= i64::MAX by {
                        lemma_offset(n as int, r, c);
                    }
                }
            }
            let picked = solve_to_end(&mut m);
            proof {
                lemma_complement_dearest(cells@, n as int, limit as int, picked@);
            }
            let ghost chosen = picked@;
            let sum = sum_of_assignments(cells, n, picked);
            proof {
                assert(is_perfect(chosen, n as int) && is_dearest(
                    grid_of(cells@, n as int),
                    chosen,
                ) && sum == cost_of(grid_of(cells@, n as int), chosen));
            }
            Ok(sum)
        },
    }
}

/// The matrix sum of `n`×`n` costs none of which is above `ULIMIT`.
pub fn matrix_sum(cells: &Vec<i64>, n: usize) -> (outcome: Result<i128, SolveError>)
    ensures
        match outcome {
            Ok(sum) => limit_error(cells@, n as int, ULIMIT as int) is None && exists|
                picked: Seq<(usize, usize)>,
            |
                #[trigger] is_perfect(picked, n as int) && is_dearest(
                    grid_of(cells@, n as int),
                    picked,
                ) && sum == cost_of(grid_of(cells@, n as int), picked),
            Err(e) => limit_error(cells@, n as int, ULIMIT as int) == Some(e),
        },
{
    matrix_sum_with(cells, n, ULIMIT)
}

/// Adds up the costs of the `n`×`n` grid in `cells` at the assigned cells.
pub fn sum_of_assignments(cells: &Vec<i64>, n: usize, assign: Vec<(usize, usize)>) -> (sum: i128)
    requires
        cells.len() == n * n,
        forall|i: int| 0 <= i < assign.len() ==> (#[trigger] assign[i]).0 < n && assign[i].1 < n,
    ensures
        sum == cost_of(grid_of(cells@, n as int), assign@),
{
    let ghost g = grid_of(cells@, n as int);
    let mut sum: i128 = 0;
    let mut i: usize = 0;
    while i < assign.len()
        invariant
            i <= assign.len(),
            cells.len() == n * n,
            g == grid_of(cells@, n as int),
            forall|k: int|
                0 <= k < assign.len() ==> (#[trigger] assign[k]).0 < n && assign[k].1 < n,
            sum == cost_of(g, assign@.take(i as int)),
            -(i * 0x8000_0000_0000_0000) <= sum <= i * 0x8000_0000_0000_0000,
        decreases assign.len() - i,
    {
        let (r, c) = assign[i];
        proof {
            lemma_offset(n as int, r as int, c as int);
            assert(assign@.take(i + 1).drop_last() =~= assign@.take(i as int));
            assert(assign@.take(i + 1).last() == assign[i as int]);
            assert((i + 1) * 0x8000_0000_0000_0000 <= 0xffff_ffff_ffff_ffff
                * 0x8000_0000_0000_0000) by (nonlinear_arith)
                requires
                    i + 1 <= 0xffff_ffff_ffff_ffff,
            ;
            assert((i + 1) * 0x8000_0000_0000_0000 == i * 0x8000_0000_0000_0000
                + 0x8000_0000_0000_0000) by (nonlinear_arith);
        }
        let cost = cells[r * n + c];
        sum = sum + cost as i128;
        i += 1;
    }
    proof {
        assert(assign@.take(assign.len() as int) =~= assign@);
    }
    sum
}

} // verus!
