//! Why a complete assignment on the zeros of the working matrix is a
//! cheapest assignment of the costs that were handed in.
//!
//! Reduction and adjustment only ever shift whole rows and whole columns.
//! A complete assignment picks every row and every column once, so each
//! shift changes the total of every complete assignment by the same amount.

use vstd::prelude::*;
use vstd::set_lib::{lemma_int_range, lemma_len_subset, set_int_range};
use crate::problem345::matrix::{is_nonnegative, is_square, Grid};
use crate::problem345::search::independent_zeros;
use crate::problem345::solver::is_shifted;

verus! {

/// The total of the costs of `g` at the given cells.
pub open spec fn cost_of(g: Grid, cells: Seq<(usize, usize)>) -> int
    decreases cells.len(),
{
    if cells.len() == 0 {
        0
    } else {
        cost_of(g, cells.drop_last()) + g[cells.last().0 as int][cells.last().1 as int]
    }
}

/// `cells` picks one cell in every row and every column of an n×n grid:
/// n cells inside the grid, no two in one row, no two in one column.
pub open spec fn is_perfect(cells: Seq<(usize, usize)>, n: int) -> bool {
    &&& cells.len() == n
    &&& forall|i: int| 0 <= i < cells.len() ==> (#[trigger] cells[i]).0 < n && cells[i].1 < n
    &&& forall|i: int, j: int|
        0 <= i < j < cells.len() ==> (#[trigger] cells[i]).0 != (#[trigger] cells[j]).0
            && cells[i].1 != cells[j].1
}

/// No way of picking one cell per row and column of `g` costs less than
/// `cells` does.
pub open spec fn is_cheapest(g: Grid, cells: Seq<(usize, usize)>) -> bool {
    forall|other: Seq<(usize, usize)>| #[trigger]
        is_perfect(other, g.len() as int) ==> cost_of(g, cells) <= cost_of(g, other)
}

/// No way of picking one cell per row and column of `g` yields more than
/// `cells` does.
pub open spec fn is_dearest(g: Grid, cells: Seq<(usize, usize)>) -> bool {
    forall|other: Seq<(usize, usize)>| #[trigger]
        is_perfect(other, g.len() as int) ==> cost_of(g, other) <= cost_of(g, cells)
}

/// The sum of all of `u`.
pub open spec fn total(u: Seq<int>) -> int
    decreases u.len(),
{
    if u.len() == 0 {
        0
    } else {
        total(u.drop_last()) + u.last()
    }
}

/// The sum of `u` at the places that `places` lists.
pub open spec fn picked(u: Seq<int>, places: Seq<int>) -> int
    decreases places.len(),
{
    if places.len() == 0 {
        0
    } else {
        picked(u, places.drop_last()) + u[places.last()]
    }
}

/// `places` lists each of the places below `n` once.
pub open spec fn is_arrangement(places: Seq<int>, n: int) -> bool {
    &&& places.len() == n
    &&& forall|i: int| 0 <= i < places.len() ==> 0 <= #[trigger] places[i] < n
    &&& forall|i: int, j: int|
        0 <= i < j < places.len() ==> #[trigger] places[i] != #[trigger] places[j]
}

/// The rows of the cells.
pub open spec fn rows_of(cells: Seq<(usize, usize)>) -> Seq<int> {
    Seq::new(cells.len(), |i: int| cells[i].0 as int)
}

/// The columns of the cells.
pub open spec fn cols_of(cells: Seq<(usize, usize)>) -> Seq<int> {
    Seq::new(cells.len(), |i: int| cells[i].1 as int)
}

/// An arrangement of n places misses none of them.
pub proof fn lemma_arrangement_onto(places: Seq<int>, n: int, x: int)
    requires
        is_arrangement(places, n),
        0 <= x < n,
    ensures
        exists|k: int| 0 <= k < n && places[k] == x,
{
    if !places.contains(x) {
        assert(places.no_duplicates());
        places.unique_seq_to_set();
        lemma_int_range(0, n);
        let rest = set_int_range(0, n).remove(x);
        assert(places.to_set().subset_of(rest)) by {
            assert forall|y: int| places.to_set().contains(y) implies rest.contains(y) by {
                assert(places.contains(y));
            }
        }
        lemma_len_subset(places.to_set(), rest);
    }
}

/// Leaving one place out lowers the picked sum by what stood there.
pub proof fn lemma_picked_remove(u: Seq<int>, places: Seq<int>, k: int)
    requires
        0 <= k < places.len(),
    ensures
        picked(u, places) == picked(u, places.remove(k)) + u[places[k]],
    decreases places.len(),
{
    if k == places.len() - 1 {
        assert(places.remove(k) =~= places.drop_last());
    } else {
        lemma_picked_remove(u, places.drop_last(), k);
        assert(places.remove(k).drop_last() =~= places.drop_last().remove(k));
        assert(places.remove(k).last() == places.last());
    }
}

/// The last entry of `u` does not count where no place points at it.
pub proof fn lemma_picked_shorter(u: Seq<int>, places: Seq<int>)
    requires
        u.len() >= 1,
        forall|i: int| 0 <= i < places.len() ==> 0 <= #[trigger] places[i] < u.len() - 1,
    ensures
        picked(u, places) == picked(u.drop_last(), places),
    decreases places.len(),
{
    if places.len() > 0 {
        lemma_picked_shorter(u, places.drop_last());
    }
}

/// Picked along an arrangement, the sum is the sum of all.
pub proof fn lemma_picked_all(u: Seq<int>, places: Seq<int>)
    requires
        is_arrangement(places, u.len() as int),
    ensures
        picked(u, places) == total(u),
    decreases u.len(),
{
    let n = u.len() as int;
    if n > 0 {
        lemma_arrangement_onto(places, n, n - 1);
        let k = choose|k: int| 0 <= k < n && places[k] == n - 1;
        let rest = places.remove(k);
        lemma_picked_remove(u, places, k);
        assert forall|i: int| 0 <= i < rest.len() implies 0 <= #[trigger] rest[i] < n - 1 by {
            if i < k {
                assert(rest[i] == places[i]);
            } else {
                assert(rest[i] == places[i + 1]);
            }
        }
        assert forall|i: int, j: int| 0 <= i < j < rest.len() implies #[trigger] rest[i]
            != #[trigger] rest[j] by {
            let i2 = if i < k {
                i
            } else {
                i + 1
            };
            let j2 = if j < k {
                j
            } else {
                j + 1
            };
            assert(rest[i] == places[i2]);
            assert(rest[j] == places[j2]);
        }
        lemma_picked_shorter(u, rest);
        lemma_picked_all(u.drop_last(), rest);
    }
}

/// The rows of a complete assignment are an arrangement, and so are its
/// columns.
pub proof fn lemma_perfect_arranges(cells: Seq<(usize, usize)>, n: int)
    requires
        is_perfect(cells, n),
    ensures
        is_arrangement(rows_of(cells), n),
        is_arrangement(cols_of(cells), n),
{
    let rows = rows_of(cells);
    let cols = cols_of(cells);
    assert forall|i: int, j: int| 0 <= i < j < rows.len() implies #[trigger] rows[i]
        != #[trigger] rows[j] by {
        assert(cells[i].0 != cells[j].0);
    }
    assert forall|i: int, j: int| 0 <= i < j < cols.len() implies #[trigger] cols[i]
        != #[trigger] cols[j] by {
        assert(cells[i].1 != cells[j].1);
    }
}

/// On a shifted grid every total differs from the total on the costs by the
/// shifts of the rows and columns that the cells lie in.
pub proof fn lemma_cost_split(
    g: Grid,
    costs: Grid,
    u: Seq<int>,
    v: Seq<int>,
    cells: Seq<(usize, usize)>,
)
    requires
        is_shifted(g, costs, u, v),
        forall|i: int|
            0 <= i < cells.len() ==> (#[trigger] cells[i]).0 < g.len() && cells[i].1 < g.len(),
    ensures
        cost_of(costs, cells) == cost_of(g, cells) + picked(u, rows_of(cells)) + picked(
            v,
            cols_of(cells),
        ),
    decreases cells.len(),
{
    if cells.len() > 0 {
        let front = cells.drop_last();
        lemma_cost_split(g, costs, u, v, front);
        assert(rows_of(cells).drop_last() =~= rows_of(front));
        assert(cols_of(cells).drop_last() =~= cols_of(front));
        let last = cells.last();
        assert(cells[cells.len() - 1] == last);
        assert(g[last.0 as int][last.1 as int] == costs[last.0 as int][last.1 as int]
            - u[last.0 as int] - v[last.1 as int]);
    }
}

/// On a grid without negative cells no total is below zero, and a total over
/// zeros is zero.
pub proof fn lemma_cost_sign(g: Grid, cells: Seq<(usize, usize)>)
    requires
        forall|r: int| 0 <= r < g.len() ==> (#[trigger] g[r]).len() == g.len(),
        is_nonnegative(g),
        forall|i: int|
            0 <= i < cells.len() ==> (#[trigger] cells[i]).0 < g.len() && cells[i].1 < g.len(),
    ensures
        cost_of(g, cells) >= 0,
        (forall|i: int|
            0 <= i < cells.len() ==> g[(#[trigger] cells[i]).0 as int][cells[i].1 as int] == 0)
            ==> cost_of(g, cells) == 0,
    decreases cells.len(),
{
    if cells.len() > 0 {
        let front = cells.drop_last();
        lemma_cost_sign(g, front);
        let last = cells.last();
        assert(cells[cells.len() - 1] == last);
        assert(g[last.0 as int][last.1 as int] >= 0);
        if forall|i: int|
            0 <= i < cells.len() ==> g[(#[trigger] cells[i]).0 as int][cells[i].1 as int] == 0 {
            assert forall|i: int| 0 <= i < front.len() implies g[(#[trigger] front[i]).0 as int][front[i].1 as int]
                == 0 by {
                assert(front[i] == cells[i]);
            }
        }
    }
}

/// A complete assignment on zeros of a shifted grid without negative cells
/// is a cheapest assignment of the costs.
pub proof fn lemma_zeros_are_cheapest(
    g: Grid,
    costs: Grid,
    u: Seq<int>,
    v: Seq<int>,
    cells: Seq<(usize, usize)>,
)
    requires
        is_square(g, g.len() as int),
        costs.len() == g.len(),
        is_nonnegative(g),
        is_shifted(g, costs, u, v),
        is_perfect(cells, g.len() as int),
        independent_zeros(g, cells),
    ensures
        is_cheapest(costs, cells),
{
    let n = g.len() as int;
    assert forall|other: Seq<(usize, usize)>| #[trigger] is_perfect(other, n) implies cost_of(
        costs,
        cells,
    ) <= cost_of(costs, other) by {
        lemma_cost_split(g, costs, u, v, cells);
        lemma_cost_split(g, costs, u, v, other);
        lemma_cost_sign(g, cells);
        lemma_cost_sign(g, other);
        lemma_perfect_arranges(cells, n);
        lemma_perfect_arranges(other, n);
        lemma_picked_all(u, rows_of(cells));
        lemma_picked_all(v, cols_of(cells));
        lemma_picked_all(u, rows_of(other));
        lemma_picked_all(v, cols_of(other));
    }
}

} // verus!
