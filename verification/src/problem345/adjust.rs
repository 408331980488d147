//! Cost adjustment: given the covering lines, move the least uncovered cost
//! around so that a new zero appears where no line runs.

use vstd::prelude::*;
use crate::problem345::augment::matched;
use crate::problem345::laws::lemma_cycle_never_loses;
use crate::problem345::marking::Marking;
use crate::problem345::matrix::{is_nonnegative, is_square, CostMatrix, Grid};
use crate::problem345::solver::{lines_cols, lines_rows};

verus! {

/// No line runs through the cell at (`r`, `c`).
pub open spec fn is_uncovered(rows: Seq<bool>, cols: Seq<bool>, r: int, c: int) -> bool {
    !rows[r] && !cols[c]
}

/// Some cell is left without a line.
pub open spec fn has_uncovered(rows: Seq<bool>, cols: Seq<bool>) -> bool {
    exists|r: int, c: int|
        0 <= r < rows.len() && 0 <= c < cols.len() && #[trigger] is_uncovered(rows, cols, r, c)
}

/// `t` is the least cost among the uncovered cells, or zero where every
/// cell is covered.
pub open spec fn is_least_uncovered(g: Grid, rows: Seq<bool>, cols: Seq<bool>, t: int) -> bool {
    if has_uncovered(rows, cols) {
        &&& exists|r: int, c: int|
            0 <= r < rows.len() && 0 <= c < cols.len() && #[trigger] is_uncovered(rows, cols, r, c)
                && g[r][c] == t
        &&& forall|r: int, c: int|
            0 <= r < rows.len() && 0 <= c < cols.len() && #[trigger] is_uncovered(rows, cols, r, c)
                ==> t <= g[r][c]
    } else {
        t == 0
    }
}

/// The least cost among the uncovered cells, or zero where every cell is
/// covered.
pub open spec fn least_uncovered(g: Grid, rows: Seq<bool>, cols: Seq<bool>) -> int {
    choose|t: int| is_least_uncovered(g, rows, cols, t)
}

/// The grid after one adjustment: the least uncovered cost is added where two
/// lines cross, taken off where no line runs, and cells under one line stay.
pub open spec fn adjusted(g: Grid, rows: Seq<bool>, cols: Seq<bool>) -> Grid {
    let t = least_uncovered(g, rows, cols);
    Seq::new(
        g.len(),
        |r: int|
            Seq::new(
                g[r].len(),
                |c: int|
                    if rows[r] && cols[c] {
                        g[r][c] + t
                    } else if !rows[r] && !cols[c] {
                        g[r][c] - t
                    } else {
                        g[r][c]
                    },
            ),
    )
}

/// There is one least uncovered cost, and `least_uncovered` names it.
pub proof fn lemma_least_uncovered(g: Grid, rows: Seq<bool>, cols: Seq<bool>, t: int)
    requires
        is_least_uncovered(g, rows, cols, t),
    ensures
        least_uncovered(g, rows, cols) == t,
{
    let u = least_uncovered(g, rows, cols);
    assert(is_least_uncovered(g, rows, cols, u));
    if has_uncovered(rows, cols) {
        let (r1, c1) = choose|r: int, c: int|
            0 <= r < rows.len() && 0 <= c < cols.len() && #[trigger] is_uncovered(rows, cols, r, c)
                && g[r][c] == t;
        let (r2, c2) = choose|r: int, c: int|
            0 <= r < rows.len() && 0 <= c < cols.len() && #[trigger] is_uncovered(rows, cols, r, c)
                && g[r][c] == u;
        assert(is_uncovered(rows, cols, r1, c1));
        assert(is_uncovered(rows, cols, r2, c2));
    }
}

/// Every grid has a least uncovered cost, whatever the lines.
pub proof fn lemma_least_uncovered_exists(g: Grid, rows: Seq<bool>, cols: Seq<bool>)
    ensures
        is_least_uncovered(g, rows, cols, least_uncovered(g, rows, cols)),
{
    if has_uncovered(rows, cols) {
        let (r0, c0) = choose|r: int, c: int|
            0 <= r < rows.len() && 0 <= c < cols.len() && #[trigger] is_uncovered(rows, cols, r, c);
        let t = least_among(g, rows, cols, rows.len() as int, r0, c0);
        lemma_least_among(g, rows, cols, rows.len() as int, r0, c0);
        assert(is_least_uncovered(g, rows, cols, t));
    } else {
        assert(is_least_uncovered(g, rows, cols, 0));
    }
}

/// The least cost of the uncovered cells in one row, starting from `best`.
pub open spec fn least_in_row(
    g: Grid,
    rows: Seq<bool>,
    cols: Seq<bool>,
    r: int,
    upto: int,
    best: int,
) -> int
    decreases upto,
{
    if upto <= 0 {
        best
    } else {
        let rest = least_in_row(g, rows, cols, r, upto - 1, best);
        if is_uncovered(rows, cols, r, upto - 1) && g[r][upto - 1] < rest {
            g[r][upto - 1]
        } else {
            rest
        }
    }
}

/// The least cost of the uncovered cells in the rows below `upto`, starting
/// from the cost of the uncovered cell at (`r0`, `c0`).
pub open spec fn least_among(
    g: Grid,
    rows: Seq<bool>,
    cols: Seq<bool>,
    upto: int,
    r0: int,
    c0: int,
) -> int
    decreases upto,
{
    if upto <= 0 {
        g[r0][c0]
    } else {
        least_in_row(
            g,
            rows,
            cols,
            upto - 1,
            cols.len() as int,
            least_among(g, rows, cols, upto - 1, r0, c0),
        )
    }
}

/// `least_in_row` is `best` or the cost of an uncovered cell of the row, and
/// it is above neither.
pub proof fn lemma_least_in_row(
    g: Grid,
    rows: Seq<bool>,
    cols: Seq<bool>,
    r: int,
    upto: int,
    best: int,
)
    requires
        0 <= upto <= cols.len(),
    ensures
        least_in_row(g, rows, cols, r, upto, best) <= best,
        forall|c: int|
            0 <= c < upto && #[trigger] is_uncovered(rows, cols, r, c) ==> least_in_row(
                g,
                rows,
                cols,
                r,
                upto,
                best,
            ) <= g[r][c],
        least_in_row(g, rows, cols, r, upto, best) == best || exists|c: int|
            0 <= c < upto && #[trigger] is_uncovered(rows, cols, r, c) && g[r][c] == least_in_row(
                g,
                rows,
                cols,
                r,
                upto,
                best,
            ),
    decreases upto,
{
    if upto > 0 {
        lemma_least_in_row(g, rows, cols, r, upto - 1, best);
        let rest = least_in_row(g, rows, cols, r, upto - 1, best);
        let now = least_in_row(g, rows, cols, r, upto, best);
        if now != best {
            if is_uncovered(rows, cols, r, upto - 1) && g[r][upto - 1] < rest {
                assert(is_uncovered(rows, cols, r, upto - 1) && g[r][upto - 1] == now);
            } else {
                let c = choose|c: int|
                    0 <= c < upto - 1 && #[trigger] is_uncovered(rows, cols, r, c) && g[r][c]
                        == rest;
                assert(is_uncovered(rows, cols, r, c) && g[r][c] == now);
            }
        }
    }
}

/// `least_among` is the cost of an uncovered cell and above none of those
/// in the rows it has seen, nor above the one it started from.
pub proof fn lemma_least_among(
    g: Grid,
    rows: Seq<bool>,
    cols: Seq<bool>,
    upto: int,
    r0: int,
    c0: int,
)
    requires
        0 <= upto <= rows.len(),
        0 <= r0 < rows.len(),
        0 <= c0 < cols.len(),
        is_uncovered(rows, cols, r0, c0),
    ensures
        least_among(g, rows, cols, upto, r0, c0) <= g[r0][c0],
        forall|r: int, c: int|
            0 <= r < upto && 0 <= c < cols.len() && #[trigger] is_uncovered(rows, cols, r, c)
                ==> least_among(g, rows, cols, upto, r0, c0) <= g[r][c],
        exists|r: int, c: int|
            0 <= r < rows.len() && 0 <= c < cols.len() && #[trigger] is_uncovered(rows, cols, r, c)
                && g[r][c] == least_among(g, rows, cols, upto, r0, c0),
    decreases upto,
{
    if upto > 0 {
        lemma_least_among(g, rows, cols, upto - 1, r0, c0);
        let best = least_among(g, rows, cols, upto - 1, r0, c0);
        let now = least_among(g, rows, cols, upto, r0, c0);
        lemma_least_in_row(g, rows, cols, upto - 1, cols.len() as int, best);
        if now != best {
            let c = choose|c: int|
                0 <= c < cols.len() && #[trigger] is_uncovered(rows, cols, upto - 1, c) && g[upto
                    - 1][c] == now;
            assert(is_uncovered(rows, cols, upto - 1, c) && g[upto - 1][c] == now);
        }
        assert forall|r: int, c: int|
            0 <= r < upto && 0 <= c < cols.len() && #[trigger] is_uncovered(
                rows,
                cols,
                r,
                c,
            ) implies now <= g[r][c] by {
            if r < upto - 1 {
                assert(best <= g[r][c]);
            }
        }
    } else {
        assert(is_uncovered(rows, cols, r0, c0) && g[r0][c0] == least_among(
            g,
            rows,
            cols,
            upto,
            r0,
            c0,
        ));
    }
}

/// After an adjustment no cell is below zero.
pub proof fn lemma_adjusted_nonnegative(g: Grid, rows: Seq<bool>, cols: Seq<bool>, n: int)
    requires
        is_square(g, n),
        is_nonnegative(g),
        rows.len() == n,
        cols.len() == n,
    ensures
        is_square(adjusted(g, rows, cols), n),
        is_nonnegative(adjusted(g, rows, cols)),
        least_uncovered(g, rows, cols) >= 0,
{
    lemma_least_uncovered_exists(g, rows, cols);
    let t = least_uncovered(g, rows, cols);
    let h = adjusted(g, rows, cols);
    if has_uncovered(rows, cols) {
        let (r0, c0) = choose|r: int, c: int|
            0 <= r < rows.len() && 0 <= c < cols.len() && #[trigger] is_uncovered(rows, cols, r, c)
                && g[r][c] == t;
        assert(g[r0][c0] >= 0);
    }
    assert forall|r: int, c: int| 0 <= r < h.len() && 0 <= c < h[r].len() implies #[trigger] h[r][c]
        >= 0 by {
        assert(g[r][c] >= 0);
        if !rows[r] && !cols[c] {
            assert(is_uncovered(rows, cols, r, c));
        }
    }
}

/// Where some cell is uncovered, an adjustment leaves a zero in an uncovered
/// cell.
pub proof fn lemma_adjusted_exposes_zero(g: Grid, rows: Seq<bool>, cols: Seq<bool>, n: int)
    requires
        is_square(g, n),
        rows.len() == n,
        cols.len() == n,
        has_uncovered(rows, cols),
    ensures
        exists|r: int, c: int|
            0 <= r < n && 0 <= c < n && #[trigger] is_uncovered(rows, cols, r, c) && adjusted(
                g,
                rows,
                cols,
            )[r][c] == 0,
{
    lemma_least_uncovered_exists(g, rows, cols);
    let t = least_uncovered(g, rows, cols);
    let (r0, c0) = choose|r: int, c: int|
        0 <= r < rows.len() && 0 <= c < cols.len() && #[trigger] is_uncovered(rows, cols, r, c)
            && g[r][c] == t;
    assert(is_uncovered(rows, cols, r0, c0) && adjusted(g, rows, cols)[r0][c0] == 0);
}

/// Finds the least cost among the uncovered cells, or zero where every cell
/// is covered.
pub fn find_least_uncovered(m: &CostMatrix, marking: &Marking) -> (least: u64)
    requires
        marking.row_marked.len() == m.dim(),
        marking.col_marked.len() == m.dim(),
    ensures
        least == least_uncovered(m@, marking.row_marked@, marking.col_marked@),
{
    let n = m.size();
    let ghost rows = marking.row_marked@;
    let ghost cols = marking.col_marked@;
    let mut least: Option<u64> = None;
    let mut r: usize = 0;
    while r < n
        invariant
            r <= n,
            n == m.dim(),
            rows == marking.row_marked@,
            cols == marking.col_marked@,
            rows.len() == n,
            cols.len() == n,
            least is None ==> forall|i: int, j: int|
                0 <= i < r && 0 <= j < n ==> !#[trigger] is_uncovered(rows, cols, i, j),
            least matches Some(t) ==> (exists|i: int, j: int|
                0 <= i < n && 0 <= j < n && #[trigger] is_uncovered(rows, cols, i, j) && m@[i][j]
                    == t) && (forall|i: int, j: int|
                0 <= i < r && 0 <= j < n && #[trigger] is_uncovered(rows, cols, i, j) ==> t
                    <= m@[i][j]),
        decreases n - r,
    {
        if !marking.row_marked[r] {
            let mut c: usize = 0;
            while c < n
                invariant
                    c <= n,
                    r < n,
                    n == m.dim(),
                    rows == marking.row_marked@,
                    cols == marking.col_marked@,
                    rows.len() == n,
                    cols.len() == n,
                    !rows[r as int],
                    least is None ==> (forall|i: int, j: int|
                        0 <= i < r && 0 <= j < n ==> !#[trigger] is_uncovered(rows, cols, i, j))
                        && (forall|j: int| 0 <= j < c ==> cols[j]),
                    least matches Some(t) ==> (exists|i: int, j: int|
                        0 <= i < n && 0 <= j < n && #[trigger] is_uncovered(rows, cols, i, j)
                            && m@[i][j] == t) && (forall|i: int, j: int|
                        0 <= i < r && 0 <= j < n && #[trigger] is_uncovered(rows, cols, i, j) ==> t
                            <= m@[i][j]) && (forall|j: int|
                        0 <= j < c && !cols[j] ==> t <= m@[r as int][j]),
                decreases n - c,
            {
                if !marking.col_marked[c] {
                    let cost = m.get(r, c);
                    proof {
                        assert(is_uncovered(rows, cols, r as int, c as int));
                    }
                    match least {
                        None => {
                            least = Some(cost);
                        },
                        Some(t) => {
                            if cost < t {
                                least = Some(cost);
                            }
                        },
                    }
                }
                c += 1;
            }
        }
        r += 1;
    }
    let found = match least {
        Some(t) => t,
        None => 0,
    };
    proof {
        if least is Some {
            let (i, j) = choose|i: int, j: int|
                0 <= i < n && 0 <= j < n && #[trigger] is_uncovered(rows, cols, i, j) && m@[i][j]
                    == found;
            assert(is_uncovered(rows, cols, i, j));
            assert(has_uncovered(rows, cols));
        }
        assert(is_least_uncovered(m@, rows, cols, found as int));
        lemma_least_uncovered(m@, rows, cols, found as int);
    }
    found
}

/// Adjusts the costs for the given covering lines: the least uncovered cost
/// is added where two lines cross and taken off where no line runs. No
/// cost falls below zero, a zero appears where no line runs, and with the
/// lines of the marking the next search finds no fewer independent zeros.
pub fn update_cost(m: &mut CostMatrix, marking: &Marking)
    requires
        marking.row_marked.len() == old(m).dim(),
        marking.col_marked.len() == old(m).dim(),
        forall|r: int, c: int|
            0 <= r < old(m).dim() && 0 <= c < old(m).dim() && marking.row_marked[r]
                && marking.col_marked[c] ==> #[trigger] old(m)@[r][c] + least_uncovered(
                old(m)@,
                marking.row_marked@,
                marking.col_marked@,
            ) <= u64::MAX,
    ensures
        final(m).dim() == old(m).dim(),
        final(m)@ == adjusted(old(m)@, marking.row_marked@, marking.col_marked@),
        least_uncovered(old(m)@, marking.row_marked@, marking.col_marked@) >= 0,
        forall|r: int, c: int|
            0 <= r < old(m).dim() && 0 <= c < old(m).dim() ==> #[trigger] final(m)@[r][c] == old(
                m,
            )@[r][c] + (if marking.row_marked[r] && marking.col_marked[c] {
                least_uncovered(old(m)@, marking.row_marked@, marking.col_marked@)
            } else if !marking.row_marked[r] && !marking.col_marked[c] {
                -least_uncovered(old(m)@, marking.row_marked@, marking.col_marked@)
            } else {
                0
            }),
        is_nonnegative(final(m)@),
        has_uncovered(marking.row_marked@, marking.col_marked@) ==> exists|r: int, c: int|
            0 <= r < old(m).dim() && 0 <= c < old(m).dim() && #[trigger] is_uncovered(
                marking.row_marked@,
                marking.col_marked@,
                r,
                c,
            ) && final(m)@[r][c] == 0,
        marking.row_marked@ == lines_rows(old(m)@) && marking.col_marked@ == lines_cols(old(m)@)
            ==> matched(final(m)@).assigned.len() >= matched(old(m)@).assigned.len(),
{
    let n = m.size();
    proof {
        let g = m@;
        let rows = marking.row_marked@;
        let cols = marking.col_marked@;
        lemma_adjusted_nonnegative(g, rows, cols, n as int);
        if has_uncovered(rows, cols) {
            lemma_adjusted_exposes_zero(g, rows, cols, n as int);
        }
        if rows == lines_rows(g) && cols == lines_cols(g) {
            lemma_cycle_never_loses(g);
        }
    }
    let least = find_least_uncovered(m, marking);
    let ghost before = m@;
    let ghost rows = marking.row_marked@;
    let ghost cols = marking.col_marked@;
    let ghost after = adjusted(before, rows, cols);
    proof {
        lemma_least_uncovered_exists(before, rows, cols);
    }
    let mut r: usize = 0;
    while r < n
        invariant
            r <= n,
            n == m.dim(),
            rows == marking.row_marked@,
            cols == marking.col_marked@,
            rows.len() == n,
            cols.len() == n,
            is_square(before, n as int),
            is_square(m@, n as int),
            after == adjusted(before, rows, cols),
            least == least_uncovered(before, rows, cols),
            is_least_uncovered(before, rows, cols, least as int),
            forall|i: int, j: int|
                0 <= i < n && 0 <= j < n && rows[i] && cols[j] ==> #[trigger] before[i][j] + least
                    <= u64::MAX,
            forall|i: int| 0 <= i < r ==> #[trigger] m@[i] == after[i],
            forall|i: int| r <= i < n ==> #[trigger] m@[i] == before[i],
        decreases n - r,
    {
        let row_marked = marking.row_marked[r];
        let ghost outer = m@;
        let mut c: usize = 0;
        while c < n
            invariant
                c <= n,
                r < n,
                n == m.dim(),
                rows == marking.row_marked@,
                cols == marking.col_marked@,
                rows.len() == n,
                cols.len() == n,
                row_marked == rows[r as int],
                is_square(before, n as int),
                is_square(m@, n as int),
                after == adjusted(before, rows, cols),
                least == least_uncovered(before, rows, cols),
                is_least_uncovered(before, rows, cols, least as int),
                forall|i: int, j: int|
                    0 <= i < n && 0 <= j < n && rows[i] && cols[j] ==> #[trigger] before[i][j]
                        + least <= u64::MAX,
                forall|i: int| 0 <= i < n && i != r ==> #[trigger] m@[i] == outer[i],
                forall|j: int| 0 <= j < c ==> #[trigger] m@[r as int][j] == after[r as int][j],
                forall|j: int| c <= j < n ==> #[trigger] m@[r as int][j] == before[r as int][j],
            decreases n - c,
        {
            let col_marked = marking.col_marked[c];
            if row_marked && col_marked {
                let cost = m.get(r, c);
                assert(before[r as int][c as int] + least <= u64::MAX);
                m.set(r, c, cost + least);
            } else if !row_marked && !col_marked {
                let cost = m.get(r, c);
                proof {
                    assert(is_uncovered(rows, cols, r as int, c as int));
                    assert(has_uncovered(rows, cols));
                }
                m.set(r, c, cost - least);
            }
            c += 1;
        }
        proof {
            assert(m@[r as int] =~= after[r as int]);
        }
        r += 1;
    }
    proof {
        assert(m@ =~= after);
    }
}

} // verus!
