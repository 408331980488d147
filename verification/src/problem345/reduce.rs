//! Reduction: subtract each row's least cost from the row, then each column's
//! least cost from the column. Run once, before the search begins.

use vstd::prelude::*;
use crate::problem345::matrix::{column, is_nonnegative, is_square, lemma_min_is, CostMatrix, Grid};

verus! {

/// `g` with the least cost of every row taken off that row.
pub open spec fn rows_reduced(g: Grid) -> Grid {
    Seq::new(g.len(), |r: int| Seq::new(g[r].len(), |c: int| g[r][c] - g[r].min()))
}

/// `g` with the least cost of every column taken off that column.
pub open spec fn columns_reduced(g: Grid) -> Grid {
    Seq::new(g.len(), |r: int| Seq::new(g[r].len(), |c: int| g[r][c] - column(g, c).min()))
}

/// The reduced grid: rows first, then the columns of what the rows left.
pub open spec fn reduced(g: Grid) -> Grid {
    columns_reduced(rows_reduced(g))
}

/// Row `r` of `g` holds a zero.
pub open spec fn row_has_zero(g: Grid, r: int) -> bool {
    exists|c: int| 0 <= c < g[r].len() && g[r][c] == 0
}

/// Column `c` of `g` holds a zero.
pub open spec fn column_has_zero(g: Grid, c: int) -> bool {
    exists|r: int| 0 <= r < g.len() && g[r][c] == 0
}

/// Nothing is left to take off: every row and every column holds a zero and
/// no cell is below zero.
pub open spec fn is_reduced(g: Grid) -> bool {
    &&& is_nonnegative(g)
    &&& forall|r: int| 0 <= r < g.len() ==> row_has_zero(g, r)
    &&& forall|c: int| 0 <= c < g.len() ==> column_has_zero(g, c)
}

/// Taking the row minima off leaves a square grid without negative cells in
/// which every row holds a zero.
pub proof fn lemma_rows_reduced(g: Grid, n: int)
    requires
        n >= 1,
        is_square(g, n),
    ensures
        is_square(rows_reduced(g), n),
        is_nonnegative(rows_reduced(g)),
        forall|r: int| 0 <= r < n ==> row_has_zero(rows_reduced(g), r),
{
    let h = rows_reduced(g);
    assert forall|r: int, c: int| 0 <= r < h.len() && 0 <= c < h[r].len() implies #[trigger] h[r][c]
        >= 0 by {
        g[r].min_ensures();
    }
    assert forall|r: int| 0 <= r < n implies row_has_zero(h, r) by {
        g[r].min_ensures();
        let least = g[r].min();
        assert(g[r].contains(least));
        let c = choose|c: int| 0 <= c < g[r].len() && g[r][c] == least;
        assert(h[r][c] == 0);
    }
}

/// Taking the column minima off leaves a square grid without negative cells
/// in which every column holds a zero, and keeps the zeros of a grid that
/// had no negative cell.
pub proof fn lemma_columns_reduced(g: Grid, n: int)
    requires
        n >= 1,
        is_square(g, n),
    ensures
        is_square(columns_reduced(g), n),
        is_nonnegative(columns_reduced(g)),
        forall|c: int| 0 <= c < n ==> column_has_zero(columns_reduced(g), c),
        is_nonnegative(g) ==> forall|r: int, c: int|
            0 <= r < n && 0 <= c < n && g[r][c] == 0 ==> #[trigger] columns_reduced(g)[r][c] == 0,
{
    let h = columns_reduced(g);
    assert forall|r: int, c: int| 0 <= r < h.len() && 0 <= c < h[r].len() implies #[trigger] h[r][c]
        >= 0 by {
        let col = column(g, c);
        col.min_ensures();
        assert(col[r] == g[r][c]);
    }
    assert forall|c: int| 0 <= c < n implies column_has_zero(h, c) by {
        let col = column(g, c);
        col.min_ensures();
        let least = col.min();
        assert(col.contains(least));
        let r = choose|r: int| 0 <= r < col.len() && col[r] == least;
        assert(h[r][c] == 0);
    }
    if is_nonnegative(g) {
        assert forall|r: int, c: int| 0 <= r < n && 0 <= c < n && g[r][c] == 0 implies #[trigger] h[r][c]
            == 0 by {
            let col = column(g, c);
            col.min_ensures();
            assert(col[r] == 0);
            let least = col.min();
            assert(col.contains(least));
            let r0 = choose|r0: int| 0 <= r0 < col.len() && col[r0] == least;
            assert(g[r0][c] >= 0);
        }
    }
}

/// Reduction leaves a reduced grid of the same size.
pub proof fn lemma_reduced_is_reduced(g: Grid, n: int)
    requires
        n >= 1,
        is_square(g, n),
    ensures
        is_square(reduced(g), n),
        is_reduced(reduced(g)),
{
    let h = rows_reduced(g);
    lemma_rows_reduced(g, n);
    lemma_columns_reduced(h, n);
    assert forall|r: int| 0 <= r < n implies row_has_zero(reduced(g), r) by {
        assert(row_has_zero(h, r));
        let c = choose|c: int| 0 <= c < h[r].len() && h[r][c] == 0;
        assert(reduced(g)[r][c] == 0);
    }
}

/// A reduced grid is a fixed point of reduction.
pub proof fn lemma_reduced_is_fixed(g: Grid, n: int)
    requires
        n >= 1,
        is_square(g, n),
        is_reduced(g),
    ensures
        reduced(g) == g,
{
    let h = rows_reduced(g);
    assert forall|r: int| 0 <= r < n implies h[r] =~= g[r] by {
        assert(row_has_zero(g, r));
        let c = choose|c: int| 0 <= c < g[r].len() && g[r][c] == 0;
        assert(g[r].contains(0)) by {
            assert(g[r][c] == 0);
        }
        assert forall|k: int| 0 <= k < g[r].len() implies 0 <= g[r][k] by {
            assert(g[r][k] >= 0);
        }
        lemma_min_is(g[r], 0);
    }
    assert(h =~= g);
    let k = columns_reduced(g);
    assert forall|r: int| 0 <= r < n implies k[r] =~= g[r] by {
        assert forall|c: int| 0 <= c < n implies k[r][c] == g[r][c] by {
            let col = column(g, c);
            assert(column_has_zero(g, c));
            let r0 = choose|r0: int| 0 <= r0 < g.len() && g[r0][c] == 0;
            assert(col[r0] == 0);
            assert forall|j: int| 0 <= j < col.len() implies 0 <= col[j] by {
                assert(g[j][c] >= 0);
            }
            lemma_min_is(col, 0);
        }
    }
    assert(k =~= g);
}

/// Reducing twice gives what reducing once gives.
pub proof fn lemma_reduce_idempotent(g: Grid, n: int)
    requires
        n >= 1,
        is_square(g, n),
    ensures
        reduced(reduced(g)) == reduced(g),
{
    lemma_reduced_is_reduced(g, n);
    lemma_reduced_is_fixed(reduced(g), n);
}

/// Takes the least cost of every row off that row.
pub fn reduce_rows(m: &mut CostMatrix)
    ensures
        final(m).dim() == old(m).dim(),
        final(m)@ == rows_reduced(old(m)@),
{
    let n = m.size();
    let ghost before = m@;
    let mut r: usize = 0;
    while r < n
        invariant
            r <= n,
            n == m.dim(),
            is_square(before, n as int),
            is_square(m@, n as int),
            forall|k: int| 0 <= k < r ==> #[trigger] m@[k] == rows_reduced(before)[k],
            forall|k: int| r <= k < n ==> #[trigger] m@[k] == before[k],
        decreases n - r,
    {
        let least = m.row_min(r);
        let ghost outer = m@;
        let mut c: usize = 0;
        while c < n
            invariant
                c <= n,
                r < n,
                n == m.dim(),
                is_square(before, n as int),
                is_square(m@, n as int),
                least == before[r as int].min(),
                forall|k: int| 0 <= k < n && k != r ==> #[trigger] m@[k] == outer[k],
                forall|j: int| 0 <= j < c ==> #[trigger] m@[r as int][j] == before[r as int][j] - least,
                forall|j: int| c <= j < n ==> #[trigger] m@[r as int][j] == before[r as int][j],
            decreases n - c,
        {
            let cost = m.get(r, c);
            proof {
                before[r as int].min_ensures();
            }
            m.set(r, c, cost - least);
            c += 1;
        }
        proof {
            assert(m@[r as int] =~= rows_reduced(before)[r as int]);
        }
        r += 1;
    }
    proof {
        assert(m@ =~= rows_reduced(before));
    }
}

/// Takes the least cost of every column off that column.
pub fn reduce_columns(m: &mut CostMatrix)
    ensures
        final(m).dim() == old(m).dim(),
        final(m)@ == columns_reduced(old(m)@),
{
    let n = m.size();
    let ghost before = m@;
    let mut c: usize = 0;
    while c < n
        invariant
            c <= n,
            n == m.dim(),
            is_square(before, n as int),
            is_square(m@, n as int),
            forall|i: int, j: int|
                0 <= i < n && 0 <= j < c ==> #[trigger] m@[i][j] == before[i][j] - column(
                    before,
                    j,
                ).min(),
            forall|i: int, j: int| 0 <= i < n && c <= j < n ==> #[trigger] m@[i][j] == before[i][j],
        decreases n - c,
    {
        let least = m.col_min(c);
        let ghost outer = m@;
        proof {
            assert(column(outer, c as int) =~= column(before, c as int));
        }
        let mut r: usize = 0;
        while r < n
            invariant
                r <= n,
                c < n,
                n == m.dim(),
                is_square(before, n as int),
                is_square(outer, n as int),
                is_square(m@, n as int),
                least == column(before, c as int).min(),
                forall|i: int, j: int|
                    0 <= i < n && 0 <= j < n && j != c ==> #[trigger] m@[i][j] == outer[i][j],
                forall|i: int| 0 <= i < r ==> #[trigger] m@[i][c as int] == before[i][c as int] - least,
                forall|i: int| r <= i < n ==> #[trigger] m@[i][c as int] == before[i][c as int],
            decreases n - r,
        {
            let cost = m.get(r, c);
            proof {
                let col = column(before, c as int);
                col.min_ensures();
                assert(col[r as int] == before[r as int][c as int]);
            }
            m.set(r, c, cost - least);
            r += 1;
        }
        c += 1;
    }
    proof {
        let h = columns_reduced(before);
        assert forall|i: int| 0 <= i < n implies m@[i] =~= h[i] by {
            assert forall|j: int| 0 <= j < n implies m@[i][j] == h[i][j] by {}
        }
        assert(m@ =~= h);
    }
}

/// Reduces the matrix: afterwards every row and every column holds a zero
/// and no cell is below zero.
pub fn reduce(m: &mut CostMatrix)
    ensures
        final(m).dim() == old(m).dim(),
        final(m)@ == reduced(old(m)@),
        is_reduced(final(m)@),
{
    let n = m.size();
    proof {
        lemma_reduced_is_reduced(m@, n as int);
    }
    reduce_rows(m);
    reduce_columns(m);
}

} // verus!
