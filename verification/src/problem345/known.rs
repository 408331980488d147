//! The matrix sums of the sample matrix and of the problem's matrix, 3315
//! and 13938, each shown by a certificate: an assignment with that total,
//! and a number for every row and every column such that no cost, measured
//! from the limit, is below the sum of the numbers of its row and its
//! column, while at the assigned cells the two are equal.

use vstd::prelude::*;
use crate::problem345::matrix::{grid_of, is_nonnegative, is_square, lemma_offset, Grid};
use crate::problem345::optimal::{
    cost_of, is_cheapest, is_dearest, is_perfect, lemma_zeros_are_cheapest,
};
use crate::problem345::search::independent_zeros;
use crate::problem345::solver::{
    complement, is_shifted, lemma_complement_dearest, matrix_sum, ULIMIT,
};
use crate::problem345::{matrix_cells, sample_cells, sample_matrix, SAMPLE_N};

verus! {

/// What is taken off the rows of the sample's costs, measured from the
/// limit.
pub open spec fn sample_rows() -> Seq<int> {
    seq![727, 617, 837, 207, 357]
}

/// What is taken off the columns.
pub open spec fn sample_columns() -> Seq<int> {
    seq![-124, 0, -180, -166, -590]
}

/// The assignment of the sample with the greatest total.
pub open spec fn sample_assignment() -> Seq<(usize, usize)> {
    seq![(0usize, 4usize), (1usize, 1usize), (2usize, 2usize), (3usize, 3usize), (4usize, 0usize)]
}

/// The costs of the sample, measured from the limit, less what is taken
/// off their rows and columns.
pub open spec fn sample_slack() -> Grid {
    Seq::new(
        5,
        |r: int|
            Seq::new(
                5,
                |c: int| ULIMIT - sample_cells()[r * 5 + c] - sample_rows()[r] - sample_columns()[c],
            ),
    )
}

/// Nothing is left below zero, and nothing at all at the assigned cells.
proof fn lemma_sample_slack()
    ensures
        is_nonnegative(sample_slack()),
        independent_zeros(sample_slack(), sample_assignment()),
        is_perfect(sample_assignment(), 5),
{
    let g = sample_slack();
    assert forall|r: int, c: int| 0 <= r < g.len() && 0 <= c < g[r].len() implies #[trigger] g[r][c]
        >= 0 by {
        if r == 0 {
        } else if r == 1 {
        } else if r == 2 {
        } else if r == 3 {
        } else {
        }
    }
}

/// The assignment of the sample has the greatest total, 3315, and so has
/// every assignment with the greatest total.
pub proof fn lemma_sample_sum()
    ensures
        is_perfect(sample_assignment(), 5),
        is_dearest(grid_of(sample_cells(), 5), sample_assignment()),
        forall|picked: Seq<(usize, usize)>|
            is_perfect(picked, 5) && #[trigger] is_dearest(grid_of(sample_cells(), 5), picked)
                ==> cost_of(grid_of(sample_cells(), 5), picked) == 3315,
{
    let cells = sample_cells();
    let costs = grid_of(cells, 5);
    let far = grid_of(complement(cells, ULIMIT as int), 5);
    let g = sample_slack();
    let best = sample_assignment();
    lemma_sample_slack();
    assert(is_shifted(g, far, sample_rows(), sample_columns())) by {
        assert forall|r: int, c: int| 0 <= r < 5 && 0 <= c < 5 implies #[trigger] g[r][c]
            == far[r][c] - sample_rows()[r] - sample_columns()[c] by {
            lemma_offset(5, r, c);
        }
    }
    lemma_zeros_are_cheapest(g, far, sample_rows(), sample_columns(), best);
    lemma_complement_dearest(cells, 5, ULIMIT as int, best);
    assert(cost_of(costs, best) == 3315) by {
        reveal_with_fuel(cost_of, 6);
        assert(best.drop_last() =~= seq![
            (0usize, 4usize),
            (1usize, 1usize),
            (2usize, 2usize),
            (3usize, 3usize),
        ]);
        assert(best.drop_last().drop_last() =~= seq![
            (0usize, 4usize),
            (1usize, 1usize),
            (2usize, 2usize),
        ]);
        assert(best.drop_last().drop_last().drop_last() =~= seq![
            (0usize, 4usize),
            (1usize, 1usize),
        ]);
        assert(best.drop_last().drop_last().drop_last().drop_last() =~= seq![(0usize, 4usize)]);
    }
    assert forall|picked: Seq<(usize, usize)>|
        is_perfect(picked, 5) && #[trigger] is_dearest(costs, picked) implies cost_of(costs, picked)
        == 3315 by {
        assert(is_perfect(best, costs.len() as int));
        assert(is_perfect(picked, costs.len() as int));
    }
}

/// The matrix sum of the sample matrix: 3315.
pub fn sample_sum() -> (total: i128)
    ensures
        total == 3315,
{
    let cells = sample_matrix();
    proof {
        lemma_sample_sum();
        assert(crate::problem345::solver::limit_error(cells@, 5, ULIMIT as int) is None);
    }
    match matrix_sum(&cells, SAMPLE_N) {
        Ok(sum) => sum,
        Err(_) => 0,
    }
}

/// What is taken off the rows of the problem's costs, measured from the
/// limit.
pub open spec fn matrix_rows() -> Seq<int> {
    seq![85, 95, 175, 185, 93, 183, 8, 47, 172, 172, 129, 99, 177, 206, 117]
}

/// What is taken off the columns.
pub open spec fn matrix_columns() -> Seq<int> {
    seq![-53, 0, -19, -55, -38, 0, -98, -168, -172, -58, -52, -148, 0, 0, -20]
}

/// The assignment of the problem's matrix with the greatest total.
pub open spec fn matrix_assignment() -> Seq<(usize, usize)> {
    seq![
        (0usize, 9usize),
        (1usize, 10usize),
        (2usize, 7usize),
        (3usize, 4usize),
        (4usize, 3usize),
        (5usize, 0usize),
        (6usize, 13usize),
        (7usize, 2usize),
        (8usize, 14usize),
        (9usize, 11usize),
        (10usize, 6usize),
        (11usize, 5usize),
        (12usize, 12usize),
        (13usize, 8usize),
        (14usize, 1usize),
    ]
}

/// The costs of the problem's matrix, measured from the limit, less what
/// is taken off their rows and columns.
pub open spec fn matrix_slack() -> Grid {
    Seq::new(
        15,
        |r: int|
            Seq::new(
                15,
                |c: int| ULIMIT - matrix_cells()[r * 15 + c] - matrix_rows()[r] - matrix_columns()[c],
            ),
    )
}

/// Nothing is left below zero, and nothing at all at the assigned cells.
proof fn lemma_matrix_slack()
    ensures
        is_nonnegative(matrix_slack()),
        independent_zeros(matrix_slack(), matrix_assignment()),
        is_perfect(matrix_assignment(), 15),
{
    let g = matrix_slack();
    assert forall|r: int, c: int| 0 <= r < g.len() && 0 <= c < g[r].len() implies #[trigger] g[r][c]
        >= 0 by {
        if r == 0 {
        } else if r == 1 {
        } else if r == 2 {
        } else if r == 3 {
        } else if r == 4 {
        } else if r == 5 {
        } else if r == 6 {
        } else if r == 7 {
        } else if r == 8 {
        } else if r == 9 {
        } else if r == 10 {
        } else if r == 11 {
        } else if r == 12 {
        } else if r == 13 {
        } else {
        }
    }
}

/// The total of the assignment of the problem's matrix.
proof fn lemma_matrix_total()
    ensures
        cost_of(grid_of(matrix_cells(), 15), matrix_assignment()) == 13938,
{
    let best = matrix_assignment();
    reveal_with_fuel(cost_of, 16);
    assert(best.drop_last() =~= seq![
        (0usize, 9usize),
        (1usize, 10usize),
        (2usize, 7usize),
        (3usize, 4usize),
        (4usize, 3usize),
        (5usize, 0usize),
        (6usize, 13usize),
        (7usize, 2usize),
        (8usize, 14usize),
        (9usize, 11usize),
        (10usize, 6usize),
        (11usize, 5usize),
        (12usize, 12usize),
        (13usize, 8usize),
    ]);
    assert(best.drop_last().drop_last() =~= seq![
        (0usize, 9usize),
        (1usize, 10usize),
        (2usize, 7usize),
        (3usize, 4usize),
        (4usize, 3usize),
        (5usize, 0usize),
        (6usize, 13usize),
        (7usize, 2usize),
        (8usize, 14usize),
        (9usize, 11usize),
        (10usize, 6usize),
        (11usize, 5usize),
        (12usize, 12usize),
    ]);
    assert(best.drop_last().drop_last().drop_last() =~= seq![
        (0usize, 9usize),
        (1usize, 10usize),
        (2usize, 7usize),
        (3usize, 4usize),
        (4usize, 3usize),
        (5usize, 0usize),
        (6usize, 13usize),
        (7usize, 2usize),
        (8usize, 14usize),
        (9usize, 11usize),
        (10usize, 6usize),
        (11usize, 5usize),
    ]);
    assert(best.drop_last().drop_last().drop_last().drop_last() =~= seq![
        (0usize, 9usize),
        (1usize, 10usize),
        (2usize, 7usize),
        (3usize, 4usize),
        (4usize, 3usize),
        (5usize, 0usize),
        (6usize, 13usize),
        (7usize, 2usize),
        (8usize, 14usize),
        (9usize, 11usize),
        (10usize, 6usize),
    ]);
    assert(best.drop_last().drop_last().drop_last().drop_last().drop_last() =~= seq![
        (0usize, 9usize),
        (1usize, 10usize),
        (2usize, 7usize),
        (3usize, 4usize),
        (4usize, 3usize),
        (5usize, 0usize),
        (6usize, 13usize),
        (7usize, 2usize),
        (8usize, 14usize),
        (9usize, 11usize),
    ]);
    assert(best.drop_last().drop_last().drop_last().drop_last().drop_last().drop_last() =~= seq![
        (0usize, 9usize),
        (1usize, 10usize),
        (2usize, 7usize),
        (3usize, 4usize),
        (4usize, 3usize),
        (5usize, 0usize),
        (6usize, 13usize),
        (7usize, 2usize),
        (8usize, 14usize),
    ]);
    assert(best.drop_last().drop_last().drop_last().drop_last().drop_last().drop_last().drop_last() =~= seq![
        (0usize, 9usize),
        (1usize, 10usize),
        (2usize, 7usize),
        (3usize, 4usize),
        (4usize, 3usize),
        (5usize, 0usize),
        (6usize, 13usize),
        (7usize, 2usize),
    ]);
    assert(best.drop_last().drop_last().drop_last().drop_last().drop_last().drop_last().drop_last().drop_last() =~= seq![
        (0usize, 9usize),
        (1usize, 10usize),
        (2usize, 7usize),
        (3usize, 4usize),
        (4usize, 3usize),
        (5usize, 0usize),
        (6usize, 13usize),
    ]);
    assert(best.drop_last().drop_last().drop_last().drop_last().drop_last().drop_last().drop_last().drop_last().drop_last() =~= seq![
        (0usize, 9usize),
        (1usize, 10usize),
        (2usize, 7usize),
        (3usize, 4usize),
        (4usize, 3usize),
        (5usize, 0usize),
    ]);
    assert(best.drop_last().drop_last().drop_last().drop_last().drop_last().drop_last().drop_last().drop_last().drop_last().drop_last() =~= seq![
        (0usize, 9usize),
        (1usize, 10usize),
        (2usize, 7usize),
        (3usize, 4usize),
        (4usize, 3usize),
    ]);
    assert(best.drop_last().drop_last().drop_last().drop_last().drop_last().drop_last().drop_last().drop_last().drop_last().drop_last().drop_last() =~= seq![
        (0usize, 9usize),
        (1usize, 10usize),
        (2usize, 7usize),
        (3usize, 4usize),
    ]);
    assert(best.drop_last().drop_last().drop_last().drop_last().drop_last().drop_last().drop_last().drop_last().drop_last().drop_last().drop_last().drop_last() =~= seq![
        (0usize, 9usize),
        (1usize, 10usize),
        (2usize, 7usize),
    ]);
    assert(best.drop_last().drop_last().drop_last().drop_last().drop_last().drop_last().drop_last().drop_last().drop_last().drop_last().drop_last().drop_last().drop_last() =~= seq![
        (0usize, 9usize),
        (1usize, 10usize),
    ]);
    assert(best.drop_last().drop_last().drop_last().drop_last().drop_last().drop_last().drop_last().drop_last().drop_last().drop_last().drop_last().drop_last().drop_last().drop_last() =~= seq![
        (0usize, 9usize),
    ]);
}

/// The assignment of the problem's matrix has the greatest total, 13938,
/// and so has every assignment with the greatest total.
pub proof fn lemma_matrix_sum()
    ensures
        is_perfect(matrix_assignment(), 15),
        is_dearest(grid_of(matrix_cells(), 15), matrix_assignment()),
        forall|picked: Seq<(usize, usize)>|
            is_perfect(picked, 15) && #[trigger] is_dearest(grid_of(matrix_cells(), 15), picked)
                ==> cost_of(grid_of(matrix_cells(), 15), picked) == 13938,
{
    let cells = matrix_cells();
    let costs = grid_of(cells, 15);
    let far = grid_of(complement(cells, ULIMIT as int), 15);
    let g = matrix_slack();
    let best = matrix_assignment();
    lemma_matrix_slack();
    lemma_matrix_total();
    assert(is_shifted(g, far, matrix_rows(), matrix_columns())) by {
        assert forall|r: int, c: int| 0 <= r < 15 && 0 <= c < 15 implies #[trigger] g[r][c]
            == far[r][c] - matrix_rows()[r] - matrix_columns()[c] by {
            lemma_offset(15, r, c);
        }
    }
    lemma_zeros_are_cheapest(g, far, matrix_rows(), matrix_columns(), best);
    lemma_complement_dearest(cells, 15, ULIMIT as int, best);
    assert forall|picked: Seq<(usize, usize)>|
        is_perfect(picked, 15) && #[trigger] is_dearest(costs, picked) implies cost_of(
        costs,
        picked,
    ) == 13938 by {
        assert(is_perfect(best, costs.len() as int));
        assert(is_perfect(picked, costs.len() as int));
    }
}

} // verus!
