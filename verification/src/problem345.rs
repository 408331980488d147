//! Matrix sum: the assignment problem.
//!
//! The matrix sum of a square matrix is the greatest total of cells with one
//! cell picked in every row and every column. For
//!
//! ```text
//!   7  53 183 439 863
//! 497 383 563  79 973
//! 287  63 343 169 583
//! 627 343 773 959 943
//! 767 473 103 699 303
//! ```
//!
//! it is 3315 = 863 + 383 + 343 + 959 + 767.
//!
//! The solver works on a grid of costs, none below zero. It reduces the
//! grid, then searches for independent zeros and adjusts the costs in turn
//! until the zeros give one cell to every row and column:
//!
//! - `matrix`: the grid and its accessors;
//! - `reduce`: row and column minima taken off, once;
//! - `search`: independent zeros by a two-pass scan;
//! - `augment`: rows that the scan left out look for an alternating trail;
//! - `attempts`: what those attempts do to the assignment, proved;
//! - `marking`: the lines that cover every zero;
//! - `adjust`: the least uncovered cost moved around;
//! - `solver`: the loop, for the least and for the greatest total;
//! - `optimal`, `maximum`, `progress`, `laws`: why the result is a cheapest
//!   assignment, why an incomplete search means that no assignment on zeros
//!   exists, why the loop comes to an end, and what holds from one cycle to
//!   the next;
//! - `cover`: why no cover of the zeros has fewer lines than the marking
//!   draws;
//! - `known`: the matrix sum of the sample, with its proof.

pub mod adjust;
pub mod attempts;
pub mod augment;
pub mod cover;
pub mod known;
pub mod laws;
pub mod marking;
pub mod matrix;
pub mod maximum;
pub mod optimal;
pub mod progress;
pub mod reduce;
pub mod search;
pub mod solver;

pub use crate::problem345::adjust::{find_least_uncovered, update_cost};
pub use crate::problem345::augment::{improve, list_rows, try_row};
pub use crate::problem345::known::sample_sum;
pub use crate::problem345::marking::{mark, Marking};
pub use crate::problem345::matrix::{CostMatrix, SolveError};
pub use crate::problem345::reduce::{reduce, reduce_columns, reduce_rows};
pub use crate::problem345::search::{find_assignment, Found};
pub use crate::problem345::solver::{
    assign_workers, assignment, complemented, matrix_sum, matrix_sum_with, max_assignment,
    max_assignment_with, solve, solve_to_end, solve_within, sum_of_assignments, ULIMIT,
};

use vstd::prelude::*;
use crate::problem345::matrix::grid_of;
use crate::problem345::optimal::{cost_of, is_dearest, is_perfect, lemma_cost_sign};
use crate::problem345::solver::lemma_complement_cost;

verus! {

/// The side length of the sample matrix.
pub const SAMPLE_N: usize = 5;

/// The side length of the problem's matrix.
pub const N: usize = 15;

/// The cells of the sample matrix, row by row.
pub open spec fn sample_cells() -> Seq<i64> {
    seq![
          7,  53, 183, 439, 863,
        497, 383, 563,  79, 973,
        287,  63, 343, 169, 583,
        627, 343, 773, 959, 943,
        767, 473, 103, 699, 303,
    ]
}

/// The cells of the problem's matrix, row by row.
pub open spec fn matrix_cells() -> Seq<i64> {
    seq![
          7,  53, 183, 439, 863, 497, 383, 563,  79, 973, 287,  63, 343, 169, 583,
        627, 343, 773, 959, 943, 767, 473, 103, 699, 303, 957, 703, 583, 639, 913,
        447, 283, 463,  29,  23, 487, 463, 993, 119, 883, 327, 493, 423, 159, 743,
        217, 623,   3, 399, 853, 407, 103, 983,  89, 463, 290, 516, 212, 462, 350,
        960, 376, 682, 962, 300, 780, 486, 502, 912, 800, 250, 346, 172, 812, 350,
        870, 456, 192, 162, 593, 473, 915,  45, 989, 873, 823, 965, 425, 329, 803,
        973, 965, 905, 919, 133, 673, 665, 235, 509, 613, 673, 815, 165, 992, 326,
        322, 148, 972, 962, 286, 255, 941, 541, 265, 323, 925, 281, 601,  95, 973,
        445, 721,  11, 525, 473,  65, 511, 164, 138, 672,  18, 428, 154, 448, 848,
        414, 456, 310, 312, 798, 104, 566, 520, 302, 248, 694, 976, 430, 392, 198,
        184, 829, 373, 181, 631, 101, 969, 613, 840, 740, 778, 458, 284, 760, 390,
        821, 461, 843, 513,  17, 901, 711, 993, 293, 157, 274,  94, 192, 156, 574,
         34, 124,   4, 878, 450, 476, 712, 914, 838, 669, 875, 299, 823, 329, 699,
        815, 559, 813, 459, 522, 788, 168, 586, 966, 232, 308, 833, 251, 631, 107,
        813, 883, 451, 509, 615,  77, 281, 613, 459, 205, 380, 274, 302,  35, 805,
    ]
}

/// The sample matrix: 5×5, row by row.
pub fn sample_matrix() -> (cells: Vec<i64>)
    ensures
        cells@ == sample_cells(),
{
    let cells = vec![
          7,  53, 183, 439, 863,
        497, 383, 563,  79, 973,
        287,  63, 343, 169, 583,
        627, 343, 773, 959, 943,
        767, 473, 103, 699, 303,
    ];
    assert(cells@ =~= sample_cells());
    cells
}

/// The problem's matrix: 15×15, row by row.
pub fn matrix() -> (cells: Vec<i64>)
    ensures
        cells@ == matrix_cells(),
{
    let cells = vec![
          7,  53, 183, 439, 863, 497, 383, 563,  79, 973, 287,  63, 343, 169, 583,
        627, 343, 773, 959, 943, 767, 473, 103, 699, 303, 957, 703, 583, 639, 913,
        447, 283, 463,  29,  23, 487, 463, 993, 119, 883, 327, 493, 423, 159, 743,
        217, 623,   3, 399, 853, 407, 103, 983,  89, 463, 290, 516, 212, 462, 350,
        960, 376, 682, 962, 300, 780, 486, 502, 912, 800, 250, 346, 172, 812, 350,
        870, 456, 192, 162, 593, 473, 915,  45, 989, 873, 823, 965, 425, 329, 803,
        973, 965, 905, 919, 133, 673, 665, 235, 509, 613, 673, 815, 165, 992, 326,
        322, 148, 972, 962, 286, 255, 941, 541, 265, 323, 925, 281, 601,  95, 973,
        445, 721,  11, 525, 473,  65, 511, 164, 138, 672,  18, 428, 154, 448, 848,
        414, 456, 310, 312, 798, 104, 566, 520, 302, 248, 694, 976, 430, 392, 198,
        184, 829, 373, 181, 631, 101, 969, 613, 840, 740, 778, 458, 284, 760, 390,
        821, 461, 843, 513,  17, 901, 711, 993, 293, 157, 274,  94, 192, 156, 574,
         34, 124,   4, 878, 450, 476, 712, 914, 838, 669, 875, 299, 823, 329, 699,
        815, 559, 813, 459, 522, 788, 168, 586, 966, 232, 308, 833, 251, 631, 107,
        813, 883, 451, 509, 615,  77, 281, 613, 459, 205, 380, 274, 302,  35, 805,
    ];
    assert(cells@ =~= matrix_cells());
    cells
}

/// No cell of the problem's matrix is below zero or above the limit.
proof fn lemma_matrix_within()
    ensures
        matrix_cells().len() == N * N,
        forall|i: int| 0 <= i < matrix_cells().len() ==> 0 <= #[trigger] matrix_cells()[i] <= ULIMIT,
{
}

/// The matrix sum of the problem's matrix: the greatest total of fifteen
/// cells, one in every row and every column.
pub fn answer() -> (total: u64)
    ensures
        total == 13938,
        exists|picked: Seq<(usize, usize)>|
            #[trigger] is_perfect(picked, N as int) && is_dearest(
                grid_of(matrix_cells(), N as int),
                picked,
            ) && total == cost_of(grid_of(matrix_cells(), N as int), picked),
{
    let cells = matrix();
    proof {
        known::lemma_matrix_sum();
        lemma_matrix_within();
        assert(solver::limit_error(cells@, N as int, ULIMIT as int) is None);
    }
    match matrix_sum(&cells, N) {
        Ok(sum) => {
            proof {
                let n = N as int;
                let picked = choose|picked: Seq<(usize, usize)>|
                    #[trigger] is_perfect(picked, n) && is_dearest(grid_of(cells@, n), picked)
                        && sum == cost_of(grid_of(cells@, n), picked);
                let g = grid_of(cells@, n);
                let far = grid_of(solver::complement(cells@, ULIMIT as int), n);
                lemma_complement_cost(cells@, n, ULIMIT as int, picked);
                assert(matrix::is_nonnegative(far)) by {
                    assert forall|r: int, c: int|
                        0 <= r < far.len() && 0 <= c < far[r].len() implies #[trigger] far[r][c]
                        >= 0 by {
                        matrix::lemma_offset(n, r, c);
                    }
                }
                assert(matrix::is_nonnegative(g)) by {
                    assert forall|r: int, c: int|
                        0 <= r < g.len() && 0 <= c < g[r].len() implies #[trigger] g[r][c] >= 0 by {
                        matrix::lemma_offset(n, r, c);
                    }
                }
                lemma_cost_sign(far, picked);
                lemma_cost_sign(g, picked);
            }
            sum as u64
        },
        Err(_) => 0,
    }
}

} // verus!
