use euler::problem345::{
    assign_workers, assignment, complemented, find_assignment, improve, list_rows, mark, matrix,
    matrix_sum, matrix_sum_with, max_assignment, max_assignment_with, reduce, sample_matrix,
    sample_sum, solve, solve_to_end, solve_within, sum_of_assignments, try_row, update_cost, CostMatrix,
    SolveError, N, SAMPLE_N, ULIMIT,
};

fn grid(m: &CostMatrix) -> Vec<u64> {
    let n = m.size();
    let mut cells = Vec::new();
    for r in 0..n {
        for c in 0..n {
            cells.push(m.get(r, c));
        }
    }
    cells
}

fn cheapest(cells: &[i64], n: usize, row: usize, used: &mut Vec<bool>) -> i128 {
    if row == n {
        return 0;
    }
    let mut best = i128::MAX;
    for c in 0..n {
        if !used[c] {
            used[c] = true;
            let rest = cheapest(cells, n, row + 1, used);
            used[c] = false;
            best = best.min(rest + cells[row * n + c] as i128);
        }
    }
    best
}

fn is_permutation(cells: &[(usize, usize)], n: usize) -> bool {
    let mut rows = vec![false; n];
    let mut cols = vec![false; n];
    if cells.len() != n {
        return false;
    }
    for &(r, c) in cells {
        if r >= n || c >= n || rows[r] || cols[c] {
            return false;
        }
        rows[r] = true;
        cols[c] = true;
    }
    true
}

#[test]
fn matrix_sum_test() {
    let n = SAMPLE_N;
    let max = max_assignment(&mut sample_matrix(), n).unwrap();
    let sum = sum_of_assignments(&sample_matrix(), n, max);
    assert_eq!(sum, 3315);
}

#[test]
fn matrix_sum_of_the_large_matrix() {
    let max = max_assignment(&matrix(), N).unwrap();
    assert!(is_permutation(&max, N));
    assert_eq!(sum_of_assignments(&matrix(), N, max), 13938);
    assert_eq!(euler::problem345::answer(), 13938);
}

#[test]
fn single_cell_is_assigned_to_itself() {
    let cells = vec![5];
    let picked = assignment(&cells, 1).unwrap();
    assert_eq!(picked, vec![(0, 0)]);
    assert_eq!(sum_of_assignments(&cells, 1, picked), 5);
}

#[test]
fn minimum_of_a_small_grid() {
    // rows: a worker each; the cheapest pick is 1 + 2 + 2 = 5 on (0,1), (1,0), (2,2).
    let cells = vec![4, 1, 3, 2, 0, 5, 3, 2, 2];
    let picked = assignment(&cells, 3).unwrap();
    assert!(is_permutation(&picked, 3));
    assert_eq!(sum_of_assignments(&cells, 3, picked), 5);
}

#[test]
fn zero_side_is_an_invalid_dimension() {
    assert_eq!(assignment(&vec![], 0), Err(SolveError::InvalidDimension));
    assert_eq!(max_assignment(&vec![], 0), Err(SolveError::InvalidDimension));
}

#[test]
fn wrong_cell_count_is_an_invalid_dimension() {
    assert_eq!(assignment(&vec![1, 2, 3], 2), Err(SolveError::InvalidDimension));
    assert_eq!(max_assignment(&vec![1, 2, 3, 4, 5], 2), Err(SolveError::InvalidDimension));
    assert!(matches!(CostMatrix::new(&vec![1, 2, 3], 2), Err(SolveError::InvalidDimension)));
}

#[test]
fn dimension_is_judged_before_the_sign() {
    assert_eq!(assignment(&vec![-1, 2, 3], 2), Err(SolveError::InvalidDimension));
}

#[test]
fn negative_cell_is_a_negative_cost() {
    assert_eq!(assignment(&vec![1, 2, -3, 4], 2), Err(SolveError::NegativeCost));
    assert_eq!(max_assignment(&vec![1, 2, -3, 4], 2), Err(SolveError::NegativeCost));
}

#[test]
fn cell_above_the_limit_is_a_negative_cost_for_the_maximum() {
    assert_eq!(max_assignment(&vec![1, 2, 1001, 4], 2), Err(SolveError::NegativeCost));
    assert!(max_assignment(&vec![1, 2, 1000, 4], 2).is_ok());
    assert!(assignment(&vec![1, 2, 1001, 4], 2).is_ok());
}

#[test]
fn rows_left_over_by_the_two_passes_find_a_trail() {
    // The first row takes column 0 in the second pass and the second row
    // column 2, which leaves the third row without a zero; along the trail
    // row 2 - column 0 - row 0 - column 1 all three find a place.
    let cells = vec![0, 0, 1, 0, 1, 0, 0, 1, 0];
    let m = CostMatrix::new(&cells, 3).unwrap();
    let found = find_assignment(&m);
    assert_eq!(found.assigned, vec![(0, 0), (1, 2)]);
    assert_eq!(found.unassigned, vec![2]);
    let better = improve(&m, found);
    assert_eq!(better.assigned, vec![(0, 1), (1, 2), (2, 0)]);
    assert!(better.unassigned.is_empty());
    let picked = assignment(&cells, 3).unwrap();
    assert!(is_permutation(&picked, 3));
    assert_eq!(sum_of_assignments(&cells, 3, picked), 0);
}

#[test]
fn solve_without_adjustments_left_gives_no_assignment() {
    let cells = vec![1, 2, 3, 2, 4, 6, 3, 6, 9];
    let mut m = CostMatrix::new(&cells, 3).unwrap();
    assert_eq!(solve_within(&mut m, 0), Err(SolveError::NoAssignmentFound));
    assert_eq!(grid(&m), vec![0, 0, 0, 0, 1, 2, 0, 2, 4]);
    let picked = assignment(&cells, 3).unwrap();
    assert!(is_permutation(&picked, 3));
    assert_eq!(sum_of_assignments(&cells, 3, picked), 10);
}

#[test]
fn more_adjustments_than_rows_give_no_assignment() {
    let cells = vec![
        21, 79, 42, 87, 33, 0, 0, 0, 1, 0, 106, 391, 210, 435, 166, 196, 728, 393, 813, 308,
        182, 676, 365, 754, 286,
    ];
    assert_eq!(assignment(&cells, 5), Err(SolveError::NoAssignmentFound));
    let mut m = CostMatrix::new(&cells, 5).unwrap();
    let picked = solve_within(&mut m, 6).unwrap();
    assert!(is_permutation(&picked, 5));
    let cost = sum_of_assignments(&cells, 5, picked);
    assert_eq!(cost, cheapest(&cells, 5, 0, &mut vec![false; 5]));
}

#[test]
fn a_cycle_keeps_the_zeros_but_may_leave_a_row_unassigned() {
    let cells = vec![
        0, 1, 0, 5, 2, 5, 2, 3, 5, 1, 4, 0, 1, 4, 2, 1, 5, 4, 0, 4, 2, 5, 0, 5, 2, 4, 2, 1, 2, 1,
        4, 4, 4, 2, 5, 1,
    ];
    let mut m = CostMatrix::new(&cells, 6).unwrap();
    reduce(&mut m);
    let mut unassigned_rows = Vec::new();
    loop {
        let found = find_assignment(&m);
        let found = if found.assigned.len() == 6 { found } else { improve(&m, found) };
        unassigned_rows.push(found.unassigned.len());
        if found.assigned.len() == 6 {
            break;
        }
        let lines = mark(&m, &found.assigned, &found.unassigned);
        update_cost(&mut m, &lines);
        for &(r, c) in &found.assigned {
            assert_eq!(m.get(r, c), 0);
        }
    }
    assert_eq!(unassigned_rows, vec![1, 1, 0]);
}

#[test]
fn cells_are_listed_row_by_row() {
    let m = CostMatrix::new(&vec![4, 1, 3, 2], 2).unwrap();
    assert_eq!(m.to_vec(), vec![4, 1, 3, 2]);
    assert_eq!(m.size(), 2);
}

#[test]
fn solving_to_the_end_always_finds_a_cheapest_assignment() {
    let cells = vec![
        21, 79, 42, 87, 33, 0, 0, 0, 1, 0, 106, 391, 210, 435, 166, 196, 728, 393, 813, 308,
        182, 676, 365, 754, 286,
    ];
    let mut m = CostMatrix::new(&cells, 5).unwrap();
    let picked = solve_to_end(&mut m);
    assert!(is_permutation(&picked, 5));
    for &(r, c) in &picked {
        assert_eq!(m.get(r, c), 0);
    }
    let cost = sum_of_assignments(&cells, 5, picked);
    assert_eq!(cost, cheapest(&cells, 5, 0, &mut vec![false; 5]));
}

#[test]
fn matrix_sum_is_the_greatest_total() {
    assert_eq!(matrix_sum(&sample_matrix(), SAMPLE_N), Ok(3315));
    assert_eq!(matrix_sum(&matrix(), N), Ok(13938));
    assert_eq!(matrix_sum(&vec![5], 1), Ok(5));
    assert_eq!(matrix_sum(&vec![1, 2, 3, 4], 2), Ok(5));
    assert_eq!(matrix_sum(&vec![1, 2, 3], 2), Err(SolveError::InvalidDimension));
    assert_eq!(matrix_sum(&vec![1, 2, 3, 1001], 2), Err(SolveError::NegativeCost));
}

#[test]
fn costs_are_measured_from_the_limit() {
    assert_eq!(complemented(&vec![0, 1, 999, 1000], 2, ULIMIT), Ok(vec![1000, 999, 1, 0]));
    assert_eq!(complemented(&vec![0, 1, 999, -1], 2, ULIMIT), Err(SolveError::NegativeCost));
    assert_eq!(complemented(&vec![0, 1, 999], 2, ULIMIT), Err(SolveError::InvalidDimension));
}

#[test]
fn a_row_takes_a_column_over_from_its_owner() {
    // row 0 owns column 0 and also holds a zero in column 1; row 1 holds
    // its only zero in column 0
    let m = CostMatrix::new(&vec![0, 0, 0, 7], 2).unwrap();
    let mut owner = vec![0, 2];
    let mut seen = vec![false, false];
    assert!(try_row(&m, &mut owner, &mut seen, 1, 2));
    assert_eq!(owner, vec![1, 0]);
    let rows = list_rows(&owner);
    assert_eq!(rows.assigned, vec![(0, 1), (1, 0)]);
    assert!(rows.unassigned.is_empty());
    let free = list_rows(&vec![2, 0]);
    assert_eq!(free.assigned, vec![(0, 1)]);
    assert_eq!(free.unassigned, vec![1]);
}

#[test]
fn assignments_are_cheapest_among_all_permutations() {
    let mut seed: u64 = 12345;
    for n in 1..=5usize {
        for _ in 0..40 {
            let mut cells = Vec::new();
            for _ in 0..n * n {
                seed = seed.wrapping_mul(6364136223846793005).wrapping_add(1442695040888963407);
                cells.push(((seed >> 33) % 30) as i64);
            }
            let picked = assignment(&cells, n).unwrap();
            assert!(is_permutation(&picked, n));
            let cost = sum_of_assignments(&cells, n, picked);
            assert_eq!(cost, cheapest(&cells, n, 0, &mut vec![false; n]));
        }
    }
}

#[test]
fn reduction_leaves_a_zero_in_every_row_and_column() {
    let mut m = CostMatrix::new(&vec![4, 1, 3, 2, 0, 5, 3, 2, 2], 3).unwrap();
    reduce(&mut m);
    assert_eq!(grid(&m), vec![2, 0, 2, 1, 0, 5, 0, 0, 0]);
}

#[test]
fn reduction_twice_is_reduction_once() {
    let mut m = CostMatrix::new(&sample_matrix(), SAMPLE_N).unwrap();
    reduce(&mut m);
    let once = grid(&m);
    reduce(&mut m);
    assert_eq!(grid(&m), once);
}

#[test]
fn row_and_column_minimum() {
    let m = CostMatrix::new(&vec![4, 1, 3, 2, 0, 5, 3, 2, 2], 3).unwrap();
    assert_eq!(m.row_min(0), 1);
    assert_eq!(m.row_min(2), 2);
    assert_eq!(m.col_min(0), 2);
    assert_eq!(m.col_min(2), 2);
}

#[test]
fn set_changes_one_cell() {
    let mut m = CostMatrix::new(&vec![4, 1, 3, 2], 2).unwrap();
    m.set(1, 0, 9);
    assert_eq!(grid(&m), vec![4, 1, 9, 2]);
}

#[test]
fn unique_zero_per_row_needs_no_adjustment() {
    let mut m = CostMatrix::new(&vec![0, 5, 7, 3, 0, 9, 4, 6, 0], 3).unwrap();
    let before = grid(&m);
    let picked = solve(&mut m).unwrap();
    assert_eq!(picked, vec![(0, 0), (1, 1), (2, 2)]);
    assert_eq!(grid(&m), before);
}

#[test]
fn search_defers_rows_with_several_zeros() {
    let m = CostMatrix::new(&vec![0, 0, 1, 0, 1, 1, 1, 1, 0], 3).unwrap();
    let found = find_assignment(&m);
    // row 0 has two zeros and waits; row 1 takes column 0; row 2 column 2;
    // then row 0 is left with column 1.
    assert_eq!(found.assigned, vec![(1, 0), (2, 2), (0, 1)]);
    assert!(found.unassigned.is_empty());
}

#[test]
fn marking_and_adjustment_expose_a_new_zero() {
    // Rows 0 and 1 both have their only zero in column 0.
    let mut m = CostMatrix::new(&vec![0, 3, 0, 2], 2).unwrap();
    let found = find_assignment(&m);
    assert_eq!(found.assigned, vec![(0, 0)]);
    assert_eq!(found.unassigned, vec![1]);
    let lines = mark(&m, &found.assigned, &found.unassigned);
    assert_eq!(lines.row_marked, vec![false, false]);
    assert_eq!(lines.col_marked, vec![true, false]);
    update_cost(&mut m, &lines);
    assert_eq!(grid(&m), vec![0, 1, 0, 0]);
    match assign_workers(&m) {
        Ok(picked) => assert_eq!(picked, vec![(0, 0), (1, 1)]),
        Err(_) => panic!("the adjusted grid has a complete assignment"),
    }
}

#[test]
fn adjustment_adds_where_lines_cross() {
    // 3x3 with zeros only in column 0 of rows 1 and 2, and row 0 at column 1.
    let mut m = CostMatrix::new(&vec![5, 0, 4, 0, 6, 7, 0, 8, 3], 3).unwrap();
    let found = find_assignment(&m);
    assert_eq!(found.assigned, vec![(0, 1), (1, 0)]);
    assert_eq!(found.unassigned, vec![2]);
    let lines = mark(&m, &found.assigned, &found.unassigned);
    assert_eq!(lines.row_marked, vec![true, false, false]);
    assert_eq!(lines.col_marked, vec![true, false, false]);
    update_cost(&mut m, &lines);
    assert_eq!(grid(&m), vec![8, 0, 4, 0, 3, 4, 0, 5, 0]);
}

#[test]
fn the_caller_chooses_the_limit() {
    // costs above 1000 need a limit of their own
    let cells = vec![5000, 1, 2, 7000];
    assert_eq!(max_assignment(&cells, 2), Err(SolveError::NegativeCost));
    assert_eq!(max_assignment_with(&cells, 2, 7000), Ok(vec![(0, 0), (1, 1)]));
    assert_eq!(matrix_sum_with(&cells, 2, 7001), Ok(12000));
    assert_eq!(matrix_sum_with(&cells, 2, i64::MAX), Ok(12000));
    // a cost above the limit is turned down
    assert_eq!(matrix_sum_with(&cells, 2, 6999), Err(SolveError::NegativeCost));
    assert_eq!(max_assignment_with(&cells, 2, -1), Err(SolveError::NegativeCost));
    assert_eq!(complemented(&cells, 2, 7000), Ok(vec![2000, 6999, 6998, 0]));
}

#[test]
fn the_limit_does_not_change_the_assignment() {
    let cells = sample_matrix();
    let with_default = max_assignment(&cells, SAMPLE_N).unwrap();
    assert_eq!(max_assignment_with(&cells, SAMPLE_N, ULIMIT), Ok(with_default.clone()));
    assert_eq!(max_assignment_with(&cells, SAMPLE_N, 973), Ok(with_default.clone()));
    assert_eq!(max_assignment_with(&cells, SAMPLE_N, 1_000_000), Ok(with_default));
    assert_eq!(matrix_sum_with(&cells, SAMPLE_N, 973), Ok(3315));
}

#[test]
fn improving_keeps_assigned_rows_and_leaves_no_free_zero() {
    // rows 0 and 1 both want column 0; row 1 can move to column 1
    let cells = vec![0, 5, 5, 0, 0, 5, 5, 5, 0];
    let m = CostMatrix::new(&cells, 3).unwrap();
    let found = find_assignment(&m);
    let better = improve(&m, found);
    assert_eq!(better.assigned.len() + better.unassigned.len(), 3);
    for &(r, c) in better.assigned.iter() {
        assert_eq!(m.get(r, c), 0);
    }
    for &r in better.unassigned.iter() {
        for c in 0..3 {
            if m.get(r, c) == 0 {
                assert!(better.assigned.iter().any(|&(_, taken)| taken == c));
            }
        }
    }
}

#[test]
fn the_sample_has_the_known_sum() {
    assert_eq!(sample_sum(), 3315);
    assert_eq!(euler::problem345::answer(), 13938);
}
