//! What holds of the phases taken together.

use vstd::prelude::*;
use crate::problem345::adjust::lemma_adjusted_nonnegative;
use crate::problem345::augment::{lemma_matched, matched};
use crate::problem345::marking::{column_reached, lemma_step_reached, linked, row_reached};
use crate::problem345::matrix::{is_nonnegative, is_square, Grid, SolveError};
use crate::problem345::maximum::lemma_matched_is_maximum;
use crate::problem345::optimal::{is_arrangement, lemma_arrangement_onto};
use crate::problem345::reduce::{column_has_zero, lemma_reduced_is_reduced, reduced};
use crate::problem345::search::{
    column_taken, first_open, first_pass, independent_zeros, is_open, lemma_first_open,
    open_count, search,
};
use crate::problem345::solver::{cycled, is_complete, lines_cols, lines_rows, settled, solved};

verus! {

/// The covering lines cover every zero.
pub proof fn lemma_lines_cover_zeros(g: Grid, r: int, c: int)
    requires
        is_square(g, g.len() as int),
        0 <= r < g.len(),
        0 <= c < g.len(),
        g[r][c] == 0,
    ensures
        lines_rows(g)[r] || lines_cols(g)[c],
{
    let s = matched(g);
    if row_reached(g, s.assigned, s.unassigned, r) {
        assert(column_reached(g, s.assigned, s.unassigned, c));
    }
}

/// An adjustment cycle leaves every assigned cell a zero: the independent
/// zeros that were found before the cycle are still there after it.
pub proof fn lemma_cycle_keeps_assigned(g: Grid, i: int)
    requires
        is_square(g, g.len() as int),
        g.len() <= usize::MAX,
        0 <= i < matched(g).assigned.len(),
    ensures
        cycled(g)[matched(g).assigned[i].0 as int][matched(g).assigned[i].1 as int] == 0,
{
    let s = matched(g);
    lemma_matched(g);
    let r = s.assigned[i].0 as int;
    let c = s.assigned[i].1 as int;
    assert(g[r][c] == 0);
    if row_reached(g, s.assigned, s.unassigned, r) {
        assert(column_reached(g, s.assigned, s.unassigned, c));
    } else {
        if column_reached(g, s.assigned, s.unassigned, c) {
            let q = choose|q: int|
                0 <= q < g.len() && #[trigger] row_reached(g, s.assigned, s.unassigned, q)
                    && g[q][c] == 0;
            assert(linked(g, s.assigned, q, r));
            lemma_step_reached(g, s.assigned, s.unassigned, q, r);
        }
    }
}

/// The independent zeros found before an adjustment cycle are independent
/// zeros of the grid after it: a cycle never lowers the number of
/// independent zeros that the grid holds.
pub proof fn lemma_cycle_keeps_independent_zeros(g: Grid)
    requires
        is_square(g, g.len() as int),
        g.len() <= usize::MAX,
    ensures
        independent_zeros(cycled(g), matched(g).assigned),
{
    lemma_matched(g);
    let a = matched(g).assigned;
    assert forall|i: int| 0 <= i < a.len() implies (#[trigger] a[i]).0 < cycled(g).len() && a[i].1
        < cycled(g).len() && cycled(g)[a[i].0 as int][a[i].1 as int] == 0 by {
        lemma_cycle_keeps_assigned(g, i);
    }
}

/// After an adjustment cycle the search finds at least as many independent
/// zeros as before it: the number of rows left unassigned never rises.
pub proof fn lemma_cycle_never_loses(g: Grid)
    requires
        is_square(g, g.len() as int),
        is_nonnegative(g),
        g.len() <= usize::MAX,
    ensures
        cycled(g).len() == g.len(),
        matched(cycled(g)).assigned.len() >= matched(g).assigned.len(),
{
    lemma_adjusted_nonnegative(g, lines_rows(g), lines_cols(g), g.len() as int);
    lemma_cycle_keeps_independent_zeros(g);
    lemma_matched_is_maximum(cycled(g), matched(g).assigned);
}

/// Row `r` of `g` holds its only zero in column `c`.
pub open spec fn is_only_zero(g: Grid, r: int, c: int) -> bool {
    &&& 0 <= c < g.len()
    &&& g[r][c] == 0
    &&& forall|j: int| 0 <= j < g.len() && #[trigger] g[r][j] == 0 ==> j == c
}

/// Row `r` of `g` holds exactly one zero.
pub open spec fn has_only_zero(g: Grid, r: int) -> bool {
    exists|c: int| #[trigger] is_only_zero(g, r, c)
}

/// Every row of `g` holds exactly one zero.
pub open spec fn has_unique_zeros(g: Grid) -> bool {
    forall|r: int| 0 <= r < g.len() ==> #[trigger] has_only_zero(g, r)
}

/// The column of the only zero of row `r`.
pub open spec fn zero_of(g: Grid, r: int) -> int {
    choose|c: int| is_only_zero(g, r, c)
}

/// The assignment of every row below `k` to its only zero.
pub open spec fn only_zeros(g: Grid, k: int) -> Seq<(usize, usize)> {
    Seq::new(k as nat, |r: int| (r as usize, zero_of(g, r) as usize))
}

/// Where every row holds one zero and every column holds a zero, no two
/// rows hold their zero in the same column.
pub proof fn lemma_zeros_apart(g: Grid, r1: int, r2: int)
    requires
        is_square(g, g.len() as int),
        has_unique_zeros(g),
        forall|c: int| 0 <= c < g.len() ==> column_has_zero(g, c),
        0 <= r1 < g.len(),
        0 <= r2 < g.len(),
        zero_of(g, r1) == zero_of(g, r2),
    ensures
        r1 == r2,
{
    let n = g.len() as int;
    // a row with a zero in each column: no row serves two columns
    let rows = Seq::new(n as nat, |c: int| choose|r: int| 0 <= r < g.len() && g[r][c] == 0);
    assert forall|c: int| 0 <= c < n implies 0 <= #[trigger] rows[c] < n && g[rows[c]][c] == 0
        && zero_of(g, rows[c]) == c by {
        assert(column_has_zero(g, c));
        let r = rows[c];
        assert(has_only_zero(g, r));
        assert(is_only_zero(g, r, zero_of(g, r)));
    }
    assert forall|a: int, b: int| 0 <= a < b < rows.len() implies #[trigger] rows[a]
        != #[trigger] rows[b] by {
        assert(zero_of(g, rows[a]) == a);
        assert(zero_of(g, rows[b]) == b);
    }
    assert(is_arrangement(rows, n));
    lemma_arrangement_onto(rows, n, r1);
    lemma_arrangement_onto(rows, n, r2);
    let c1 = choose|c: int| 0 <= c < n && rows[c] == r1;
    let c2 = choose|c: int| 0 <= c < n && rows[c] == r2;
    assert(zero_of(g, rows[c1]) == c1);
    assert(zero_of(g, rows[c2]) == c2);
}

/// A row with a single open zero counts one, and that zero is its first.
pub proof fn lemma_single_open(g: Grid, assigned: Seq<(usize, usize)>, r: int, c: int, upto: int)
    requires
        0 <= c < g.len(),
        0 <= upto <= g.len(),
        is_open(g, assigned, r, c),
        forall|j: int| 0 <= j < g.len() && is_open(g, assigned, r, j) ==> j == c,
    ensures
        open_count(g, assigned, r, upto) == if c < upto {
            1int
        } else {
            0int
        },
        first_open(g, assigned, r, 0) == c,
    decreases upto,
{
    if upto > 0 {
        lemma_single_open(g, assigned, r, c, upto - 1);
    }
    lemma_first_open(g, assigned, r, 0);
}

/// Where every row holds one zero and every column holds a zero, the first
/// pass assigns every row it has seen to its only zero and puts none off.
pub proof fn lemma_first_pass_takes_all(g: Grid, k: int)
    requires
        is_square(g, g.len() as int),
        g.len() <= usize::MAX,
        has_unique_zeros(g),
        forall|c: int| 0 <= c < g.len() ==> column_has_zero(g, c),
        0 <= k <= g.len(),
    ensures
        first_pass(g, k).assigned == only_zeros(g, k),
        first_pass(g, k).deferred.len() == 0,
        first_pass(g, k).unassigned.len() == 0,
    decreases k,
{
    if k > 0 {
        lemma_first_pass_takes_all(g, k - 1);
        let before = only_zeros(g, k - 1);
        let r = k - 1;
        assert(has_only_zero(g, r));
        let c = zero_of(g, r);
        assert(is_only_zero(g, r, c));
        if column_taken(before, c) {
            let i = choose|i: int| 0 <= i < before.len() && (#[trigger] before[i]).1 == c;
            assert(has_only_zero(g, i));
            assert(is_only_zero(g, i, zero_of(g, i)));
            lemma_zeros_apart(g, i, r);
        }
        assert(is_open(g, before, r, c));
        lemma_single_open(g, before, r, c, g.len() as int);
        assert(first_pass(g, k).assigned =~= only_zeros(g, k));
    } else {
        assert(first_pass(g, k).assigned =~= only_zeros(g, k));
    }
}

/// A grid that after its reduction holds exactly one zero in every row is
/// solved by the first pass of the first search alone: every row is
/// assigned to its only zero, no row is put off, and no adjustment is made.
pub proof fn lemma_unique_zeros_need_no_cycle(g: Grid)
    requires
        g.len() >= 1,
        g.len() <= usize::MAX,
        is_square(g, g.len() as int),
        has_unique_zeros(reduced(g)),
    ensures
        first_pass(reduced(g), g.len() as int).assigned == only_zeros(reduced(g), g.len() as int),
        first_pass(reduced(g), g.len() as int).deferred.len() == 0,
        solved(g) == Ok::<Seq<(usize, usize)>, SolveError>(
            only_zeros(reduced(g), g.len() as int),
        ),
        settled(g) == reduced(g),
{
    let n = g.len() as int;
    let h = reduced(g);
    lemma_reduced_is_reduced(g, n);
    lemma_first_pass_takes_all(h, n);
    assert(search(h) == first_pass(h, n));
    assert(matched(h) == search(h));
    assert(is_complete(h));
}

} // verus!
