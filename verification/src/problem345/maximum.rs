//! Why an incomplete search means that the zeros of the grid admit no
//! complete assignment.
//!
//! When a round of attempts places no row, every row without a zero has
//! failed on the owners as they are. The columns that those attempts have
//! looked at are all owned, and they hold every zero of the rows without
//! a zero and of their own owners. A complete assignment on zeros would
//! send these rows into those columns, one each, and so onto their owners,
//! which are fewer.

use vstd::prelude::*;
use vstd::set_lib::{lemma_int_range, lemma_len_subset, set_int_range};
use crate::problem345::adjust::{
    has_uncovered, is_uncovered, least_uncovered, lemma_adjusted_nonnegative,
    lemma_least_uncovered_exists,
};
use crate::problem345::attempts::{
    all_seen, has_column, lemma_all_left, lemma_choices_complete, lemma_free_count,
    lemma_listed_unassigned, lemma_owners_exact, lemma_rounds_settle, lemma_rows_are_free,
    lemma_stable_attempt_fails, lemma_trial_closed, lemma_trial_fails, one_each, owns,
};
use crate::problem345::augment::{
    choices, free_rows, improved, lemma_choices, lemma_free_rows, lemma_listed, lemma_matched,
    lemma_owners, listed, matched, owners, progresses, rounds, trial, unseen, zero_owned, Trial,
};
use crate::problem345::marking::{
    column_reached, is_start, is_trail, lemma_start_reached, lemma_step_reached, linked,
    row_reached,
};
use crate::problem345::matrix::{is_nonnegative, is_square, Grid};
use crate::problem345::optimal::{
    is_arrangement, is_perfect, lemma_arrangement_onto, lemma_perfect_arranges, rows_of,
};
use crate::problem345::search::{
    column_taken, independent_zeros, lemma_search, row_taken, search,
};
use crate::problem345::solver::{
    cycled, is_complete, lines_cols, lines_rows, settle_from, solve_from,
};

verus! {

/// The attempt of the `i`-th row without a column on the owners as they
/// are.
pub open spec fn attempt(g: Grid, owner: Seq<usize>, i: int) -> Trial {
    trial(g, owner, unseen(g.len()), free_rows(owner)[i] as int, 0, g.len())
}

/// The attempt of some row without a column has looked at column `c`.
pub open spec fn is_looked(g: Grid, owner: Seq<usize>, c: int) -> bool {
    exists|i: int| 0 <= i < free_rows(owner).len() && (#[trigger] attempt(g, owner, i)).seen[c]
}

/// Row `x` is without a column, or owns a column that an attempt has
/// looked at.
pub open spec fn is_entered(g: Grid, owner: Seq<usize>, x: int) -> bool {
    ||| exists|i: int| 0 <= i < free_rows(owner).len() && #[trigger] free_rows(owner)[i] == x
    ||| exists|c: int| 0 <= c < g.len() && #[trigger] is_looked(g, owner, c) && owner[c] == x
}

/// The assignment is stable: no row owns two columns, owners hold zeros,
/// and a round of attempts would place no row.
pub open spec fn is_settled(g: Grid, owner: Seq<usize>) -> bool {
    &&& g.len() <= usize::MAX
    &&& zero_owned(g, owner)
    &&& one_each(owner)
    &&& !progresses(g, owner)
}

/// Every zero of an entered row lies in a column that has been looked at,
/// and that column is owned.
pub proof fn lemma_entered_zeros(g: Grid, owner: Seq<usize>, x: int, k: int)
    requires
        is_settled(g, owner),
        0 <= x < g.len(),
        0 <= k < g.len(),
        is_entered(g, owner, x),
        g[x][k] == 0,
    ensures
        is_looked(g, owner, k),
        owner[k] < g.len(),
{
    let n = g.len();
    let fresh = unseen(n);
    lemma_free_rows(owner);
    lemma_rows_are_free(owner);
    lemma_all_left(n);
    if exists|i: int| 0 <= i < free_rows(owner).len() && #[trigger] free_rows(owner)[i] == x {
        let i = choose|i: int| 0 <= i < free_rows(owner).len() && #[trigger] free_rows(owner)[i] == x;
        lemma_stable_attempt_fails(g, owner, i);
        assert(all_seen(owner, fresh, x)) by {
            assert forall|j: int| #[trigger] owns(owner, x, j) implies fresh[j] by {
                assert(has_column(owner, x));
            }
        }
        lemma_trial_fails(g, owner, fresh, x, 0, n);
        assert(attempt(g, owner, i).seen[k]);
        assert(attempt(g, owner, i).seen[k] && !fresh[k]);
    } else {
        let c = choose|c: int| 0 <= c < g.len() && #[trigger] is_looked(g, owner, c) && owner[c] == x;
        let i = choose|i: int|
            0 <= i < free_rows(owner).len() && (#[trigger] attempt(g, owner, i)).seen[c];
        let u = free_rows(owner)[i] as int;
        lemma_stable_attempt_fails(g, owner, i);
        assert(all_seen(owner, fresh, u)) by {
            assert forall|j: int| #[trigger] owns(owner, u, j) implies fresh[j] by {
                assert(has_column(owner, u));
            }
        }
        lemma_trial_fails(g, owner, fresh, u, 0, n);
        lemma_trial_closed(g, owner, fresh, u, 0, n);
        assert(attempt(g, owner, i).seen[c] && !fresh[c] && g[owner[c] as int][k] == 0);
        assert(attempt(g, owner, i).seen[k]);
        assert(attempt(g, owner, i).seen[k] && !fresh[k]);
    }
}

/// The place at which a complete assignment holds row `x`.
pub open spec fn place_of(p: Seq<(usize, usize)>, x: int) -> int {
    choose|k: int| 0 <= k < p.len() && (#[trigger] p[k]).0 == x
}

/// Where every entered row is sent by a complete assignment on zeros: to
/// the owner of the column it is given. Other rows stay.
pub open spec fn sent(g: Grid, owner: Seq<usize>, p: Seq<(usize, usize)>) -> Seq<int> {
    Seq::new(
        g.len(),
        |x: int|
            if is_entered(g, owner, x) {
                owner[p[place_of(p, x)].1 as int] as int
            } else {
                x
            },
    )
}

/// Where a round would place no row and some row is without a column, the
/// zeros of the grid admit no complete assignment.
pub proof fn lemma_settled_has_no_perfect(g: Grid, owner: Seq<usize>, p: Seq<(usize, usize)>)
    requires
        is_settled(g, owner),
        free_rows(owner).len() > 0,
        is_perfect(p, g.len() as int),
    ensures
        !independent_zeros(g, p),
{
    if independent_zeros(g, p) {
        lemma_settled_contradicts(g, owner, p);
        lemma_rows_are_free(owner);
    }
}

/// The rows that a complete assignment on zeros sends onward would have to
/// reach a row without a column, which owns none.
proof fn lemma_settled_contradicts(g: Grid, owner: Seq<usize>, p: Seq<(usize, usize)>)
    requires
        is_settled(g, owner),
        free_rows(owner).len() > 0,
        is_perfect(p, g.len() as int),
        independent_zeros(g, p),
    ensures
        has_column(owner, free_rows(owner)[0] as int),
{
    let n = g.len() as int;
    lemma_perfect_arranges(p, n);
    lemma_free_rows(owner);
    lemma_rows_are_free(owner);
    let h = sent(g, owner, p);
    assert forall|x: int| 0 <= x < n implies 0 <= place_of(p, x) < n && (#[trigger] p[place_of(
        p,
        x,
    )]).0 == x by {
        lemma_arrangement_onto(rows_of(p), n, x);
        let k = choose|k: int| 0 <= k < n && rows_of(p)[k] == x;
        assert(p[k].0 == x);
    }
    assert forall|x: int| 0 <= x < n && is_entered(g, owner, x) implies 0 <= #[trigger] h[x] < n
        && is_entered(g, owner, h[x]) by {
        let k = place_of(p, x);
        assert(p[k].0 == x);
        let c = p[k].1 as int;
        assert(g[x][c] == 0);
        lemma_entered_zeros(g, owner, x, c);
        assert(is_looked(g, owner, c) && owner[c] == h[x]);
    }
    assert forall|a: int, b: int| 0 <= a < b < h.len() implies #[trigger] h[a] != #[trigger] h[b] by {
        if is_entered(g, owner, a) && is_entered(g, owner, b) {
            let ka = place_of(p, a);
            let kb = place_of(p, b);
            assert(p[ka].0 == a);
            assert(p[kb].0 == b);
            let ca = p[ka].1 as int;
            let cb = p[kb].1 as int;
            if h[a] == h[b] {
                assert(owner[ca] < n);
                if ca < cb {
                    assert(owner[ca] != owner[cb]);
                } else if cb < ca {
                    assert(owner[cb] != owner[ca]);
                }
                if ka < kb {
                    assert(p[ka].1 != p[kb].1);
                } else if kb < ka {
                    assert(p[kb].1 != p[ka].1);
                }
            }
        } else if is_entered(g, owner, a) {
            assert(is_entered(g, owner, h[a]));
        } else if is_entered(g, owner, b) {
            assert(is_entered(g, owner, h[b]));
        }
    }
    assert(is_arrangement(h, n));
    let u = free_rows(owner)[0] as int;
    assert(is_entered(g, owner, u));
    lemma_arrangement_onto(h, n, u);
    let x = choose|x: int| 0 <= x < n && h[x] == u;
    let c = p[place_of(p, x)].1 as int;
    assert(is_entered(g, owner, x));
    assert(p[place_of(p, x)].0 == x);
    assert(owns(owner, u, c));
}

/// The rows are listed once each: with a column or as unassigned.
pub proof fn lemma_listed_total(choice: Seq<usize>, upto: int)
    requires
        0 <= upto <= choice.len(),
    ensures
        listed(choice, upto).assigned.len() + listed(choice, upto).unassigned.len() == upto,
    decreases upto,
{
    if upto > 0 {
        lemma_listed_total(choice, upto - 1);
    }
}

/// Where the search for independent zeros is incomplete, the zeros of the
/// grid admit no complete assignment: the independent zeros that were found
/// cannot be bettered to one in every row.
pub proof fn lemma_incomplete_has_no_perfect(g: Grid, p: Seq<(usize, usize)>)
    requires
        g.len() <= usize::MAX,
        !is_complete(g),
        is_perfect(p, g.len() as int),
    ensures
        !independent_zeros(g, p),
{
    let n = g.len() as int;
    lemma_search(g);
    let s = search(g);
    let start = owners(s.assigned, g.len());
    lemma_owners(g, s.assigned);
    lemma_owners_exact(g, s.assigned);
    lemma_free_count(start, g.len());
    lemma_rounds_settle(g, start, g.len());
    let owner = rounds(g, start, g.len());
    assert(matched(g) == improved(g, s));
    lemma_choices(owner, n);
    lemma_listed_total(choices(owner, n), n);
    lemma_settled_has_no_perfect(g, owner, p);
}

/// Where solving fails, the grid on which it stopped still admits no
/// complete assignment on its zeros: the adjustments were used up, not
/// wasted.
pub proof fn lemma_failure_is_honest(g: Grid, cycles: nat, p: Seq<(usize, usize)>)
    requires
        g.len() <= usize::MAX,
        is_square(g, g.len() as int),
        is_nonnegative(g),
        solve_from(g, cycles) is Err,
        is_perfect(p, g.len() as int),
    ensures
        !independent_zeros(settle_from(g, cycles), p),
    decreases cycles,
{
    if is_complete(g) {
    } else if cycles == 0 {
        lemma_incomplete_has_no_perfect(g, p);
    } else {
        lemma_adjusted_nonnegative(g, lines_rows(g), lines_cols(g), g.len() as int);
        lemma_failure_is_honest(cycled(g), (cycles - 1) as nat, p);
    }
}

/// Every row that a trail reaches is entered: it is without a column or
/// owns a column that an attempt has looked at.
pub proof fn lemma_reached_is_entered(g: Grid, owner: Seq<usize>, trail: Seq<int>, i: int)
    requires
        is_settled(g, owner),
        is_trail(
            g,
            listed(choices(owner, g.len() as int), g.len() as int).assigned,
            free_rows(owner),
            trail,
        ),
        0 <= i < trail.len(),
        owner.len() == g.len(),
    ensures
        is_entered(g, owner, trail[i]),
    decreases i,
{
    let n = g.len() as int;
    let rows = listed(choices(owner, n), n);
    if i == 0 {
        let k = choose|k: int| 0 <= k < free_rows(owner).len() && #[trigger] free_rows(owner)[k]
            == trail[0];
        assert(free_rows(owner)[k] == trail[0]);
    } else {
        lemma_reached_is_entered(g, owner, trail, i - 1);
        let from = trail[i - 1];
        let to = trail[i];
        assert(linked(g, rows.assigned, trail[i - 1], trail[i - 1 + 1]));
        let k = choose|k: int|
            0 <= k < rows.assigned.len() && (#[trigger] rows.assigned[k]).0 == to
                && rows.assigned[k].1 < g.len() && g[from][rows.assigned[k].1 as int] == 0;
        let c = rows.assigned[k].1 as int;
        lemma_entered_zeros(g, owner, from, c);
        lemma_choices(owner, n);
        lemma_listed(choices(owner, n), n);
        assert(choices(owner, n)[rows.assigned[k].0 as int] == rows.assigned[k].1);
        assert(owner[c] == to);
        assert(is_looked(g, owner, c) && owner[c] == to);
    }
}

/// Where the search for independent zeros is incomplete, the covering
/// lines and the assigned cells go together one to one: every line through
/// a column holds an assigned cell, every line through a row holds one,
/// and no assigned cell lies under two lines. No cover of the zeros can do
/// with fewer lines.
pub proof fn lemma_lines_hold_assigned(g: Grid)
    requires
        g.len() <= usize::MAX,
        is_square(g, g.len() as int),
        !is_complete(g),
    ensures
        forall|c: int|
            0 <= c < g.len() && #[trigger] lines_cols(g)[c] ==> column_taken(matched(g).assigned, c),
        forall|r: int|
            0 <= r < g.len() && #[trigger] lines_rows(g)[r] ==> row_taken(matched(g).assigned, r),
        forall|i: int|
            0 <= i < matched(g).assigned.len() ==> !(lines_rows(g)[(
            #[trigger] matched(g).assigned[i]).0 as int] && lines_cols(g)[matched(
                g,
            ).assigned[i].1 as int]),
{
    let n = g.len() as int;
    lemma_search(g);
    let s = search(g);
    let start = owners(s.assigned, g.len());
    lemma_owners(g, s.assigned);
    lemma_owners_exact(g, s.assigned);
    lemma_free_count(start, g.len());
    lemma_rounds_settle(g, start, g.len());
    let owner = rounds(g, start, g.len());
    let t = matched(g);
    assert(t == improved(g, s));
    lemma_matched(g);
    lemma_choices(owner, n);
    lemma_listed(choices(owner, n), n);
    let choice = choices(owner, n);
    assert forall|c: int| 0 <= c < n && #[trigger] lines_cols(g)[c] implies column_taken(
        t.assigned,
        c,
    ) by {
        assert(column_reached(g, t.assigned, t.unassigned, c));
        let q = choose|q: int|
            0 <= q < g.len() && #[trigger] row_reached(g, t.assigned, t.unassigned, q) && g[q][c]
                == 0;
        let trail = choose|trail: Seq<int>| #[trigger]
            is_trail(g, t.assigned, t.unassigned, trail) && trail.last() == q;
        lemma_reached_is_entered(g, owner, trail, trail.len() - 1);
        lemma_entered_zeros(g, owner, q, c);
        let y = owner[c] as int;
        lemma_choices_complete(owner, n, y, c);
        let cy = choice[y] as int;
        assert(owner[cy] == y);
        assert(cy == c) by {
            if cy < c {
                assert(owner[cy] != owner[c]);
            } else if c < cy {
                assert(owner[c] != owner[cy]);
            }
        }
        assert(row_taken(t.assigned, y) || t.unassigned.contains(y as usize));
        if t.unassigned.contains(y as usize) {
            lemma_listed_unassigned(choice, n);
            let i = choose|i: int| 0 <= i < t.unassigned.len() && t.unassigned[i] == y as usize;
            assert(choice[t.unassigned[i] as int] >= choice.len());
        }
        let m = choose|m: int| 0 <= m < t.assigned.len() && (#[trigger] t.assigned[m]).0 == y;
        assert(choice[t.assigned[m].0 as int] == t.assigned[m].1);
        assert(t.assigned[m].1 == c);
    }
    assert forall|r: int| 0 <= r < n && #[trigger] lines_rows(g)[r] implies row_taken(
        t.assigned,
        r,
    ) by {
        assert(!row_reached(g, t.assigned, t.unassigned, r));
        assert(row_taken(t.assigned, r) || t.unassigned.contains(r as usize));
        if t.unassigned.contains(r as usize) {
            let i = choose|i: int| 0 <= i < t.unassigned.len() && t.unassigned[i] == r as usize;
            assert(t.unassigned[i] == r);
            assert(is_start(t.unassigned, r));
            lemma_start_reached(g, t.assigned, t.unassigned, r);
        }
    }
    assert forall|i: int| 0 <= i < t.assigned.len() implies !(lines_rows(g)[(
    #[trigger] t.assigned[i]).0 as int] && lines_cols(g)[t.assigned[i].1 as int]) by {
        let r = t.assigned[i].0 as int;
        let c = t.assigned[i].1 as int;
        if lines_cols(g)[c] {
            assert(column_reached(g, t.assigned, t.unassigned, c));
            let q = choose|q: int|
                0 <= q < g.len() && #[trigger] row_reached(g, t.assigned, t.unassigned, q)
                    && g[q][c] == 0;
            assert(linked(g, t.assigned, q, r));
            lemma_step_reached(g, t.assigned, t.unassigned, q, r);
        }
    }
}

/// A list of different numbers below `k` is not longer than `k`.
pub proof fn lemma_room(list: Seq<int>, k: int)
    requires
        k >= 0,
        forall|i: int| 0 <= i < list.len() ==> 0 <= #[trigger] list[i] < k,
        forall|i: int, j: int| 0 <= i < j < list.len() ==> #[trigger] list[i] != #[trigger] list[j],
    ensures
        list.len() <= k,
{
    assert(list.no_duplicates());
    list.unique_seq_to_set();
    lemma_int_range(0, k);
    assert(list.to_set().subset_of(set_int_range(0, k))) by {
        assert forall|y: int| list.to_set().contains(y) implies set_int_range(0, k).contains(y) by {
            assert(list.contains(y));
        }
    }
    lemma_len_subset(list.to_set(), set_int_range(0, k));
}

/// The place of row `y` among the assigned cells.
pub open spec fn place_in(assigned: Seq<(usize, usize)>, y: int) -> int {
    choose|m: int| 0 <= m < assigned.len() && (#[trigger] assigned[m]).0 == y
}

/// The assigned cell that answers for each of the given independent zeros:
/// for a zero in an entered row the cell in its column, for any other the
/// cell in its row.
pub open spec fn answering(
    g: Grid,
    owner: Seq<usize>,
    assigned: Seq<(usize, usize)>,
    zeros: Seq<(usize, usize)>,
) -> Seq<int> {
    Seq::new(
        zeros.len(),
        |i: int|
            if is_entered(g, owner, zeros[i].0 as int) {
                place_in(assigned, owner[zeros[i].1 as int] as int)
            } else {
                place_in(assigned, zeros[i].0 as int)
            },
    )
}

/// No set of independent zeros is larger than the one that the search
/// finds.
pub proof fn lemma_matched_is_maximum(g: Grid, zeros: Seq<(usize, usize)>)
    requires
        g.len() <= usize::MAX,
        independent_zeros(g, zeros),
    ensures
        zeros.len() <= matched(g).assigned.len(),
{
    let n = g.len() as int;
    if is_complete(g) {
        let rows = rows_of(zeros);
        assert forall|i: int, j: int| 0 <= i < j < rows.len() implies #[trigger] rows[i]
            != #[trigger] rows[j] by {
            assert(zeros[i].0 != zeros[j].0);
        }
        lemma_room(rows, n);
    } else {
        lemma_search(g);
        let s = search(g);
        let start = owners(s.assigned, g.len());
        lemma_owners(g, s.assigned);
        lemma_owners_exact(g, s.assigned);
        lemma_free_count(start, g.len());
        lemma_rounds_settle(g, start, g.len());
        let owner = rounds(g, start, g.len());
        let t = matched(g);
        assert(t == improved(g, s));
        lemma_matched(g);
        lemma_choices(owner, n);
        let choice = choices(owner, n);
        lemma_listed(choice, n);
        lemma_listed_unassigned(choice, n);
        let a = t.assigned;
        // every row that owns a column has its place among the assigned cells
        assert forall|y: int| 0 <= y < n && has_column(owner, y) implies 0 <= #[trigger] place_in(
            a,
            y,
        ) < a.len() && a[place_in(a, y)].0 == y by {
            let c = choose|c: int| #[trigger] owns(owner, y, c);
            lemma_choices_complete(owner, n, y, c);
            assert(row_taken(a, y) || t.unassigned.contains(y as usize));
            if t.unassigned.contains(y as usize) {
                let i = choose|i: int| 0 <= i < t.unassigned.len() && t.unassigned[i] == y as usize;
                assert(choice[t.unassigned[i] as int] >= choice.len());
            }
        }
        // the row that answers for each zero, and that it owns a column
        let answer_row = Seq::new(
            zeros.len(),
            |i: int|
                if is_entered(g, owner, zeros[i].0 as int) {
                    owner[zeros[i].1 as int] as int
                } else {
                    zeros[i].0 as int
                },
        );
        assert forall|i: int| 0 <= i < zeros.len() implies 0 <= #[trigger] answer_row[i] < n
            && has_column(owner, answer_row[i]) && (is_entered(g, owner, zeros[i].0 as int)
            ==> is_entered(g, owner, answer_row[i])) by {
            let x = zeros[i].0 as int;
            let c = zeros[i].1 as int;
            if is_entered(g, owner, x) {
                lemma_entered_zeros(g, owner, x, c);
                assert(owns(owner, owner[c] as int, c));
                assert(is_looked(g, owner, c) && owner[c] == answer_row[i]);
            } else {
                assert(row_taken(a, x) || t.unassigned.contains(x as usize));
                if t.unassigned.contains(x as usize) {
                    let k = choose|k: int|
                        0 <= k < t.unassigned.len() && t.unassigned[k] == x as usize;
                    assert(free_rows(owner)[k] == x);
                }
                let m = choose|m: int| 0 <= m < a.len() && (#[trigger] a[m]).0 == x;
                assert(choice[a[m].0 as int] == a[m].1);
                assert(owns(owner, x, a[m].1 as int));
            }
        }
        let f = answering(g, owner, a, zeros);
        assert forall|i: int| 0 <= i < f.len() implies 0 <= #[trigger] f[i] < a.len() by {
            assert(has_column(owner, answer_row[i]));
        }
        assert forall|i: int, j: int| 0 <= i < j < f.len() implies #[trigger] f[i]
            != #[trigger] f[j] by {
            assert(has_column(owner, answer_row[i]));
            assert(has_column(owner, answer_row[j]));
            assert(a[f[i]].0 == answer_row[i]);
            assert(a[f[j]].0 == answer_row[j]);
            let xi = zeros[i].0 as int;
            let xj = zeros[j].0 as int;
            let ci = zeros[i].1 as int;
            let cj = zeros[j].1 as int;
            assert(zeros[i].0 != zeros[j].0 && zeros[i].1 != zeros[j].1);
            if is_entered(g, owner, xi) && is_entered(g, owner, xj) {
                lemma_entered_zeros(g, owner, xi, ci);
                lemma_entered_zeros(g, owner, xj, cj);
                if ci < cj {
                    assert(owner[ci] != owner[cj]);
                } else {
                    assert(owner[cj] != owner[ci]);
                }
            } else if is_entered(g, owner, xi) {
                assert(is_entered(g, owner, answer_row[i]));
            } else if is_entered(g, owner, xj) {
                assert(is_entered(g, owner, answer_row[j]));
            }
        }
        lemma_room(f, a.len() as int);
    }
}

/// Where the search is incomplete, some cell lies under no line, the least
/// cost there is above zero, and the adjustment turns one such cell into a
/// zero: every cycle moves the grid.
pub proof fn lemma_cycle_moves(g: Grid)
    requires
        g.len() <= usize::MAX,
        is_square(g, g.len() as int),
        is_nonnegative(g),
        !is_complete(g),
    ensures
        has_uncovered(lines_rows(g), lines_cols(g)),
        least_uncovered(g, lines_rows(g), lines_cols(g)) > 0,
        exists|r: int, c: int|
            0 <= r < g.len() && 0 <= c < g.len() && #[trigger] is_uncovered(
                lines_rows(g),
                lines_cols(g),
                r,
                c,
            ) && g[r][c] > 0 && cycled(g)[r][c] == 0,
{
    let n = g.len() as int;
    let t = matched(g);
    let rows = lines_rows(g);
    let cols = lines_cols(g);
    lemma_matched(g);
    lemma_lines_hold_assigned(g);
    assert forall|i: int, j: int| 0 <= i < j < t.assigned.len() implies #[trigger] rows_of(
        t.assigned,
    )[i] != #[trigger] rows_of(t.assigned)[j] by {
        assert(t.assigned[i].0 != t.assigned[j].0);
    }
    lemma_room(rows_of(t.assigned), n);
    // a row without a line: one that the search left unassigned
    assert(exists|u: int| 0 <= u < n && !rows[u]) by {
        if forall|u: int| 0 <= u < n ==> rows[u] {
            let all = Seq::new(n as nat, |r: int| place_in(t.assigned, r));
            assert forall|r: int| 0 <= r < n implies 0 <= #[trigger] all[r] < t.assigned.len()
                && t.assigned[all[r]].0 == r by {
                assert(rows[r]);
                assert(row_taken(t.assigned, r));
            }
            assert forall|a: int, b: int| 0 <= a < b < all.len() implies #[trigger] all[a]
                != #[trigger] all[b] by {
                assert(t.assigned[all[a]].0 == a);
                assert(t.assigned[all[b]].0 == b);
            }
            lemma_room(all, t.assigned.len() as int);
        }
    }
    // a column without a line: else every column would hold an assigned cell
    assert(exists|c: int| 0 <= c < n && !cols[c]) by {
        if forall|c: int| 0 <= c < n ==> cols[c] {
            let all = Seq::new(
                n as nat,
                |c: int| choose|k: int| 0 <= k < t.assigned.len() && (#[trigger] t.assigned[k]).1 == c,
            );
            assert forall|c: int| 0 <= c < n implies 0 <= #[trigger] all[c] < t.assigned.len()
                && t.assigned[all[c]].1 == c by {
                assert(cols[c]);
                assert(column_taken(t.assigned, c));
            }
            assert forall|a: int, b: int| 0 <= a < b < all.len() implies #[trigger] all[a]
                != #[trigger] all[b] by {
                assert(t.assigned[all[a]].1 == a);
                assert(t.assigned[all[b]].1 == b);
            }
            lemma_room(all, t.assigned.len() as int);
        }
    }
    let u = choose|u: int| 0 <= u < n && !rows[u];
    let v = choose|c: int| 0 <= c < n && !cols[c];
    assert(is_uncovered(rows, cols, u, v));
    lemma_least_uncovered_exists(g, rows, cols);
    let least = least_uncovered(g, rows, cols);
    let (r, c) = choose|r: int, c: int|
        0 <= r < rows.len() && 0 <= c < cols.len() && #[trigger] is_uncovered(rows, cols, r, c)
            && g[r][c] == least;
    assert(g[r][c] >= 0);
    if g[r][c] == 0 {
        assert(row_reached(g, t.assigned, t.unassigned, r));
        assert(column_reached(g, t.assigned, t.unassigned, c));
    }
    assert(is_uncovered(rows, cols, r, c) && g[r][c] > 0 && cycled(g)[r][c] == 0);
}

} // verus!
