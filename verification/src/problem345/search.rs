//! The search for independent zeros: one zero per row and per column, as
//! many as a two-pass scan finds.
//!
//! A zero is crossed out once another zero of its column has been assigned;
//! the scan keeps that as one flag per column. Rows are scanned in ascending
//! order and, within a row, columns in ascending order.

use vstd::prelude::*;
use crate::problem345::matrix::{CostMatrix, Grid};

verus! {

/// What a search has settled so far.
pub struct Search {
    /// The assigned cells, as (row, column), in the order they were found.
    pub assigned: Seq<(usize, usize)>,
    /// The rows put off to the second pass, ascending.
    pub deferred: Seq<usize>,
    /// The rows that were left without a zero.
    pub unassigned: Seq<usize>,
}

/// Some assigned cell lies in column `c`.
pub open spec fn column_taken(assigned: Seq<(usize, usize)>, c: int) -> bool {
    exists|k: int| 0 <= k < assigned.len() && (#[trigger] assigned[k]).1 == c
}

/// Some assigned cell lies in row `r`.
pub open spec fn row_taken(assigned: Seq<(usize, usize)>, r: int) -> bool {
    exists|k: int| 0 <= k < assigned.len() && (#[trigger] assigned[k]).0 == r
}

/// The cell at (`r`, `c`) is a zero that has not been crossed out.
pub open spec fn is_open(g: Grid, assigned: Seq<(usize, usize)>, r: int, c: int) -> bool {
    g[r][c] == 0 && !column_taken(assigned, c)
}

/// How many open zeros row `r` holds in the columns below `upto`.
pub open spec fn open_count(g: Grid, assigned: Seq<(usize, usize)>, r: int, upto: int) -> int
    decreases upto,
{
    if upto <= 0 {
        0
    } else {
        open_count(g, assigned, r, upto - 1) + if is_open(g, assigned, r, upto - 1) {
            1int
        } else {
            0int
        }
    }
}

/// The first column from `from` on in which row `r` holds an open zero, or
/// the side length if there is none.
pub open spec fn first_open(g: Grid, assigned: Seq<(usize, usize)>, r: int, from: int) -> int
    decreases g.len() - from,
{
    if from >= g.len() {
        g.len() as int
    } else if is_open(g, assigned, r, from) {
        from
    } else {
        first_open(g, assigned, r, from + 1)
    }
}

/// The state after the first pass has seen the rows below `rows`: a row with
/// exactly one open zero is assigned there, a row with none is left
/// unassigned, a row with several is put off.
pub open spec fn first_pass(g: Grid, rows: int) -> Search
    decreases rows,
{
    if rows <= 0 {
        Search { assigned: Seq::empty(), deferred: Seq::empty(), unassigned: Seq::empty() }
    } else {
        let s = first_pass(g, rows - 1);
        let r = rows - 1;
        let count = open_count(g, s.assigned, r, g.len() as int);
        if count == 0 {
            Search { unassigned: s.unassigned.push(r as usize), ..s }
        } else if count == 1 {
            Search {
                assigned: s.assigned.push((r as usize, first_open(g, s.assigned, r, 0) as usize)),
                ..s
            }
        } else {
            Search { deferred: s.deferred.push(r as usize), ..s }
        }
    }
}

/// The state after the second pass has seen the first `k` of the rows that
/// `start` put off: each takes its first open zero, or is left unassigned.
pub open spec fn second_pass(g: Grid, start: Search, k: int) -> Search
    decreases k,
{
    if k <= 0 {
        start
    } else {
        let s = second_pass(g, start, k - 1);
        let r = start.deferred[k - 1] as int;
        let c = first_open(g, s.assigned, r, 0);
        if c < g.len() {
            Search { assigned: s.assigned.push((r as usize, c as usize)), ..s }
        } else {
            Search { unassigned: s.unassigned.push(r as usize), ..s }
        }
    }
}

/// The outcome of both passes over `g`.
pub open spec fn search(g: Grid) -> Search {
    let s = first_pass(g, g.len() as int);
    second_pass(g, s, s.deferred.len() as int)
}

/// The assigned cells are zeros of `g`, no two in one row or one column.
pub open spec fn independent_zeros(g: Grid, assigned: Seq<(usize, usize)>) -> bool {
    &&& forall|i: int|
        0 <= i < assigned.len() ==> (#[trigger] assigned[i]).0 < g.len() && assigned[i].1 < g.len()
            && g[assigned[i].0 as int][assigned[i].1 as int] == 0
    &&& forall|i: int, j: int|
        0 <= i < j < assigned.len() ==> (#[trigger] assigned[i]).0 != (#[trigger] assigned[j]).0
            && assigned[i].1 != assigned[j].1
}

/// Where the first open zero of a row lies, and that none lies before it.
pub proof fn lemma_first_open(g: Grid, assigned: Seq<(usize, usize)>, r: int, from: int)
    requires
        0 <= from <= g.len(),
    ensures
        from <= first_open(g, assigned, r, from) <= g.len(),
        first_open(g, assigned, r, from) < g.len() ==> is_open(
            g,
            assigned,
            r,
            first_open(g, assigned, r, from),
        ),
        forall|c: int| from <= c < first_open(g, assigned, r, from) ==> !is_open(g, assigned, r, c),
    decreases g.len() - from,
{
    if from < g.len() && !is_open(g, assigned, r, from) {
        lemma_first_open(g, assigned, r, from + 1);
    }
}

/// A row without an open zero counts none, and a row that counts none has
/// no open zero.
pub proof fn lemma_open_count(g: Grid, assigned: Seq<(usize, usize)>, r: int, upto: int)
    requires
        0 <= upto,
    ensures
        0 <= open_count(g, assigned, r, upto) <= upto,
        open_count(g, assigned, r, upto) == 0 <==> forall|c: int|
            0 <= c < upto ==> !is_open(g, assigned, r, c),
    decreases upto,
{
    if upto > 0 {
        lemma_open_count(g, assigned, r, upto - 1);
        if open_count(g, assigned, r, upto) == 0 {
            assert forall|c: int| 0 <= c < upto implies !is_open(g, assigned, r, c) by {}
        }
    }
}

/// Assigning one more cell takes its column, and no other.
pub proof fn lemma_taken_push(assigned: Seq<(usize, usize)>, cell: (usize, usize), c: int)
    ensures
        column_taken(assigned.push(cell), c) <==> column_taken(assigned, c) || cell.1 == c,
        row_taken(assigned.push(cell), c) <==> row_taken(assigned, c) || cell.0 == c,
{
    let more = assigned.push(cell);
    if column_taken(assigned, c) {
        let k = choose|k: int| 0 <= k < assigned.len() && (#[trigger] assigned[k]).1 == c;
        assert(more[k].1 == c);
    }
    if row_taken(assigned, c) {
        let k = choose|k: int| 0 <= k < assigned.len() && (#[trigger] assigned[k]).0 == c;
        assert(more[k].0 == c);
    }
    assert(more[assigned.len() as int] == cell);
    if column_taken(more, c) {
        let k = choose|k: int| 0 <= k < more.len() && (#[trigger] more[k]).1 == c;
        if k < assigned.len() {
            assert(assigned[k].1 == c);
        }
    }
    if row_taken(more, c) {
        let k = choose|k: int| 0 <= k < more.len() && (#[trigger] more[k]).0 == c;
        if k < assigned.len() {
            assert(assigned[k].0 == c);
        }
    }
}

/// What holds while the first pass has seen the rows below `k`.
pub open spec fn first_pass_shape(g: Grid, s: Search, k: int) -> bool {
    &&& independent_zeros(g, s.assigned)
    &&& forall|i: int| 0 <= i < s.assigned.len() ==> (#[trigger] s.assigned[i]).0 < k
    &&& forall|i: int| 0 <= i < s.deferred.len() ==> #[trigger] s.deferred[i] < k
    &&& forall|i: int, j: int|
        0 <= i < j < s.deferred.len() ==> #[trigger] s.deferred[i] < #[trigger] s.deferred[j]
    &&& forall|i: int| 0 <= i < s.unassigned.len() ==> #[trigger] s.unassigned[i] < k
    &&& forall|i: int|
        0 <= i < s.deferred.len() ==> !row_taken(s.assigned, #[trigger] s.deferred[i] as int)
    &&& forall|r: int|
        0 <= r < k ==> #[trigger] row_taken(s.assigned, r) || s.deferred.contains(r as usize)
            || s.unassigned.contains(r as usize)
}

/// What holds while the second pass has seen the first `k` deferred rows.
pub open spec fn second_pass_shape(g: Grid, s: Search, k: int) -> bool {
    &&& independent_zeros(g, s.assigned)
    &&& forall|i: int| 0 <= i < s.deferred.len() ==> #[trigger] s.deferred[i] < g.len()
    &&& forall|i: int, j: int|
        0 <= i < j < s.deferred.len() ==> #[trigger] s.deferred[i] < #[trigger] s.deferred[j]
    &&& forall|i: int| 0 <= i < s.unassigned.len() ==> #[trigger] s.unassigned[i] < g.len()
    &&& forall|i: int|
        k <= i < s.deferred.len() ==> !row_taken(s.assigned, #[trigger] s.deferred[i] as int)
    &&& forall|r: int|
        0 <= r < g.len() ==> #[trigger] row_taken(s.assigned, r) || s.unassigned.contains(
            r as usize,
        ) || exists|i: int| k <= i < s.deferred.len() && s.deferred[i] == r
}

/// Pushing an open zero of a row that holds no assigned cell keeps the
/// assigned cells independent.
pub proof fn lemma_push_independent(g: Grid, assigned: Seq<(usize, usize)>, r: int, c: int)
    requires
        independent_zeros(g, assigned),
        0 <= r < g.len(),
        0 <= c < g.len(),
        g.len() <= usize::MAX,
        is_open(g, assigned, r, c),
        !row_taken(assigned, r),
    ensures
        independent_zeros(g, assigned.push((r as usize, c as usize))),
{
    let more = assigned.push((r as usize, c as usize));
    assert forall|i: int, j: int| 0 <= i < j < more.len() implies (#[trigger] more[i]).0 != (
    #[trigger] more[j]).0 && more[i].1 != more[j].1 by {
        if j == assigned.len() {
            assert(assigned[i].0 != r);
            assert(assigned[i].1 != c);
        } else {
            assert(more[i] == assigned[i]);
            assert(more[j] == assigned[j]);
        }
    }
    assert forall|i: int| 0 <= i < more.len() implies (#[trigger] more[i]).0 < g.len() && more[i].1
        < g.len() && g[more[i].0 as int][more[i].1 as int] == 0 by {
        if i < assigned.len() {
            assert(more[i] == assigned[i]);
        }
    }
}

/// The first pass keeps its shape.
pub proof fn lemma_first_pass(g: Grid, k: int)
    requires
        0 <= k <= g.len() <= usize::MAX,
    ensures
        first_pass_shape(g, first_pass(g, k), k),
    decreases k,
{
    if k > 0 {
        lemma_first_pass(g, k - 1);
        let s = first_pass(g, k - 1);
        let t = first_pass(g, k);
        let r = k - 1;
        let count = open_count(g, s.assigned, r, g.len() as int);
        assert(!row_taken(s.assigned, r));
        assert forall|q: int| 0 <= q < k implies #[trigger] row_taken(t.assigned, q)
            || t.deferred.contains(q as usize) || t.unassigned.contains(q as usize) by {
            if q < r {
                assert(row_taken(s.assigned, q) || s.deferred.contains(q as usize)
                    || s.unassigned.contains(q as usize));
                if row_taken(s.assigned, q) {
                    if count == 1 {
                        lemma_taken_push(s.assigned, t.assigned.last(), q);
                    }
                } else if s.deferred.contains(q as usize) {
                    let i = choose|i: int| 0 <= i < s.deferred.len() && s.deferred[i] == q as usize;
                    assert(t.deferred[i] == q as usize);
                } else {
                    let i = choose|i: int|
                        0 <= i < s.unassigned.len() && s.unassigned[i] == q as usize;
                    assert(t.unassigned[i] == q as usize);
                }
            } else {
                if count == 0 {
                    assert(t.unassigned[s.unassigned.len() as int] == r as usize);
                } else if count == 1 {
                    assert(t.assigned[s.assigned.len() as int].0 == r as usize);
                } else {
                    assert(t.deferred[s.deferred.len() as int] == r as usize);
                }
            }
        }
        if count == 1 {
            lemma_open_count(g, s.assigned, r, g.len() as int);
            lemma_first_open(g, s.assigned, r, 0);
            let c = first_open(g, s.assigned, r, 0);
            lemma_push_independent(g, s.assigned, r, c);
            assert forall|i: int| 0 <= i < t.deferred.len() implies !row_taken(
                t.assigned,
                #[trigger] t.deferred[i] as int,
            ) by {
                lemma_taken_push(s.assigned, (r as usize, c as usize), t.deferred[i] as int);
            }
        } else if count != 0 {
            assert forall|i: int| 0 <= i < t.deferred.len() implies !row_taken(
                t.assigned,
                #[trigger] t.deferred[i] as int,
            ) by {
                if i < s.deferred.len() {
                    assert(t.deferred[i] == s.deferred[i]);
                }
            }
        }
    }
}

/// The second pass keeps its shape.
pub proof fn lemma_second_pass(g: Grid, start: Search, k: int)
    requires
        g.len() <= usize::MAX,
        second_pass_shape(g, start, 0),
        0 <= k <= start.deferred.len(),
    ensures
        second_pass_shape(g, second_pass(g, start, k), k),
        second_pass(g, start, k).deferred == start.deferred,
    decreases k,
{
    if k > 0 {
        lemma_second_pass(g, start, k - 1);
        let s = second_pass(g, start, k - 1);
        let t = second_pass(g, start, k);
        let r = start.deferred[k - 1] as int;
        let c = first_open(g, s.assigned, r, 0);
        lemma_first_open(g, s.assigned, r, 0);
        assert(s.deferred[k - 1] == r);
        assert(!row_taken(s.assigned, r));
        if c < g.len() {
            lemma_push_independent(g, s.assigned, r, c);
            assert forall|i: int| k <= i < t.deferred.len() implies !row_taken(
                t.assigned,
                #[trigger] t.deferred[i] as int,
            ) by {
                lemma_taken_push(s.assigned, (r as usize, c as usize), t.deferred[i] as int);
                assert(s.deferred[k - 1] < s.deferred[i]);
            }
        }
        assert forall|q: int| 0 <= q < g.len() implies #[trigger] row_taken(t.assigned, q)
            || t.unassigned.contains(q as usize) || exists|i: int|
            k <= i < t.deferred.len() && t.deferred[i] == q by {
            assert(row_taken(s.assigned, q) || s.unassigned.contains(q as usize) || exists|i: int|
                k - 1 <= i < s.deferred.len() && s.deferred[i] == q);
            if row_taken(s.assigned, q) {
                if c < g.len() {
                    lemma_taken_push(s.assigned, (r as usize, c as usize), q);
                }
            } else if s.unassigned.contains(q as usize) {
                let i = choose|i: int| 0 <= i < s.unassigned.len() && s.unassigned[i] == q as usize;
                assert(t.unassigned[i] == q as usize);
            } else {
                let i = choose|i: int| k - 1 <= i < s.deferred.len() && s.deferred[i] == q;
                if i == k - 1 {
                    if c < g.len() {
                        assert(t.assigned[s.assigned.len() as int].0 == r as usize);
                    } else {
                        assert(t.unassigned[s.unassigned.len() as int] == r as usize);
                    }
                }
            }
        }
    }
}

/// What a search leaves: independent zeros, and every row either holding one
/// of them or listed as unassigned.
pub proof fn lemma_search(g: Grid)
    requires
        g.len() <= usize::MAX,
    ensures
        independent_zeros(g, search(g).assigned),
        forall|i: int|
            0 <= i < search(g).unassigned.len() ==> #[trigger] search(g).unassigned[i] < g.len(),
        forall|r: int|
            0 <= r < g.len() ==> #[trigger] row_taken(search(g).assigned, r)
                || search(g).unassigned.contains(r as usize),
{
    let n = g.len() as int;
    lemma_first_pass(g, n);
    let s = first_pass(g, n);
    assert(second_pass_shape(g, s, 0)) by {
        assert forall|r: int| 0 <= r < g.len() implies #[trigger] row_taken(s.assigned, r)
            || s.unassigned.contains(r as usize) || exists|i: int|
            0 <= i < s.deferred.len() && s.deferred[i] == r by {
            if s.deferred.contains(r as usize) {
                let i = choose|i: int| 0 <= i < s.deferred.len() && s.deferred[i] == r as usize;
                assert(s.deferred[i] == r);
            }
        }
    }
    lemma_second_pass(g, s, s.deferred.len() as int);
}

/// No unassigned row holds a zero in a column that is still free: no
/// further zero could be assigned without giving another up.
pub open spec fn is_maximal(g: Grid, s: Search) -> bool {
    forall|i: int, c: int|
        0 <= i < s.unassigned.len() && 0 <= c < g.len() && #[trigger] g[s.unassigned[i] as int][c]
            == 0 ==> column_taken(s.assigned, c)
}

/// After the first pass has seen the rows below `k`, no unassigned row
/// holds a zero in a free column.
pub proof fn lemma_first_pass_maximal(g: Grid, k: int)
    requires
        0 <= k <= g.len() <= usize::MAX,
    ensures
        is_maximal(g, first_pass(g, k)),
    decreases k,
{
    if k > 0 {
        lemma_first_pass_maximal(g, k - 1);
        let s = first_pass(g, k - 1);
        let t = first_pass(g, k);
        let r = k - 1;
        let count = open_count(g, s.assigned, r, g.len() as int);
        lemma_open_count(g, s.assigned, r, g.len() as int);
        assert forall|i: int, c: int|
            0 <= i < t.unassigned.len() && 0 <= c < g.len() && #[trigger] g[t.unassigned[i] as int][c]
                == 0 implies column_taken(t.assigned, c) by {
            if i < s.unassigned.len() {
                assert(t.unassigned[i] == s.unassigned[i]);
                assert(column_taken(s.assigned, c));
                if count == 1 {
                    lemma_taken_push(s.assigned, t.assigned.last(), c);
                }
            } else {
                assert(count == 0);
                assert(t.unassigned[i] == r as usize);
                assert(!is_open(g, s.assigned, r, c));
            }
        }
    }
}

/// After the second pass has seen the first `k` deferred rows, no
/// unassigned row holds a zero in a free column.
pub proof fn lemma_second_pass_maximal(g: Grid, start: Search, k: int)
    requires
        g.len() <= usize::MAX,
        is_maximal(g, start),
        0 <= k <= start.deferred.len(),
    ensures
        is_maximal(g, second_pass(g, start, k)),
    decreases k,
{
    if k > 0 {
        lemma_second_pass_maximal(g, start, k - 1);
        let s = second_pass(g, start, k - 1);
        let t = second_pass(g, start, k);
        let r = start.deferred[k - 1] as int;
        let found = first_open(g, s.assigned, r, 0);
        lemma_first_open(g, s.assigned, r, 0);
        assert forall|i: int, c: int|
            0 <= i < t.unassigned.len() && 0 <= c < g.len() && #[trigger] g[t.unassigned[i] as int][c]
                == 0 implies column_taken(t.assigned, c) by {
            if i < s.unassigned.len() {
                assert(t.unassigned[i] == s.unassigned[i]);
                assert(column_taken(s.assigned, c));
                if found < g.len() {
                    lemma_taken_push(s.assigned, t.assigned.last(), c);
                }
            } else {
                assert(found >= g.len());
                assert(t.unassigned[i] == r as usize);
                assert(!is_open(g, s.assigned, r, c));
            }
        }
    }
}

/// The two passes leave a set of independent zeros that cannot be extended
/// by a further zero.
pub proof fn lemma_search_is_maximal(g: Grid)
    requires
        g.len() <= usize::MAX,
    ensures
        is_maximal(g, search(g)),
{
    let n = g.len() as int;
    lemma_first_pass_maximal(g, n);
    let s = first_pass(g, n);
    lemma_second_pass_maximal(g, s, s.deferred.len() as int);
}

/// No row is listed twice as unassigned, no unassigned row holds an
/// assigned cell, and none of the deferred rows from place `k` on is listed
/// as unassigned.
pub open spec fn is_apart(s: Search, k: int) -> bool {
    &&& forall|i: int, j: int|
        0 <= i < j < s.unassigned.len() ==> #[trigger] s.unassigned[i] != #[trigger] s.unassigned[j]
    &&& forall|i: int|
        0 <= i < s.unassigned.len() ==> !row_taken(s.assigned, #[trigger] s.unassigned[i] as int)
    &&& forall|i: int, j: int|
        0 <= i < s.unassigned.len() && k <= j < s.deferred.len() ==> #[trigger] s.unassigned[i]
            != #[trigger] s.deferred[j]
}

/// The first pass keeps the unassigned rows apart from the others.
pub proof fn lemma_first_pass_apart(g: Grid, k: int)
    requires
        0 <= k <= g.len() <= usize::MAX,
    ensures
        is_apart(first_pass(g, k), 0),
    decreases k,
{
    if k > 0 {
        lemma_first_pass_apart(g, k - 1);
        lemma_first_pass(g, k - 1);
        lemma_first_pass(g, k);
        let s = first_pass(g, k - 1);
        let t = first_pass(g, k);
        let r = k - 1;
        let count = open_count(g, s.assigned, r, g.len() as int);
        assert(!row_taken(s.assigned, r));
        assert forall|i: int| 0 <= i < t.unassigned.len() implies !row_taken(
            t.assigned,
            #[trigger] t.unassigned[i] as int,
        ) by {
            if i < s.unassigned.len() {
                assert(t.unassigned[i] == s.unassigned[i]);
                assert(s.unassigned[i] < r);
                if count == 1 {
                    lemma_taken_push(s.assigned, t.assigned.last(), t.unassigned[i] as int);
                }
            }
        }
        assert forall|i: int, j: int|
            0 <= i < t.unassigned.len() && 0 <= j < t.deferred.len() implies #[trigger] t.unassigned[i]
            != #[trigger] t.deferred[j] by {
            if i < s.unassigned.len() && j < s.deferred.len() {
                assert(s.unassigned[i] != s.deferred[j]);
            } else if i < s.unassigned.len() {
                assert(s.unassigned[i] < r);
            } else if j < s.deferred.len() {
                assert(s.deferred[j] < r);
            }
        }
        assert forall|i: int, j: int| 0 <= i < j < t.unassigned.len() implies #[trigger] t.unassigned[i]
            != #[trigger] t.unassigned[j] by {
            if j < s.unassigned.len() {
                assert(s.unassigned[i] != s.unassigned[j]);
            } else {
                assert(s.unassigned[i] < r);
            }
        }
    }
}

/// The second pass keeps the unassigned rows apart from the others.
pub proof fn lemma_second_pass_apart(g: Grid, start: Search, k: int)
    requires
        g.len() <= usize::MAX,
        second_pass_shape(g, start, 0),
        is_apart(start, 0),
        0 <= k <= start.deferred.len(),
    ensures
        is_apart(second_pass(g, start, k), k),
    decreases k,
{
    if k > 0 {
        lemma_second_pass_apart(g, start, k - 1);
        lemma_second_pass(g, start, k - 1);
        lemma_second_pass(g, start, k);
        let s = second_pass(g, start, k - 1);
        let t = second_pass(g, start, k);
        let r = start.deferred[k - 1] as int;
        let found = first_open(g, s.assigned, r, 0);
        assert(s.deferred[k - 1] == r);
        assert(!row_taken(s.assigned, r));
        assert forall|i: int| 0 <= i < t.unassigned.len() implies !row_taken(
            t.assigned,
            #[trigger] t.unassigned[i] as int,
        ) by {
            if i < s.unassigned.len() {
                assert(t.unassigned[i] == s.unassigned[i]);
                assert(s.unassigned[i] != s.deferred[k - 1]);
                if found < g.len() {
                    lemma_taken_push(s.assigned, t.assigned.last(), t.unassigned[i] as int);
                }
            }
        }
        assert forall|i: int, j: int|
            0 <= i < t.unassigned.len() && k <= j < t.deferred.len() implies #[trigger] t.unassigned[i]
            != #[trigger] t.deferred[j] by {
            if i < s.unassigned.len() {
                assert(s.unassigned[i] != s.deferred[j]);
            } else {
                assert(s.deferred[k - 1] < s.deferred[j]);
            }
        }
        assert forall|i: int, j: int| 0 <= i < j < t.unassigned.len() implies #[trigger] t.unassigned[i]
            != #[trigger] t.unassigned[j] by {
            if j < s.unassigned.len() {
                assert(s.unassigned[i] != s.unassigned[j]);
            } else {
                assert(s.unassigned[i] != s.deferred[k - 1]);
            }
        }
    }
}

/// After both passes no row is listed twice as unassigned, and no
/// unassigned row holds an assigned cell.
pub proof fn lemma_search_apart(g: Grid)
    requires
        g.len() <= usize::MAX,
    ensures
        forall|i: int, j: int|
            0 <= i < j < search(g).unassigned.len() ==> #[trigger] search(g).unassigned[i]
                != #[trigger] search(g).unassigned[j],
        forall|i: int|
            0 <= i < search(g).unassigned.len() ==> !row_taken(
                search(g).assigned,
                #[trigger] search(g).unassigned[i] as int,
            ),
{
    let n = g.len() as int;
    lemma_first_pass(g, n);
    lemma_first_pass_apart(g, n);
    let s = first_pass(g, n);
    assert(second_pass_shape(g, s, 0)) by {
        assert forall|r: int| 0 <= r < g.len() implies #[trigger] row_taken(s.assigned, r)
            || s.unassigned.contains(r as usize) || exists|i: int|
            0 <= i < s.deferred.len() && s.deferred[i] == r by {
            if s.deferred.contains(r as usize) {
                let i = choose|i: int| 0 <= i < s.deferred.len() && s.deferred[i] == r as usize;
                assert(s.deferred[i] == r);
            }
        }
    }
    lemma_second_pass_apart(g, s, s.deferred.len() as int);
}

/// What a search found.
pub struct Found {
    /// The assigned cells, as (row, column), in the order they were found.
    pub assigned: Vec<(usize, usize)>,
    /// The rows that were left without a zero.
    pub unassigned: Vec<usize>,
}

/// Counts the open zeros of row `r` and finds the first of them.
fn scan_row(
    m: &CostMatrix,
    taken: &Vec<bool>,
    r: usize,
    Ghost(assigned): Ghost<Seq<(usize, usize)>>,
) -> (seen: (usize, usize))
    requires
        r < m.dim(),
        taken.len() == m.dim(),
        forall|c: int| 0 <= c < taken.len() ==> taken[c] == column_taken(assigned, c),
    ensures
        seen.0 == open_count(m@, assigned, r as int, m.dim()),
        seen.1 == first_open(m@, assigned, r as int, 0),
{
    let n = m.size();
    let mut count: usize = 0;
    let mut first: usize = n;
    let mut c: usize = 0;
    while c < n
        invariant
            c <= n,
            r < n,
            n == m.dim(),
            n == m@.len(),
            taken.len() == n,
            forall|j: int| 0 <= j < n ==> taken[j] == column_taken(assigned, j),
            count == open_count(m@, assigned, r as int, c as int),
            count <= c,
            count == 0 ==> first == n && first_open(m@, assigned, r as int, 0) == first_open(
                m@,
                assigned,
                r as int,
                c as int,
            ),
            count > 0 ==> first == first_open(m@, assigned, r as int, 0),
        decreases n - c,
    {
        if m.get(r, c) == 0 && !taken[c] {
            if count == 0 {
                first = c;
            }
            count += 1;
        }
        c += 1;
    }
    (count, first)
}

/// Scans the matrix for independent zeros in two passes: rows with a single
/// open zero first, then the rows that had several.
pub fn find_assignment(m: &CostMatrix) -> (found: Found)
    ensures
        found.assigned@ == search(m@).assigned,
        found.unassigned@ == search(m@).unassigned,
        independent_zeros(m@, found.assigned@),
        forall|i: int| 0 <= i < found.unassigned.len() ==> #[trigger] found.unassigned[i] < m.dim(),
{
    let n = m.size();
    proof {
        lemma_search(m@);
    }
    let mut taken: Vec<bool> = Vec::new();
    let mut c: usize = 0;
    while c < n
        invariant
            c <= n,
            taken.len() == c,
            forall|j: int| 0 <= j < c ==> !taken[j],
        decreases n - c,
    {
        taken.push(false);
        c += 1;
    }
    let mut assigned: Vec<(usize, usize)> = Vec::new();
    let mut deferred: Vec<usize> = Vec::new();
    let mut unassigned: Vec<usize> = Vec::new();
    let mut r: usize = 0;
    while r < n
        invariant
            r <= n,
            n == m.dim(),
            n == m@.len(),
            taken.len() == n,
            forall|j: int| 0 <= j < n ==> taken[j] == column_taken(assigned@, j),
            assigned@ == first_pass(m@, r as int).assigned,
            deferred@ == first_pass(m@, r as int).deferred,
            unassigned@ == first_pass(m@, r as int).unassigned,
        decreases n - r,
    {
        let seen = scan_row(m, &taken, r, Ghost(assigned@));
        if seen.0 == 0 {
            unassigned.push(r);
        } else if seen.0 == 1 {
            proof {
                lemma_open_count(m@, assigned@, r as int, n as int);
                lemma_first_open(m@, assigned@, r as int, 0);
                assert forall|j: int| 0 <= j < n implies (taken[j] || j == seen.1)
                    == column_taken(assigned@.push((r, seen.1)), j) by {
                    lemma_taken_push(assigned@, (r, seen.1), j);
                }
            }
            assigned.push((r, seen.1));
            taken[seen.1] = true;
        } else {
            deferred.push(r);
        }
        r += 1;
    }
    let ghost start = first_pass(m@, n as int);
    proof {
        lemma_first_pass(m@, n as int);
    }
    let mut k: usize = 0;
    while k < deferred.len()
        invariant
            k <= deferred.len(),
            n == m.dim(),
            n == m@.len(),
            taken.len() == n,
            start == first_pass(m@, n as int),
            deferred@ == start.deferred,
            forall|i: int| 0 <= i < deferred.len() ==> #[trigger] deferred[i] < n,
            forall|j: int| 0 <= j < n ==> taken[j] == column_taken(assigned@, j),
            assigned@ == second_pass(m@, start, k as int).assigned,
            unassigned@ == second_pass(m@, start, k as int).unassigned,
        decreases deferred.len() - k,
    {
        let r = deferred[k];
        let seen = scan_row(m, &taken, r, Ghost(assigned@));
        if seen.1 < n {
            proof {
                assert forall|j: int| 0 <= j < n implies (taken[j] || j == seen.1)
                    == column_taken(assigned@.push((r, seen.1)), j) by {
                    lemma_taken_push(assigned@, (r, seen.1), j);
                }
            }
            assigned.push((r, seen.1));
            taken[seen.1] = true;
        } else {
            unassigned.push(r);
        }
        k += 1;
    }
    Found { assigned, unassigned }
}

} // verus!
