//! Covering lines: when the search leaves rows unassigned, the rows and
//! columns that together cover every zero of the matrix.
//!
//! Rows are reached from the unassigned rows along alternating trails: from
//! a reached row to any column in which it holds a zero, and from such a
//! column to the row that is assigned there. A line is drawn through every
//! column that is reached and through every row that is not.

use vstd::prelude::*;
use crate::problem345::matrix::{CostMatrix, Grid};

verus! {

/// Row `to` holds the assigned cell of a column in which row `from` holds a
/// zero.
pub open spec fn linked(g: Grid, assigned: Seq<(usize, usize)>, from: int, to: int) -> bool {
    exists|k: int|
        0 <= k < assigned.len() && (#[trigger] assigned[k]).0 == to && assigned[k].1 < g.len()
            && g[from][assigned[k].1 as int] == 0
}

/// Row `r` is one of the unassigned rows.
pub open spec fn is_start(unassigned: Seq<usize>, r: int) -> bool {
    exists|i: int| 0 <= i < unassigned.len() && #[trigger] unassigned[i] == r
}

/// `trail` is a sequence of rows that begins at an unassigned row and in
/// which every row is linked to the next.
pub open spec fn is_trail(
    g: Grid,
    assigned: Seq<(usize, usize)>,
    unassigned: Seq<usize>,
    trail: Seq<int>,
) -> bool {
    &&& trail.len() >= 1
    &&& is_start(unassigned, trail[0])
    &&& forall|i: int| 0 <= i < trail.len() ==> 0 <= #[trigger] trail[i] < g.len()
    &&& forall|i: int|
        0 <= i < trail.len() - 1 ==> linked(g, assigned, #[trigger] trail[i], trail[i + 1])
}

/// Some trail ends at row `r`.
pub open spec fn row_reached(
    g: Grid,
    assigned: Seq<(usize, usize)>,
    unassigned: Seq<usize>,
    r: int,
) -> bool {
    exists|trail: Seq<int>| #[trigger]
        is_trail(g, assigned, unassigned, trail) && trail.last() == r
}

/// Some reached row holds a zero in column `c`.
pub open spec fn column_reached(
    g: Grid,
    assigned: Seq<(usize, usize)>,
    unassigned: Seq<usize>,
    c: int,
) -> bool {
    exists|r: int|
        0 <= r < g.len() && #[trigger] row_reached(g, assigned, unassigned, r) && g[r][c] == 0
}

/// The rows through which a covering line is drawn: those that no trail
/// reaches.
pub open spec fn covered_rows(
    g: Grid,
    assigned: Seq<(usize, usize)>,
    unassigned: Seq<usize>,
) -> Seq<bool> {
    Seq::new(g.len(), |r: int| !row_reached(g, assigned, unassigned, r))
}

/// The columns through which a covering line is drawn: those that are
/// reached.
pub open spec fn covered_cols(
    g: Grid,
    assigned: Seq<(usize, usize)>,
    unassigned: Seq<usize>,
) -> Seq<bool> {
    Seq::new(g.len(), |c: int| column_reached(g, assigned, unassigned, c))
}

/// The covering lines of one adjustment cycle: `row_marked[r]` says that a
/// line runs through row `r`, `col_marked[c]` that one runs through column
/// `c`.
pub struct Marking {
    pub row_marked: Vec<bool>,
    pub col_marked: Vec<bool>,
}

/// How many rows have not been reached yet.
pub open spec fn unreached_count(reached: Seq<bool>) -> nat
    decreases reached.len(),
{
    if reached.len() == 0 {
        0
    } else {
        unreached_count(reached.drop_last()) + if reached.last() {
            0nat
        } else {
            1nat
        }
    }
}

/// Reaching one more row lowers the count of the unreached by one.
pub proof fn lemma_reach_one(reached: Seq<bool>, r: int)
    requires
        0 <= r < reached.len(),
        !reached[r],
    ensures
        unreached_count(reached.update(r, true)) == unreached_count(reached) - 1,
    decreases reached.len(),
{
    let after = reached.update(r, true);
    if r == reached.len() - 1 {
        assert(after.drop_last() =~= reached.drop_last());
    } else {
        assert(after.drop_last() =~= reached.drop_last().update(r, true));
        lemma_reach_one(reached.drop_last(), r);
    }
}

/// An unassigned row is reached by the trail that holds it alone.
pub proof fn lemma_start_reached(
    g: Grid,
    assigned: Seq<(usize, usize)>,
    unassigned: Seq<usize>,
    r: int,
)
    requires
        0 <= r < g.len(),
        is_start(unassigned, r),
    ensures
        row_reached(g, assigned, unassigned, r),
{
    let trail = seq![r];
    assert(is_trail(g, assigned, unassigned, trail));
    assert(trail.last() == r);
}

/// A row linked to a reached row is reached.
pub proof fn lemma_step_reached(
    g: Grid,
    assigned: Seq<(usize, usize)>,
    unassigned: Seq<usize>,
    from: int,
    to: int,
)
    requires
        0 <= to < g.len(),
        row_reached(g, assigned, unassigned, from),
        linked(g, assigned, from, to),
    ensures
        row_reached(g, assigned, unassigned, to),
{
    let trail = choose|trail: Seq<int>| #[trigger]
        is_trail(g, assigned, unassigned, trail) && trail.last() == from;
    let longer = trail.push(to);
    assert forall|i: int| 0 <= i < longer.len() - 1 implies linked(
        g,
        assigned,
        #[trigger] longer[i],
        longer[i + 1],
    ) by {
        if i < trail.len() - 1 {
            assert(longer[i] == trail[i]);
            assert(longer[i + 1] == trail[i + 1]);
        }
    }
    assert(longer[0] == trail[0]);
    assert(is_trail(g, assigned, unassigned, longer));
    assert(longer.last() == to);
}

/// `reached` holds every unassigned row and, with a row, every row linked
/// to it.
pub open spec fn is_closed(
    g: Grid,
    assigned: Seq<(usize, usize)>,
    unassigned: Seq<usize>,
    reached: Seq<bool>,
) -> bool {
    &&& reached.len() == g.len()
    &&& forall|r: int| 0 <= r < g.len() && is_start(unassigned, r) ==> reached[r]
    &&& forall|r: int, to: int|
        0 <= r < g.len() && 0 <= to < g.len() && reached[r] && #[trigger] linked(
            g,
            assigned,
            r,
            to,
        ) ==> reached[to]
}

/// A closed set of rows holds every row of every trail.
pub proof fn lemma_closed_holds_trail(
    g: Grid,
    assigned: Seq<(usize, usize)>,
    unassigned: Seq<usize>,
    reached: Seq<bool>,
    trail: Seq<int>,
    i: int,
)
    requires
        is_closed(g, assigned, unassigned, reached),
        is_trail(g, assigned, unassigned, trail),
        0 <= i < trail.len(),
    ensures
        reached[trail[i]],
    decreases i,
{
    if i > 0 {
        lemma_closed_holds_trail(g, assigned, unassigned, reached, trail, i - 1);
        assert(linked(g, assigned, trail[i - 1], trail[i - 1 + 1]));
    }
}

/// What holds of the sweep between two of its steps: `done` are the rows
/// whose zeros have all been followed, `current` is the row being followed
/// (or -1), `queue` the rows that wait.
pub open spec fn sweep_holds(
    g: Grid,
    assigned: Seq<(usize, usize)>,
    unassigned: Seq<usize>,
    reached: Seq<bool>,
    cols: Seq<bool>,
    queue: Seq<usize>,
    done: Set<int>,
    current: int,
) -> bool {
    &&& reached.len() == g.len()
    &&& cols.len() == g.len()
    &&& forall|r: int|
        0 <= r < g.len() && #[trigger] reached[r] ==> row_reached(g, assigned, unassigned, r)
    &&& forall|c: int|
        0 <= c < g.len() && #[trigger] cols[c] ==> column_reached(g, assigned, unassigned, c)
    &&& forall|i: int|
        0 <= i < queue.len() ==> #[trigger] queue[i] < g.len() && reached[queue[i] as int]
    &&& forall|r: int|
        0 <= r < g.len() && #[trigger] reached[r] ==> done.contains(r) || r == current
            || exists|i: int| 0 <= i < queue.len() && #[trigger] queue[i] == r
    &&& forall|r: int, to: int|
        done.contains(r) && 0 <= to < g.len() && #[trigger] linked(g, assigned, r, to)
            ==> reached[to]
    &&& forall|r: int, c: int|
        done.contains(r) && 0 <= c < g.len() && #[trigger] g[r][c] == 0 ==> cols[c]
    &&& forall|r: int| #[trigger] done.contains(r) ==> 0 <= r < g.len() && reached[r]
}

/// Draws the covering lines for a search that left rows unassigned.
pub fn mark(m: &CostMatrix, assigned: &Vec<(usize, usize)>, unassigned: &Vec<usize>) -> (marking:
    Marking)
    requires
        forall|i: int|
            0 <= i < assigned.len() ==> (#[trigger] assigned[i]).0 < m.dim() && assigned[i].1
                < m.dim(),
        forall|i: int| 0 <= i < unassigned.len() ==> #[trigger] unassigned[i] < m.dim(),
    ensures
        marking.row_marked@ == covered_rows(m@, assigned@, unassigned@),
        marking.col_marked@ == covered_cols(m@, assigned@, unassigned@),
        forall|r: int, c: int|
            0 <= r < m.dim() && 0 <= c < m.dim() && #[trigger] m@[r][c] == 0
                ==> marking.row_marked[r] || marking.col_marked[c],
{
    let n = m.size();
    let mut reached: Vec<bool> = Vec::new();
    let mut cols: Vec<bool> = Vec::new();
    let mut i: usize = 0;
    while i < n
        invariant
            i <= n,
            reached.len() == i,
            cols.len() == i,
            forall|j: int| 0 <= j < i ==> !reached[j] && !cols[j],
        decreases n - i,
    {
        reached.push(false);
        cols.push(false);
        i += 1;
    }
    let mut queue: Vec<usize> = Vec::new();
    let ghost mut done: Set<int> = Set::empty();
    let mut u: usize = 0;
    while u < unassigned.len()
        invariant
            u <= unassigned.len(),
            n == m.dim(),
            n == m@.len(),
            forall|i: int| 0 <= i < unassigned.len() ==> #[trigger] unassigned[i] < n,
            done == Set::<int>::empty(),
            sweep_holds(m@, assigned@, unassigned@, reached@, cols@, queue@, done, -1),
            forall|i: int| 0 <= i < u ==> reached[#[trigger] unassigned[i] as int],
        decreases unassigned.len() - u,
    {
        let r = unassigned[u];
        if !reached[r] {
            proof {
                lemma_start_reached(m@, assigned@, unassigned@, r as int);
            }
            let ghost before = queue@;
            reached[r] = true;
            queue.push(r);
            proof {
                assert forall|q: int| 0 <= q < n && #[trigger] reached[q] implies exists|i: int|
                    0 <= i < queue.len() && #[trigger] queue[i] == q by {
                    if q == r {
                        assert(queue[before.len() as int] == r);
                    } else {
                        let i = choose|i: int| 0 <= i < before.len() && #[trigger] before[i] == q;
                        assert(queue[i] == q);
                    }
                }
            }
        }
        u += 1;
    }
    while queue.len() > 0
        invariant
            n == m.dim(),
            n == m@.len(),
            forall|i: int|
                0 <= i < assigned.len() ==> (#[trigger] assigned[i]).0 < n && assigned[i].1 < n,
            sweep_holds(m@, assigned@, unassigned@, reached@, cols@, queue@, done, -1),
            forall|i: int| 0 <= i < unassigned.len() ==> #[trigger] unassigned[i] < n,
            forall|i: int| 0 <= i < unassigned.len() ==> reached[#[trigger] unassigned[i] as int],
        decreases unreached_count(reached@) + queue.len(),
    {
        let ghost full = queue@;
        let r = queue.pop().unwrap();
        let ghost budget = unreached_count(reached@) + queue.len();
        proof {
            assert(full[full.len() - 1] == r);
            assert forall|q: int| 0 <= q < n && #[trigger] reached[q] implies done.contains(q) || q
                == r || exists|i: int| 0 <= i < queue.len() && #[trigger] queue[i] == q by {
                if !done.contains(q) && q != r {
                    let i = choose|i: int| 0 <= i < full.len() && #[trigger] full[i] == q;
                    assert(queue[i] == q);
                }
            }
        }
        let mut c: usize = 0;
        while c < n
            invariant
                c <= n,
                r < n,
                n == m.dim(),
                n == m@.len(),
                reached[r as int],
                forall|i: int|
                    0 <= i < assigned.len() ==> (#[trigger] assigned[i]).0 < n && assigned[i].1 < n,
                sweep_holds(m@, assigned@, unassigned@, reached@, cols@, queue@, done, r as int),
                forall|i: int| 0 <= i < unassigned.len() ==> #[trigger] unassigned[i] < n,
                forall|i: int|
                    0 <= i < unassigned.len() ==> reached[#[trigger] unassigned[i] as int],
                forall|j: int| 0 <= j < c && #[trigger] m@[r as int][j] == 0 ==> cols[j],
                forall|k: int|
                    0 <= k < assigned.len() && (#[trigger] assigned[k]).1 < c
                        && m@[r as int][assigned[k].1 as int] == 0 ==> reached[assigned[k].0 as int],
                unreached_count(reached@) + queue.len() == budget,
            decreases n - c,
        {
            if m.get(r, c) == 0 {
                cols[c] = true;
                let mut k: usize = 0;
                while k < assigned.len()
                    invariant
                        k <= assigned.len(),
                        c < n,
                        r < n,
                        n == m.dim(),
                        n == m@.len(),
                        reached[r as int],
                        cols[c as int],
                        m@[r as int][c as int] == 0,
                        forall|i: int|
                            0 <= i < assigned.len() ==> (#[trigger] assigned[i]).0 < n
                                && assigned[i].1 < n,
                        sweep_holds(
                            m@,
                            assigned@,
                            unassigned@,
                            reached@,
                            cols@,
                            queue@,
                            done,
                            r as int,
                        ),
                        forall|i: int| 0 <= i < unassigned.len() ==> #[trigger] unassigned[i] < n,
                        forall|i: int|
                            0 <= i < unassigned.len() ==> reached[#[trigger] unassigned[i] as int],
                        forall|j: int| 0 <= j < c && #[trigger] m@[r as int][j] == 0 ==> cols[j],
                        forall|k: int|
                            0 <= k < assigned.len() && (#[trigger] assigned[k]).1 < c
                                && m@[r as int][assigned[k].1 as int] == 0
                                ==> reached[assigned[k].0 as int],
                        forall|j: int|
                            0 <= j < k && (#[trigger] assigned[j]).1 == c
                                ==> reached[assigned[j].0 as int],
                        unreached_count(reached@) + queue.len() == budget,
                    decreases assigned.len() - k,
                {
                    if assigned[k].1 == c {
                        let to = assigned[k].0;
                        if !reached[to] {
                            proof {
                                lemma_reach_one(reached@, to as int);
                                assert(linked(m@, assigned@, r as int, to as int));
                                lemma_step_reached(
                                    m@,
                                    assigned@,
                                    unassigned@,
                                    r as int,
                                    to as int,
                                );
                            }
                            let ghost before = queue@;
                            reached[to] = true;
                            queue.push(to);
                            proof {
                                assert forall|q: int| 0 <= q < n && #[trigger] reached[q] implies
                                    done.contains(q) || q == r || exists|i: int|
                                    0 <= i < queue.len() && #[trigger] queue[i] == q by {
                                    if q == to {
                                        assert(queue[before.len() as int] == to);
                                    } else if !done.contains(q) && q != r {
                                        let i = choose|i: int|
                                            0 <= i < before.len() && #[trigger] before[i] == q;
                                        assert(queue[i] == q);
                                    }
                                }
                            }
                        }
                    }
                    k += 1;
                }
            }
            c += 1;
        }
        proof {
            assert forall|to: int| 0 <= to < n && #[trigger] linked(
                m@,
                assigned@,
                r as int,
                to,
            ) implies reached[to] by {
                let k = choose|k: int|
                    0 <= k < assigned.len() && (#[trigger] assigned[k]).0 == to && assigned[k].1
                        < n && m@[r as int][assigned[k].1 as int] == 0;
                assert(reached[assigned[k].0 as int]);
            }
            done = done.insert(r as int);
        }
    }
    let mut row_marked: Vec<bool> = Vec::new();
    let mut j: usize = 0;
    while j < n
        invariant
            j <= n,
            reached.len() == n,
            row_marked.len() == j,
            forall|i: int| 0 <= i < j ==> row_marked[i] == !reached[i],
        decreases n - j,
    {
        row_marked.push(!reached[j]);
        j += 1;
    }
    proof {
        let g = m@;
        assert(is_closed(g, assigned@, unassigned@, reached@)) by {
            assert forall|q: int| 0 <= q < n && is_start(unassigned@, q) implies reached[q] by {
                let i = choose|i: int| 0 <= i < unassigned.len() && #[trigger] unassigned[i] == q;
                assert(reached[unassigned[i] as int]);
            }
        }
        assert forall|q: int| 0 <= q < n implies reached[q] == row_reached(
            g,
            assigned@,
            unassigned@,
            q,
        ) by {
            if row_reached(g, assigned@, unassigned@, q) {
                let trail = choose|trail: Seq<int>| #[trigger]
                    is_trail(g, assigned@, unassigned@, trail) && trail.last() == q;
                lemma_closed_holds_trail(
                    g,
                    assigned@,
                    unassigned@,
                    reached@,
                    trail,
                    trail.len() - 1,
                );
            }
        }
        assert forall|c: int| 0 <= c < n implies cols[c] == column_reached(
            g,
            assigned@,
            unassigned@,
            c,
        ) by {
            if column_reached(g, assigned@, unassigned@, c) {
                let q = choose|q: int|
                    0 <= q < g.len() && #[trigger] row_reached(g, assigned@, unassigned@, q)
                        && g[q][c] == 0;
                assert(reached[q]);
                assert(done.contains(q));
            }
        }
        assert(row_marked@ =~= covered_rows(g, assigned@, unassigned@));
        assert(cols@ =~= covered_cols(g, assigned@, unassigned@));
        assert forall|r: int, c: int| 0 <= r < n && 0 <= c < n && #[trigger] g[r][c] == 0 implies
            row_marked[r] || cols[c] by {
            if reached[r] {
                assert(column_reached(g, assigned@, unassigned@, c));
            }
        }
    }
    Marking { row_marked, col_marked: cols }
}

} // verus!
