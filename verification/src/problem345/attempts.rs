//! What the attempts of the rows without a zero do to the owners of the
//! columns: an attempt that finds a column moves the assignments along one
//! alternating trail and gives no row up; an attempt that finds none
//! changes nothing and has looked at every column it could reach; and
//! round upon round the attempts come to rest.

use vstd::prelude::*;
use crate::problem345::augment::{
    any_found, augmented, choices, free_rows, improved, lemma_choices, lemma_free_rows,
    lemma_listed, lemma_owners, lemma_trial, listed, owners, progresses, round, rounds, trial,
    unseen, zero_owned,
};
use crate::problem345::marking::{lemma_reach_one, unreached_count};
use crate::problem345::matrix::Grid;
use crate::problem345::search::{
    column_taken, independent_zeros, is_maximal, lemma_taken_push, row_taken, Search,
};

verus! {

/// Row `r` owns column `c`.
pub open spec fn owns(owner: Seq<usize>, r: int, c: int) -> bool {
    0 <= c < owner.len() && owner[c] == r
}

/// Row `r` owns a column.
pub open spec fn has_column(owner: Seq<usize>, r: int) -> bool {
    exists|c: int| #[trigger] owns(owner, r, c)
}

/// No row owns two columns.
pub open spec fn one_each(owner: Seq<usize>) -> bool {
    forall|a: int, b: int|
        0 <= a < b < owner.len() && #[trigger] owner[a] < owner.len() ==> owner[a]
            != #[trigger] owner[b]
}

/// Every column that row `x` owns has been looked at.
pub open spec fn all_seen(owner: Seq<usize>, seen: Seq<bool>, x: int) -> bool {
    forall|c: int| #[trigger] owns(owner, x, c) ==> seen[c]
}

/// What an attempt that found a column has done: row `r` has gained column
/// `e` and kept what it had; no other row owns two columns; every other row
/// still owns a column if it did, and none if it did not; a row whose
/// columns had all been looked at before owns what it owned; no column has
/// become free; and a column that was free is owned.
pub open spec fn placed(
    before: Seq<usize>,
    seen: Seq<bool>,
    after: Seq<usize>,
    r: int,
    e: int,
) -> bool {
    let n = before.len();
    &&& after.len() == n
    &&& 0 <= e < n
    &&& after[e] == r
    &&& before[e] != r
    &&& forall|c: int| 0 <= c < n && c != e ==> (#[trigger] after[c] == r <==> before[c] == r)
    &&& forall|a: int, b: int|
        0 <= a < b < n && #[trigger] after[a] < n && after[a] == #[trigger] after[b] ==> after[a]
            == r
    &&& forall|x: int|
        0 <= x < n && x != r ==> (#[trigger] has_column(before, x) <==> has_column(after, x))
    &&& forall|x: int, c: int|
        0 <= x < n && x != r && all_seen(before, seen, x) && 0 <= c < n ==> (#[trigger] owns(
            after,
            x,
            c,
        ) <==> before[c] == x)
    &&& forall|c: int| 0 <= c < n && before[c] < n ==> #[trigger] after[c] < n
    &&& exists|f: int| 0 <= f < n && #[trigger] before[f] >= n && after[f] < n
}

/// What was found for the columns that had been looked at holds for those
/// that had been looked at earlier.
proof fn lemma_placed_earlier(
    before: Seq<usize>,
    seen: Seq<bool>,
    later: Seq<bool>,
    after: Seq<usize>,
    r: int,
    e: int,
)
    requires
        placed(before, later, after, r, e),
        seen.len() == later.len(),
        forall|c: int| 0 <= c < seen.len() && seen[c] ==> later[c],
        later.len() == before.len(),
    ensures
        placed(before, seen, after, r, e),
{
    let n = before.len();
    assert forall|x: int, c: int|
        0 <= x < n && x != r && all_seen(before, seen, x) && 0 <= c < n implies (#[trigger] owns(
        after,
        x,
        c,
    ) <==> before[c] == x) by {
        assert(all_seen(before, later, x)) by {
            assert forall|j: int| #[trigger] owns(before, x, j) implies later[j] by {
                assert(seen[j]);
            }
        }
    }
    let f = choose|f: int| 0 <= f < n && #[trigger] before[f] >= n && after[f] < n;
    assert(0 <= f < n && before[f] >= n && after[f] < n);
}

/// An attempt that finds no column changes no owner; one that finds a
/// column places its row as `placed` says. Either way it forgets no column
/// that had been looked at.
pub proof fn lemma_trial_places(
    g: Grid,
    owner: Seq<usize>,
    seen: Seq<bool>,
    r: int,
    c: int,
    depth: nat,
)
    requires
        g.len() <= usize::MAX,
        zero_owned(g, owner),
        seen.len() == g.len(),
        0 <= r < g.len(),
        0 <= c,
        one_each(owner),
        all_seen(owner, seen, r),
    ensures
        trial(g, owner, seen, r, c, depth).seen.len() == g.len(),
        forall|j: int|
            0 <= j < g.len() && seen[j] ==> #[trigger] trial(g, owner, seen, r, c, depth).seen[j],
        !trial(g, owner, seen, r, c, depth).found ==> trial(g, owner, seen, r, c, depth).owner
            == owner,
        trial(g, owner, seen, r, c, depth).found ==> exists|e: int|
            placed(owner, seen, trial(g, owner, seen, r, c, depth).owner, r, e),
    decreases depth, g.len() - c,
{
    let n = g.len() as int;
    let t = trial(g, owner, seen, r, c, depth);
    if c >= n {
    } else if g[r][c] == 0 && !seen[c] {
        let looked = seen.update(c, true);
        assert(all_seen(owner, looked, r)) by {
            assert forall|j: int| #[trigger] owns(owner, r, j) implies looked[j] by {
                assert(seen[j]);
            }
        }
        if owner[c] >= n {
            let after = owner.update(c, r as usize);
            assert(t.owner == after);
            assert(0 <= c < n && owner[c] >= n && after[c] < n);
            assert(placed(owner, seen, after, r, c)) by {
                assert forall|x: int| 0 <= x < n && x != r implies (#[trigger] has_column(
                    owner,
                    x,
                ) <==> has_column(after, x)) by {
                    if has_column(owner, x) {
                        let j = choose|j: int| #[trigger] owns(owner, x, j);
                        assert(owns(after, x, j));
                    }
                    if has_column(after, x) {
                        let j = choose|j: int| #[trigger] owns(after, x, j);
                        assert(owns(owner, x, j));
                    }
                }
            }
        } else if depth == 0 {
            lemma_trial_places(g, owner, looked, r, c + 1, depth);
            assert(t == trial(g, owner, looked, r, c + 1, depth));
            if t.found {
                let e = choose|e: int| placed(owner, looked, t.owner, r, e);
                lemma_placed_earlier(owner, seen, looked, t.owner, r, e);
                assert(placed(owner, seen, t.owner, r, e));
            }
        } else {
            let q = owner[c] as int;
            assert(q != r) by {
                if q == r {
                    assert(owns(owner, r, c));
                }
            }
            assert(all_seen(owner, looked, q)) by {
                assert forall|j: int| #[trigger] owns(owner, q, j) implies looked[j] by {
                    if j != c {
                        if j < c {
                            assert(owner[j] != owner[c]);
                        } else {
                            assert(owner[c] != owner[j]);
                        }
                    }
                }
            }
            lemma_trial_places(g, owner, looked, q, 0, (depth - 1) as nat);
            let inner = trial(g, owner, looked, q, 0, (depth - 1) as nat);
            if inner.found {
                let eq = choose|e: int| placed(owner, looked, inner.owner, q, e);
                let mid = inner.owner;
                let after = mid.update(c, r as usize);
                assert(mid[c] == q);
                assert forall|j: int| 0 <= j < n && #[trigger] mid[j] == q implies j == c || j
                    == eq by {
                    if j != eq && j != c {
                        assert(owner[j] == q);
                        if j < c {
                            assert(owner[j] != owner[c]);
                        } else {
                            assert(owner[c] != owner[j]);
                        }
                    }
                }
                assert(all_seen(owner, looked, r));
                let f = choose|f: int| 0 <= f < n && #[trigger] owner[f] >= n && mid[f] < n;
                assert(0 <= f < n && owner[f] >= n && after[f] < n);
                assert forall|j: int| 0 <= j < n && j != c implies (#[trigger] after[j] == r
                    <==> owner[j] == r) by {
                    assert(owns(mid, r, j) <==> owner[j] == r);
                }
                assert forall|a: int, b: int|
                    0 <= a < b < n && #[trigger] after[a] < n && after[a]
                        == #[trigger] after[b] implies after[a] == r by {
                    if a != c && b != c {
                        assert(mid[a] == mid[b]);
                        assert(mid[a] == q);
                        assert(mid[b] == q);
                    }
                }
                assert forall|x: int| 0 <= x < n && x != r implies (#[trigger] has_column(
                    owner,
                    x,
                ) <==> has_column(after, x)) by {
                    if x == q {
                        assert(owns(owner, q, c));
                        assert(owns(after, q, eq));
                    } else {
                        assert(has_column(owner, x) <==> has_column(mid, x));
                        if has_column(mid, x) {
                            let j = choose|j: int| #[trigger] owns(mid, x, j);
                            assert(owns(after, x, j));
                        }
                        if has_column(after, x) {
                            let j = choose|j: int| #[trigger] owns(after, x, j);
                            assert(owns(mid, x, j));
                        }
                    }
                }
                assert forall|x: int, j: int|
                    0 <= x < n && x != r && all_seen(owner, seen, x) && 0 <= j < n implies (
                #[trigger] owns(after, x, j) <==> owner[j] == x) by {
                    if x == q {
                        assert(owns(owner, q, c));
                    } else {
                        assert(all_seen(owner, looked, x)) by {
                            assert forall|k: int| #[trigger] owns(owner, x, k) implies looked[k] by {
                                assert(seen[k]);
                            }
                        }
                        assert(owns(mid, x, j) <==> owner[j] == x);
                    }
                }
                assert(placed(owner, seen, after, r, c));
                assert(t.owner == after);
            } else {
                assert(inner.owner == owner);
                assert(t == trial(g, owner, inner.seen, r, c + 1, depth));
                lemma_trial_places(g, owner, inner.seen, r, c + 1, depth);
                if t.found {
                    let e = choose|e: int| placed(owner, inner.seen, t.owner, r, e);
                    lemma_placed_earlier(owner, seen, inner.seen, t.owner, r, e);
                    assert(placed(owner, seen, t.owner, r, e));
                }
            }
        }
    } else {
        lemma_trial_places(g, owner, seen, r, c + 1, depth);
        assert(t == trial(g, owner, seen, r, c + 1, depth));
    }
}

/// An attempt that finds no column has looked at every zero of its row
/// from the column it began with, and every column it has newly looked at
/// was owned.
pub proof fn lemma_trial_fails(
    g: Grid,
    owner: Seq<usize>,
    seen: Seq<bool>,
    r: int,
    c: int,
    depth: nat,
)
    requires
        g.len() <= usize::MAX,
        zero_owned(g, owner),
        seen.len() == g.len(),
        0 <= r < g.len(),
        0 <= c,
        one_each(owner),
        all_seen(owner, seen, r),
        !trial(g, owner, seen, r, c, depth).found,
    ensures
        forall|j: int|
            0 <= j < g.len() && #[trigger] trial(g, owner, seen, r, c, depth).seen[j] && !seen[j]
                ==> owner[j] < g.len(),
        forall|j: int|
            c <= j < g.len() && g[r][j] == 0 ==> #[trigger] trial(
                g,
                owner,
                seen,
                r,
                c,
                depth,
            ).seen[j],
    decreases depth, g.len() - c,
{
    let n = g.len() as int;
    let t = trial(g, owner, seen, r, c, depth);
    lemma_trial_places(g, owner, seen, r, c, depth);
    if c >= n {
    } else if g[r][c] == 0 && !seen[c] {
        let looked = seen.update(c, true);
        assert(all_seen(owner, looked, r)) by {
            assert forall|j: int| #[trigger] owns(owner, r, j) implies looked[j] by {
                assert(seen[j]);
            }
        }
        if owner[c] >= n {
        } else if depth == 0 {
            let rest = trial(g, owner, looked, r, c + 1, depth);
            assert(t == rest);
            lemma_trial_fails(g, owner, looked, r, c + 1, depth);
            lemma_trial_places(g, owner, looked, r, c + 1, depth);
            assert(rest.seen[c]);
            assert forall|j: int| 0 <= j < n && #[trigger] t.seen[j] && !seen[j] implies owner[j]
                < n by {
                if j != c {
                    assert(rest.seen[j] && !looked[j]);
                }
            }
        } else {
            let q = owner[c] as int;
            assert(all_seen(owner, looked, q)) by {
                assert forall|j: int| #[trigger] owns(owner, q, j) implies looked[j] by {
                    if j != c {
                        if j < c {
                            assert(owner[j] != owner[c]);
                        } else {
                            assert(owner[c] != owner[j]);
                        }
                    }
                }
            }
            let inner = trial(g, owner, looked, q, 0, (depth - 1) as nat);
            assert(!inner.found);
            lemma_trial_places(g, owner, looked, q, 0, (depth - 1) as nat);
            lemma_trial_fails(g, owner, looked, q, 0, (depth - 1) as nat);
            assert(inner.owner == owner);
            assert(all_seen(owner, inner.seen, r)) by {
                assert forall|j: int| #[trigger] owns(owner, r, j) implies inner.seen[j] by {
                    assert(looked[j]);
                }
            }
            let rest = trial(g, owner, inner.seen, r, c + 1, depth);
            assert(t == rest);
            lemma_trial_fails(g, owner, inner.seen, r, c + 1, depth);
            lemma_trial_places(g, owner, inner.seen, r, c + 1, depth);
            assert(inner.seen[c]);
            assert(rest.seen[c]);
            assert forall|j: int| 0 <= j < n && #[trigger] t.seen[j] && !seen[j] implies owner[j]
                < n by {
                if j != c {
                    if inner.seen[j] {
                        assert(inner.seen[j] && !looked[j]);
                    } else {
                        assert(rest.seen[j] && !inner.seen[j]);
                    }
                }
            }
        }
    } else {
        let rest = trial(g, owner, seen, r, c + 1, depth);
        assert(t == rest);
        lemma_trial_fails(g, owner, seen, r, c + 1, depth);
        lemma_trial_places(g, owner, seen, r, c + 1, depth);
        if g[r][c] == 0 {
            assert(seen[c]);
            assert(rest.seen[c]);
        }
    }
}

/// Where more columns have been looked at, fewer are left.
pub proof fn lemma_fewer_left(seen: Seq<bool>, later: Seq<bool>)
    requires
        seen.len() == later.len(),
        forall|j: int| 0 <= j < seen.len() && seen[j] ==> #[trigger] later[j],
    ensures
        unreached_count(later) <= unreached_count(seen),
    decreases seen.len(),
{
    if seen.len() > 0 {
        let a = seen.drop_last();
        let b = later.drop_last();
        assert forall|j: int| 0 <= j < a.len() && a[j] implies #[trigger] b[j] by {
            assert(seen[j]);
            assert(later[j]);
        }
        lemma_fewer_left(a, b);
        assert(seen[seen.len() - 1] == seen.last());
        assert(later[later.len() - 1] == later.last());
    }
}

/// An attempt that finds no column, and that may go as deep as columns are
/// left to look at, has looked at every zero of every row whose column it
/// has newly looked at.
pub proof fn lemma_trial_closed(
    g: Grid,
    owner: Seq<usize>,
    seen: Seq<bool>,
    r: int,
    c: int,
    depth: nat,
)
    requires
        g.len() <= usize::MAX,
        zero_owned(g, owner),
        seen.len() == g.len(),
        0 <= r < g.len(),
        0 <= c,
        one_each(owner),
        all_seen(owner, seen, r),
        unreached_count(seen) <= depth,
        !trial(g, owner, seen, r, c, depth).found,
    ensures
        forall|j: int, k: int|
            0 <= j < g.len() && 0 <= k < g.len() && #[trigger] trial(
                g,
                owner,
                seen,
                r,
                c,
                depth,
            ).seen[j] && !seen[j] && #[trigger] g[owner[j] as int][k] == 0 ==> trial(
                g,
                owner,
                seen,
                r,
                c,
                depth,
            ).seen[k],
    decreases depth, g.len() - c,
{
    let n = g.len() as int;
    let t = trial(g, owner, seen, r, c, depth);
    lemma_trial_places(g, owner, seen, r, c, depth);
    if c >= n {
    } else if g[r][c] == 0 && !seen[c] {
        let looked = seen.update(c, true);
        lemma_reach_one(seen, c);
        assert(all_seen(owner, looked, r)) by {
            assert forall|j: int| #[trigger] owns(owner, r, j) implies looked[j] by {
                assert(seen[j]);
            }
        }
        if owner[c] >= n {
        } else if depth == 0 {
        } else {
            let q = owner[c] as int;
            assert(all_seen(owner, looked, q)) by {
                assert forall|j: int| #[trigger] owns(owner, q, j) implies looked[j] by {
                    if j != c {
                        if j < c {
                            assert(owner[j] != owner[c]);
                        } else {
                            assert(owner[c] != owner[j]);
                        }
                    }
                }
            }
            let inner = trial(g, owner, looked, q, 0, (depth - 1) as nat);
            assert(!inner.found);
            lemma_trial_places(g, owner, looked, q, 0, (depth - 1) as nat);
            lemma_trial_fails(g, owner, looked, q, 0, (depth - 1) as nat);
            lemma_trial_closed(g, owner, looked, q, 0, (depth - 1) as nat);
            assert(inner.owner == owner);
            assert(all_seen(owner, inner.seen, r)) by {
                assert forall|j: int| #[trigger] owns(owner, r, j) implies inner.seen[j] by {
                    assert(looked[j]);
                }
            }
            lemma_fewer_left(looked, inner.seen);
            let rest = trial(g, owner, inner.seen, r, c + 1, depth);
            assert(t == rest);
            lemma_trial_places(g, owner, inner.seen, r, c + 1, depth);
            lemma_trial_closed(g, owner, inner.seen, r, c + 1, depth);
            assert forall|j: int, k: int|
                0 <= j < n && 0 <= k < n && #[trigger] t.seen[j] && !seen[j]
                    && #[trigger] g[owner[j] as int][k] == 0 implies t.seen[k] by {
                if j == c {
                    assert(inner.seen[k]);
                } else if inner.seen[j] {
                    assert(inner.seen[j] && !looked[j]);
                    assert(inner.seen[k]);
                } else {
                    assert(rest.seen[j] && !inner.seen[j]);
                }
            }
        }
    } else {
        let rest = trial(g, owner, seen, r, c + 1, depth);
        assert(t == rest);
        lemma_trial_closed(g, owner, seen, r, c + 1, depth);
    }
}

/// With no column looked at, as many are left as there are.
pub proof fn lemma_all_left(n: nat)
    ensures
        unreached_count(unseen(n)) == n,
    decreases n,
{
    if n > 0 {
        lemma_all_left((n - 1) as nat);
        assert(unseen(n).drop_last() =~= unseen((n - 1) as nat));
    }
}

/// Under independent zeros every column is owned by the row of its
/// assigned cell, or free if it has none, and no row owns two columns.
pub proof fn lemma_owners_exact(g: Grid, assigned: Seq<(usize, usize)>)
    requires
        g.len() <= usize::MAX,
        independent_zeros(g, assigned),
    ensures
        owners(assigned, g.len()).len() == g.len(),
        forall|k: int|
            0 <= k < assigned.len() ==> owners(assigned, g.len())[(#[trigger] assigned[k]).1 as int]
                == assigned[k].0,
        forall|c: int|
            0 <= c < g.len() && !column_taken(assigned, c) ==> #[trigger] owners(
                assigned,
                g.len(),
            )[c] == g.len(),
        one_each(owners(assigned, g.len())),
        forall|r: int|
            0 <= r < g.len() ==> (#[trigger] has_column(owners(assigned, g.len()), r)
                <==> row_taken(assigned, r)),
    decreases assigned.len(),
{
    let n = g.len();
    let o = owners(assigned, n);
    if assigned.len() > 0 {
        let front = assigned.drop_last();
        let last = assigned.last();
        assert(assigned[assigned.len() - 1] == last);
        assert forall|i: int| 0 <= i < front.len() implies (#[trigger] front[i]).0 < g.len()
            && front[i].1 < g.len() && g[front[i].0 as int][front[i].1 as int] == 0 by {
            assert(front[i] == assigned[i]);
        }
        assert forall|i: int, j: int| 0 <= i < j < front.len() implies (#[trigger] front[i]).0 != (
        #[trigger] front[j]).0 && front[i].1 != front[j].1 by {
            assert(front[i] == assigned[i]);
            assert(front[j] == assigned[j]);
        }
        lemma_owners_exact(g, front);
        let before = owners(front, n);
        assert(!column_taken(front, last.1 as int)) by {
            if column_taken(front, last.1 as int) {
                let k = choose|k: int| 0 <= k < front.len() && (#[trigger] front[k]).1 == last.1;
                assert(assigned[k].1 != assigned[assigned.len() - 1].1);
            }
        }
        assert(!row_taken(front, last.0 as int)) by {
            if row_taken(front, last.0 as int) {
                let k = choose|k: int| 0 <= k < front.len() && (#[trigger] front[k]).0 == last.0;
                assert(assigned[k].0 != assigned[assigned.len() - 1].0);
            }
        }
        assert(before[last.1 as int] == n);
        assert forall|k: int| 0 <= k < assigned.len() implies o[(#[trigger] assigned[k]).1 as int]
            == assigned[k].0 by {
            if k < front.len() {
                assert(front[k] == assigned[k]);
                assert(assigned[k].1 != assigned[assigned.len() - 1].1);
            }
        }
        assert forall|c: int| 0 <= c < n && !column_taken(assigned, c) implies #[trigger] o[c]
            == n by {
            lemma_taken_push_front(front, last, c);
        }
        assert forall|a: int, b: int|
            0 <= a < b < o.len() && #[trigger] o[a] < o.len() implies o[a] != #[trigger] o[b] by {
            if o[a] == o[b] {
                let x = o[a] as int;
                if a != last.1 && b != last.1 {
                    assert(before[a] != before[b]);
                } else if a == last.1 {
                    assert(owns(before, x, b));
                    assert(has_column(before, x));
                } else {
                    assert(owns(before, x, a));
                    assert(has_column(before, x));
                }
            }
        }
        assert forall|r: int| 0 <= r < n implies (#[trigger] has_column(o, r) <==> row_taken(
            assigned,
            r,
        )) by {
            if has_column(o, r) {
                let c = choose|c: int| #[trigger] owns(o, r, c);
                if c == last.1 {
                    assert(assigned[assigned.len() - 1].0 == r);
                } else {
                    assert(owns(before, r, c));
                    assert(has_column(before, r));
                    let k = choose|k: int| 0 <= k < front.len() && (#[trigger] front[k]).0 == r;
                    assert(assigned[k].0 == r);
                }
            }
            if row_taken(assigned, r) {
                let k = choose|k: int| 0 <= k < assigned.len() && (#[trigger] assigned[k]).0 == r;
                assert(owns(o, r, assigned[k].1 as int));
            }
        }
    } else {
        assert forall|r: int| 0 <= r < n implies (#[trigger] has_column(o, r) <==> row_taken(
            assigned,
            r,
        )) by {
            if has_column(o, r) {
                let c = choose|c: int| #[trigger] owns(o, r, c);
            }
        }
    }
}

/// A column taken after one more cell was assigned was taken before or is
/// the column of that cell.
proof fn lemma_taken_push_front(front: Seq<(usize, usize)>, last: (usize, usize), c: int)
    ensures
        column_taken(front, c) ==> column_taken(front.push(last), c),
        last.1 == c ==> column_taken(front.push(last), c),
{
    lemma_taken_push(front, last, c);
}

/// What holds of the owners once the first `k` unassigned rows have made
/// their attempts: no row owns two columns, every row that owned a column
/// owns one, no owned column is free again, and the rows still to come own
/// none.
pub open spec fn attempts_hold(
    g: Grid,
    start: Seq<usize>,
    unassigned: Seq<usize>,
    k: int,
    owner: Seq<usize>,
) -> bool {
    &&& zero_owned(g, owner)
    &&& one_each(owner)
    &&& forall|x: int| 0 <= x < g.len() && #[trigger] has_column(start, x) ==> has_column(owner, x)
    &&& forall|c: int| 0 <= c < g.len() && start[c] < g.len() ==> #[trigger] owner[c] < g.len()
    &&& forall|i: int|
        k <= i < unassigned.len() ==> !has_column(owner, #[trigger] unassigned[i] as int)
}

/// The attempts of the unassigned rows keep what `attempts_hold` says.
pub proof fn lemma_attempts(g: Grid, start: Seq<usize>, unassigned: Seq<usize>, k: int)
    requires
        g.len() <= usize::MAX,
        zero_owned(g, start),
        one_each(start),
        0 <= k <= unassigned.len(),
        forall|i: int| 0 <= i < unassigned.len() ==> #[trigger] unassigned[i] < g.len(),
        forall|i: int, j: int|
            0 <= i < j < unassigned.len() ==> #[trigger] unassigned[i] != #[trigger] unassigned[j],
        forall|i: int| 0 <= i < unassigned.len() ==> !has_column(start, #[trigger] unassigned[i] as int),
    ensures
        attempts_hold(g, start, unassigned, k, augmented(g, start, unassigned, k)),
    decreases k,
{
    let n = g.len() as int;
    if k > 0 {
        lemma_attempts(g, start, unassigned, k - 1);
        let before = augmented(g, start, unassigned, k - 1);
        let u = unassigned[k - 1] as int;
        let fresh = unseen(g.len());
        let t = trial(g, before, fresh, u, 0, g.len());
        let after = t.owner;
        assert(!has_column(before, u));
        assert(all_seen(before, fresh, u)) by {
            assert forall|c: int| #[trigger] owns(before, u, c) implies fresh[c] by {
                assert(has_column(before, u));
            }
        }
        lemma_trial(g, before, fresh, u, 0, g.len());
        lemma_trial_places(g, before, fresh, u, 0, g.len());
        if t.found {
            let e = choose|e: int| placed(before, fresh, after, u, e);
            assert(owns(after, u, e));
            assert(one_each(after)) by {
                assert forall|a: int, b: int|
                    0 <= a < b < after.len() && #[trigger] after[a] < after.len() implies after[a]
                    != #[trigger] after[b] by {
                    if after[a] == after[b] {
                        assert(after[a] == u);
                        if a != e {
                            assert(owns(before, u, a));
                        } else {
                            assert(owns(before, u, b));
                        }
                    }
                }
            }
            assert forall|x: int| 0 <= x < n && #[trigger] has_column(start, x) implies has_column(
                after,
                x,
            ) by {
                assert(has_column(before, x));
            }
            assert forall|i: int| k <= i < unassigned.len() implies !has_column(
                after,
                #[trigger] unassigned[i] as int,
            ) by {
                assert(unassigned[k - 1] != unassigned[i]);
                assert(!has_column(before, unassigned[i] as int));
            }
        }
    }
}

/// A row that owns one of the columns below `upto` has a column read off
/// for it.
pub proof fn lemma_choices_complete(owner: Seq<usize>, upto: int, r: int, c: int)
    requires
        0 <= upto <= owner.len() <= usize::MAX,
        0 <= c < upto,
        0 <= r < owner.len(),
        owner[c] == r,
    ensures
        choices(owner, upto)[r] < owner.len(),
    decreases upto,
{
    lemma_choices(owner, upto);
    lemma_choices(owner, upto - 1);
    if c < upto - 1 {
        lemma_choices_complete(owner, upto - 1, r, c);
    }
}

/// The rows listed as unassigned are those without a column.
pub proof fn lemma_listed_unassigned(choice: Seq<usize>, upto: int)
    requires
        0 <= upto <= choice.len() <= usize::MAX,
    ensures
        forall|i: int|
            0 <= i < listed(choice, upto).unassigned.len() ==> choice[(#[trigger] listed(
                choice,
                upto,
            ).unassigned[i]) as int] >= choice.len(),
    decreases upto,
{
    if upto > 0 {
        lemma_listed_unassigned(choice, upto - 1);
        lemma_listed(choice, upto - 1);
        let before = listed(choice, upto - 1);
        let now = listed(choice, upto);
        assert forall|i: int| 0 <= i < now.unassigned.len() implies choice[(
        #[trigger] now.unassigned[i]) as int] >= choice.len() by {
            if i < before.unassigned.len() {
                assert(now.unassigned[i] == before.unassigned[i]);
            } else {
                assert(now.unassigned[i] == (upto - 1) as usize);
            }
        }
    }
}

/// How many columns are free.
pub open spec fn free_count(owner: Seq<usize>, n: nat) -> nat
    decreases owner.len(),
{
    if owner.len() == 0 {
        0
    } else {
        free_count(owner.drop_last(), n) + if owner.last() >= n {
            1nat
        } else {
            0nat
        }
    }
}

/// There are no more free columns than columns, and where none is counted
/// none is free.
pub proof fn lemma_free_count(owner: Seq<usize>, n: nat)
    ensures
        free_count(owner, n) <= owner.len(),
        free_count(owner, n) == 0 ==> forall|c: int| 0 <= c < owner.len() ==> #[trigger] owner[c] < n,
    decreases owner.len(),
{
    if owner.len() > 0 {
        lemma_free_count(owner.drop_last(), n);
        if free_count(owner, n) == 0 {
            assert forall|c: int| 0 <= c < owner.len() implies #[trigger] owner[c] < n by {
                if c < owner.len() - 1 {
                    assert(owner.drop_last()[c] == owner[c]);
                }
            }
        }
    }
}

/// Where no owned column becomes free there are no more free columns than
/// before, and fewer if a free column has become owned.
pub proof fn lemma_free_count_drops(before: Seq<usize>, after: Seq<usize>, n: nat)
    requires
        before.len() == after.len(),
        forall|c: int| 0 <= c < before.len() && before[c] < n ==> #[trigger] after[c] < n,
    ensures
        free_count(after, n) <= free_count(before, n),
        (exists|f: int| 0 <= f < before.len() && #[trigger] before[f] >= n && after[f] < n)
            ==> free_count(after, n) < free_count(before, n),
    decreases before.len(),
{
    if before.len() > 0 {
        let b = before.drop_last();
        let a = after.drop_last();
        assert forall|c: int| 0 <= c < b.len() && b[c] < n implies #[trigger] a[c] < n by {
            assert(before[c] < n);
            assert(after[c] < n);
        }
        lemma_free_count_drops(b, a, n);
        assert(after[after.len() - 1] == after.last());
        assert(before[before.len() - 1] == before.last());
        if exists|f: int| 0 <= f < before.len() && #[trigger] before[f] >= n && after[f] < n {
            let f = choose|f: int| 0 <= f < before.len() && #[trigger] before[f] >= n && after[f] < n;
            if f < before.len() - 1 {
                assert(0 <= f < b.len() && b[f] >= n && a[f] < n);
            }
        }
    }
}

/// An attempt made in a round counts as found if one of the later
/// attempts counts.
pub proof fn lemma_any_found_grows(g: Grid, owner: Seq<usize>, rows: Seq<usize>, j: int, k: int)
    requires
        j <= k,
    ensures
        any_found(g, owner, rows, j) ==> any_found(g, owner, rows, k),
    decreases k - j,
{
    if j < k {
        lemma_any_found_grows(g, owner, rows, j, k - 1);
    }
}

/// Every attempt that finds a column leaves one free column fewer, and
/// attempts that find none leave the owners as they were.
pub proof fn lemma_round_counts(g: Grid, start: Seq<usize>, rows: Seq<usize>, k: int)
    requires
        g.len() <= usize::MAX,
        zero_owned(g, start),
        one_each(start),
        0 <= k <= rows.len(),
        forall|i: int| 0 <= i < rows.len() ==> #[trigger] rows[i] < g.len(),
        forall|i: int, j: int| 0 <= i < j < rows.len() ==> #[trigger] rows[i] != #[trigger] rows[j],
        forall|i: int| 0 <= i < rows.len() ==> !has_column(start, #[trigger] rows[i] as int),
    ensures
        free_count(augmented(g, start, rows, k), g.len()) + (if any_found(g, start, rows, k) {
            1int
        } else {
            0int
        }) <= free_count(start, g.len()),
        !any_found(g, start, rows, k) ==> augmented(g, start, rows, k) == start,
    decreases k,
{
    if k > 0 {
        lemma_round_counts(g, start, rows, k - 1);
        lemma_attempts(g, start, rows, k - 1);
        let before = augmented(g, start, rows, k - 1);
        let u = rows[k - 1] as int;
        let fresh = unseen(g.len());
        let t = trial(g, before, fresh, u, 0, g.len());
        assert(!has_column(before, u));
        assert(all_seen(before, fresh, u)) by {
            assert forall|c: int| #[trigger] owns(before, u, c) implies fresh[c] by {
                assert(has_column(before, u));
            }
        }
        lemma_trial(g, before, fresh, u, 0, g.len());
        lemma_trial_places(g, before, fresh, u, 0, g.len());
        if t.found {
            let e = choose|e: int| placed(before, fresh, t.owner, u, e);
            lemma_free_count_drops(before, t.owner, g.len());
        }
    }
}

/// What holds of the owners after round upon round from owners of zeros of
/// which no row owns two: they are such owners still, every row that owned
/// a column owns one, and a further round would place no row.
pub proof fn lemma_rounds_settle(g: Grid, owner: Seq<usize>, fuel: nat)
    requires
        g.len() <= usize::MAX,
        zero_owned(g, owner),
        one_each(owner),
        free_count(owner, g.len()) <= fuel,
    ensures
        zero_owned(g, rounds(g, owner, fuel)),
        one_each(rounds(g, owner, fuel)),
        !progresses(g, rounds(g, owner, fuel)),
        forall|x: int|
            0 <= x < g.len() && #[trigger] has_column(owner, x) ==> has_column(
                rounds(g, owner, fuel),
                x,
            ),
    decreases fuel,
{
    let rows = free_rows(owner);
    let len = rows.len() as int;
    lemma_free_rows(owner);
    lemma_rows_are_free(owner);
    lemma_round_counts(g, owner, rows, len);
    lemma_attempts(g, owner, rows, len);
    if fuel == 0 {
    } else if !progresses(g, owner) {
    } else {
        let next = round(g, owner);
        lemma_rounds_settle(g, next, (fuel - 1) as nat);
        assert forall|x: int| 0 <= x < g.len() && #[trigger] has_column(owner, x) implies has_column(
            rounds(g, owner, fuel),
            x,
        ) by {
            assert(has_column(next, x));
        }
    }
}

/// The rows listed as free own no column.
pub proof fn lemma_rows_are_free(owner: Seq<usize>)
    requires
        owner.len() <= usize::MAX,
    ensures
        forall|i: int|
            0 <= i < free_rows(owner).len() ==> !has_column(owner, #[trigger] free_rows(owner)[i] as int),
{
    let n = owner.len() as int;
    let choice = choices(owner, n);
    lemma_choices(owner, n);
    lemma_listed(choice, n);
    lemma_listed_unassigned(choice, n);
    assert forall|i: int| 0 <= i < free_rows(owner).len() implies !has_column(
        owner,
        #[trigger] free_rows(owner)[i] as int,
    ) by {
        let u = free_rows(owner)[i] as int;
        if has_column(owner, u) {
            let c = choose|c: int| #[trigger] owns(owner, u, c);
            lemma_choices_complete(owner, n, u, c);
        }
    }
}

/// Improving a search gives no assigned row up, and leaves no unassigned
/// row with a zero in a free column.
pub proof fn lemma_improved_keeps(g: Grid, s: Search)
    requires
        g.len() <= usize::MAX,
        independent_zeros(g, s.assigned),
    ensures
        forall|r: int|
            0 <= r < g.len() && #[trigger] row_taken(s.assigned, r) ==> row_taken(
                improved(g, s).assigned,
                r,
            ),
        is_maximal(g, improved(g, s)),
{
    let n = g.len() as int;
    let start = owners(s.assigned, g.len());
    lemma_owners(g, s.assigned);
    lemma_owners_exact(g, s.assigned);
    lemma_free_count(start, g.len());
    lemma_rounds_settle(g, start, g.len());
    let owner = rounds(g, start, g.len());
    let rows = free_rows(owner);
    let choice = choices(owner, n);
    lemma_choices(owner, n);
    lemma_listed(choice, n);
    lemma_listed_unassigned(choice, n);
    lemma_free_rows(owner);
    lemma_rows_are_free(owner);
    let t = improved(g, s);
    assert forall|r: int| 0 <= r < n && has_column(owner, r) implies #[trigger] row_taken(
        t.assigned,
        r,
    ) by {
        let c = choose|c: int| #[trigger] owns(owner, r, c);
        lemma_choices_complete(owner, n, r, c);
        if t.unassigned.contains(r as usize) {
            let i = choose|i: int| 0 <= i < t.unassigned.len() && t.unassigned[i] == r as usize;
            assert(choice[t.unassigned[i] as int] >= choice.len());
        }
    }
    assert forall|r: int| 0 <= r < n && #[trigger] row_taken(s.assigned, r) implies row_taken(
        t.assigned,
        r,
    ) by {
        assert(has_column(start, r));
        assert(has_column(owner, r));
    }
    assert forall|i: int, c: int|
        0 <= i < t.unassigned.len() && 0 <= c < n && #[trigger] g[t.unassigned[i] as int][c]
            == 0 implies column_taken(t.assigned, c) by {
        let x = t.unassigned[i] as int;
        lemma_stable_attempt_fails(g, owner, i);
        let fresh = unseen(g.len());
        let a = trial(g, owner, fresh, x, 0, g.len());
        assert(all_seen(owner, fresh, x)) by {
            assert forall|j: int| #[trigger] owns(owner, x, j) implies fresh[j] by {
                assert(has_column(owner, x));
            }
        }
        lemma_trial_fails(g, owner, fresh, x, 0, g.len());
        assert(a.seen[c] && !fresh[c]);
        assert(owner[c] < n);
        let y = owner[c] as int;
        lemma_choices_complete(owner, n, y, c);
        let cy = choice[y] as int;
        assert(owner[cy] == y);
        assert(cy == c) by {
            if cy < c {
                assert(owner[cy] != owner[c]);
            } else if c < cy {
                assert(owner[c] != owner[cy]);
            }
        }
        assert(owns(owner, y, c));
        assert(has_column(owner, y));
        assert(row_taken(t.assigned, y));
        let m = choose|m: int| 0 <= m < t.assigned.len() && (#[trigger] t.assigned[m]).0 == y;
        assert(choice[t.assigned[m].0 as int] == t.assigned[m].1);
        assert(t.assigned[m].1 == c);
    }
}

/// Where a round would place no row, the attempt of every free row fails
/// on the owners as they are.
pub proof fn lemma_stable_attempt_fails(g: Grid, owner: Seq<usize>, i: int)
    requires
        g.len() <= usize::MAX,
        zero_owned(g, owner),
        one_each(owner),
        !progresses(g, owner),
        0 <= i < free_rows(owner).len(),
    ensures
        !trial(g, owner, unseen(g.len()), free_rows(owner)[i] as int, 0, g.len()).found,
{
    let rows = free_rows(owner);
    lemma_free_rows(owner);
    lemma_rows_are_free(owner);
    lemma_any_found_grows(g, owner, rows, i, rows.len() as int);
    lemma_any_found_grows(g, owner, rows, i + 1, rows.len() as int);
    lemma_round_counts(g, owner, rows, i);
}

} // verus!
