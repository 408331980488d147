//! Extending the independent zeros: when the two passes of the search leave
//! rows unassigned, each of them looks for an alternating trail to a column
//! that is still free, and the assignments along the trail move over. The
//! rows without a zero make their attempts round upon round, until a round
//! places none of them.
//!
//! While that goes on the assignment is kept by column: `owner[c]` is the
//! row assigned in column `c`, or the side length where the column is free.

use vstd::prelude::*;
use crate::problem345::attempts::lemma_improved_keeps;
use crate::problem345::matrix::{CostMatrix, Grid};
use crate::problem345::search::{
    column_taken, independent_zeros, is_maximal, lemma_search, lemma_search_apart,
    lemma_search_is_maximal, row_taken, search, Found, Search,
};

verus! {

/// The owners of the columns under the given assignment.
pub open spec fn owners(assigned: Seq<(usize, usize)>, n: nat) -> Seq<usize>
    decreases assigned.len(),
{
    if assigned.len() == 0 {
        Seq::new(n, |c: int| n as usize)
    } else {
        owners(assigned.drop_last(), n).update(assigned.last().1 as int, assigned.last().0)
    }
}

/// Every column is free or owned by a row that holds a zero in it.
pub open spec fn zero_owned(g: Grid, owner: Seq<usize>) -> bool {
    &&& owner.len() == g.len()
    &&& forall|c: int|
        0 <= c < g.len() ==> #[trigger] owner[c] <= g.len() && (owner[c] < g.len()
            ==> g[owner[c] as int][c] == 0)
}

/// How the attempt to place one row ended.
pub struct Trial {
    /// Whether the row found a column.
    pub found: bool,
    /// The owners of the columns after the attempt.
    pub owner: Seq<usize>,
    /// The columns that the attempt has looked at.
    pub seen: Seq<bool>,
}

/// The attempt to place row `r` in a column from `c` on: the first zero of
/// the row in a column not looked at yet is taken if the column is free, or
/// if its owner can be placed elsewhere, at most `depth` rows deep;
/// otherwise the scan goes on to the next column.
pub open spec fn trial(
    g: Grid,
    owner: Seq<usize>,
    seen: Seq<bool>,
    r: int,
    c: int,
    depth: nat,
) -> Trial
    decreases depth, g.len() - c,
{
    if c >= g.len() || c < 0 {
        Trial { found: false, owner, seen }
    } else if g[r][c] == 0 && !seen[c] {
        let looked = seen.update(c, true);
        if owner[c] >= g.len() {
            Trial { found: true, owner: owner.update(c, r as usize), seen: looked }
        } else if depth == 0 {
            trial(g, owner, looked, r, c + 1, depth)
        } else {
            let inner = trial(g, owner, looked, owner[c] as int, 0, (depth - 1) as nat);
            if inner.found {
                Trial { found: true, owner: inner.owner.update(c, r as usize), seen: inner.seen }
            } else {
                trial(g, inner.owner, inner.seen, r, c + 1, depth)
            }
        }
    } else {
        trial(g, owner, seen, r, c + 1, depth)
    }
}

/// No column looked at.
pub open spec fn unseen(n: nat) -> Seq<bool> {
    Seq::new(n, |c: int| false)
}

/// The owners after the first `k` of the unassigned rows have each made
/// their attempt.
pub open spec fn augmented(g: Grid, owner: Seq<usize>, unassigned: Seq<usize>, k: int) -> Seq<
    usize,
>
    decreases k,
{
    if k <= 0 {
        owner
    } else {
        trial(
            g,
            augmented(g, owner, unassigned, k - 1),
            unseen(g.len()),
            unassigned[k - 1] as int,
            0,
            g.len(),
        ).owner
    }
}

/// The column of each row, read off the owners of the columns below
/// `upto`; the side length where a row owns none of them.
pub open spec fn choices(owner: Seq<usize>, upto: int) -> Seq<usize>
    decreases upto,
{
    if upto <= 0 {
        Seq::new(owner.len(), |r: int| owner.len() as usize)
    } else {
        let before = choices(owner, upto - 1);
        if owner[upto - 1] < owner.len() {
            before.update(owner[upto - 1] as int, (upto - 1) as usize)
        } else {
            before
        }
    }
}

/// The rows below `upto` listed in ascending order: with their column
/// where they have one, as unassigned where they have none.
pub open spec fn listed(choice: Seq<usize>, upto: int) -> Search
    decreases upto,
{
    if upto <= 0 {
        Search { assigned: Seq::empty(), deferred: Seq::empty(), unassigned: Seq::empty() }
    } else {
        let before = listed(choice, upto - 1);
        if choice[upto - 1] < choice.len() {
            Search {
                assigned: before.assigned.push(((upto - 1) as usize, choice[upto - 1])),
                ..before
            }
        } else {
            Search { unassigned: before.unassigned.push((upto - 1) as usize), ..before }
        }
    }
}

/// The rows that own no column, in ascending order.
pub open spec fn free_rows(owner: Seq<usize>) -> Seq<usize> {
    listed(choices(owner, owner.len() as int), owner.len() as int).unassigned
}

/// Whether one of the first `k` attempts found a column.
pub open spec fn any_found(g: Grid, owner: Seq<usize>, rows: Seq<usize>, k: int) -> bool
    decreases k,
{
    if k <= 0 {
        false
    } else {
        any_found(g, owner, rows, k - 1) || trial(
            g,
            augmented(g, owner, rows, k - 1),
            unseen(g.len()),
            rows[k - 1] as int,
            0,
            g.len(),
        ).found
    }
}

/// The owners after one round: every row without a column has made its
/// attempt, in ascending order.
pub open spec fn round(g: Grid, owner: Seq<usize>) -> Seq<usize> {
    augmented(g, owner, free_rows(owner), free_rows(owner).len() as int)
}

/// A round from these owners places at least one row.
pub open spec fn progresses(g: Grid, owner: Seq<usize>) -> bool {
    any_found(g, owner, free_rows(owner), free_rows(owner).len() as int)
}

/// The owners after round upon round, until a round places no row or
/// `fuel` rounds have placed one.
pub open spec fn rounds(g: Grid, owner: Seq<usize>, fuel: nat) -> Seq<usize>
    decreases fuel,
{
    if fuel == 0 {
        owner
    } else if !progresses(g, owner) {
        round(g, owner)
    } else {
        rounds(g, round(g, owner), (fuel - 1) as nat)
    }
}

/// What the search becomes once the rows without a zero have made their
/// attempts, round upon round.
pub open spec fn improved(g: Grid, s: Search) -> Search {
    let owner = rounds(g, owners(s.assigned, g.len()), g.len());
    listed(choices(owner, g.len() as int), g.len() as int)
}

/// The owners under independent zeros are owners of zeros.
pub proof fn lemma_owners(g: Grid, assigned: Seq<(usize, usize)>)
    requires
        g.len() <= usize::MAX,
        independent_zeros(g, assigned),
    ensures
        zero_owned(g, owners(assigned, g.len())),
    decreases assigned.len(),
{
    if assigned.len() > 0 {
        let front = assigned.drop_last();
        assert forall|i: int| 0 <= i < front.len() implies (#[trigger] front[i]).0 < g.len()
            && front[i].1 < g.len() && g[front[i].0 as int][front[i].1 as int] == 0 by {
            assert(front[i] == assigned[i]);
        }
        assert forall|i: int, j: int| 0 <= i < j < front.len() implies (#[trigger] front[i]).0 != (
        #[trigger] front[j]).0 && front[i].1 != front[j].1 by {
            assert(front[i] == assigned[i]);
            assert(front[j] == assigned[j]);
        }
        lemma_owners(g, front);
        assert(assigned[assigned.len() - 1] == assigned.last());
    }
}

/// An attempt leaves owners of zeros, and as many columns as before.
pub proof fn lemma_trial(g: Grid, owner: Seq<usize>, seen: Seq<bool>, r: int, c: int, depth: nat)
    requires
        g.len() <= usize::MAX,
        zero_owned(g, owner),
        seen.len() == g.len(),
        0 <= r < g.len(),
    ensures
        zero_owned(g, trial(g, owner, seen, r, c, depth).owner),
        trial(g, owner, seen, r, c, depth).seen.len() == g.len(),
    decreases depth, g.len() - c,
{
    if c >= g.len() || c < 0 {
    } else if g[r][c] == 0 && !seen[c] {
        let looked = seen.update(c, true);
        if owner[c] >= g.len() {
        } else if depth == 0 {
            lemma_trial(g, owner, looked, r, c + 1, depth);
        } else {
            lemma_trial(g, owner, looked, owner[c] as int, 0, (depth - 1) as nat);
            let inner = trial(g, owner, looked, owner[c] as int, 0, (depth - 1) as nat);
            if !inner.found {
                lemma_trial(g, inner.owner, inner.seen, r, c + 1, depth);
            }
        }
    } else {
        lemma_trial(g, owner, seen, r, c + 1, depth);
    }
}

/// The attempts of the unassigned rows leave owners of zeros.
pub proof fn lemma_augmented(g: Grid, owner: Seq<usize>, unassigned: Seq<usize>, k: int)
    requires
        g.len() <= usize::MAX,
        zero_owned(g, owner),
        0 <= k <= unassigned.len(),
        forall|i: int| 0 <= i < unassigned.len() ==> #[trigger] unassigned[i] < g.len(),
    ensures
        zero_owned(g, augmented(g, owner, unassigned, k)),
    decreases k,
{
    if k > 0 {
        lemma_augmented(g, owner, unassigned, k - 1);
        lemma_trial(
            g,
            augmented(g, owner, unassigned, k - 1),
            unseen(g.len()),
            unassigned[k - 1] as int,
            0,
            g.len(),
        );
    }
}

/// A row's column, read off the owners, is a column that the row owns.
pub proof fn lemma_choices(owner: Seq<usize>, upto: int)
    requires
        0 <= upto <= owner.len() <= usize::MAX,
    ensures
        choices(owner, upto).len() == owner.len(),
        forall|r: int|
            0 <= r < owner.len() ==> #[trigger] choices(owner, upto)[r] <= owner.len() && (choices(
                owner,
                upto,
            )[r] < owner.len() ==> owner[choices(owner, upto)[r] as int] == r),
    decreases upto,
{
    if upto > 0 {
        lemma_choices(owner, upto - 1);
    }
}

/// The listing holds every row below `upto` once: with its column, or as
/// unassigned.
pub proof fn lemma_listed(choice: Seq<usize>, upto: int)
    requires
        0 <= upto <= choice.len() <= usize::MAX,
    ensures
        forall|i: int|
            0 <= i < listed(choice, upto).assigned.len() ==> (#[trigger] listed(
                choice,
                upto,
            ).assigned[i]).0 < upto && listed(choice, upto).assigned[i].1 < choice.len() && choice[listed(
                choice,
                upto,
            ).assigned[i].0 as int] == listed(choice, upto).assigned[i].1,
        forall|i: int, j: int|
            0 <= i < j < listed(choice, upto).assigned.len() ==> (#[trigger] listed(
                choice,
                upto,
            ).assigned[i]).0 < (#[trigger] listed(choice, upto).assigned[j]).0,
        forall|i: int|
            0 <= i < listed(choice, upto).unassigned.len() ==> #[trigger] listed(
                choice,
                upto,
            ).unassigned[i] < upto,
        forall|r: int|
            0 <= r < upto ==> #[trigger] row_taken(listed(choice, upto).assigned, r) || listed(
                choice,
                upto,
            ).unassigned.contains(r as usize),
    decreases upto,
{
    if upto > 0 {
        lemma_listed(choice, upto - 1);
        let before = listed(choice, upto - 1);
        let now = listed(choice, upto);
        assert forall|r: int| 0 <= r < upto implies #[trigger] row_taken(now.assigned, r)
            || now.unassigned.contains(r as usize) by {
            if r < upto - 1 {
                assert(row_taken(before.assigned, r) || before.unassigned.contains(r as usize));
                if row_taken(before.assigned, r) {
                    let k = choose|k: int|
                        0 <= k < before.assigned.len() && (#[trigger] before.assigned[k]).0 == r;
                    assert(now.assigned[k].0 == r);
                } else {
                    let k = choose|k: int|
                        0 <= k < before.unassigned.len() && before.unassigned[k] == r as usize;
                    assert(now.unassigned[k] == r as usize);
                }
            } else {
                if choice[upto - 1] < choice.len() {
                    assert(now.assigned[before.assigned.len() as int].0 == r);
                } else {
                    assert(now.unassigned[before.unassigned.len() as int] == r as usize);
                }
            }
        }
    }
}

/// The rows without a column are rows of the grid.
pub proof fn lemma_free_rows(owner: Seq<usize>)
    requires
        owner.len() <= usize::MAX,
    ensures
        forall|i: int| 0 <= i < free_rows(owner).len() ==> #[trigger] free_rows(owner)[i] < owner.len(),
        forall|i: int, j: int|
            0 <= i < j < free_rows(owner).len() ==> #[trigger] free_rows(owner)[i]
                != #[trigger] free_rows(owner)[j],
{
    let n = owner.len() as int;
    lemma_choices(owner, n);
    lemma_listed(choices(owner, n), n);
    lemma_listed_ascends(choices(owner, n), n);
}

/// The rows listed as unassigned ascend.
pub proof fn lemma_listed_ascends(choice: Seq<usize>, upto: int)
    requires
        0 <= upto <= choice.len() <= usize::MAX,
    ensures
        forall|i: int, j: int|
            0 <= i < j < listed(choice, upto).unassigned.len() ==> #[trigger] listed(
                choice,
                upto,
            ).unassigned[i] < #[trigger] listed(choice, upto).unassigned[j],
    decreases upto,
{
    if upto > 0 {
        lemma_listed_ascends(choice, upto - 1);
        lemma_listed(choice, upto - 1);
        let before = listed(choice, upto - 1);
        let now = listed(choice, upto);
        assert forall|i: int, j: int| 0 <= i < j < now.unassigned.len() implies #[trigger] now.unassigned[i]
            < #[trigger] now.unassigned[j] by {
            if j < before.unassigned.len() {
                assert(now.unassigned[i] == before.unassigned[i]);
                assert(now.unassigned[j] == before.unassigned[j]);
            } else {
                assert(now.unassigned[i] == before.unassigned[i]);
                assert(before.unassigned[i] < upto - 1);
            }
        }
    }
}

/// Round upon round the owners stay owners of zeros.
pub proof fn lemma_rounds(g: Grid, owner: Seq<usize>, fuel: nat)
    requires
        g.len() <= usize::MAX,
        zero_owned(g, owner),
    ensures
        zero_owned(g, rounds(g, owner, fuel)),
    decreases fuel,
{
    if fuel > 0 {
        lemma_free_rows(owner);
        lemma_augmented(g, owner, free_rows(owner), free_rows(owner).len() as int);
        if progresses(g, owner) {
            lemma_rounds(g, round(g, owner), (fuel - 1) as nat);
        }
    }
}

/// Improving a search leaves independent zeros, and every row either holds
/// one of them or is listed as unassigned.
pub proof fn lemma_improved(g: Grid, s: Search)
    requires
        g.len() <= usize::MAX,
        independent_zeros(g, s.assigned),
    ensures
        independent_zeros(g, improved(g, s).assigned),
        forall|i: int|
            0 <= i < improved(g, s).unassigned.len() ==> #[trigger] improved(g, s).unassigned[i]
                < g.len(),
        forall|r: int|
            0 <= r < g.len() ==> #[trigger] row_taken(improved(g, s).assigned, r) || improved(
                g,
                s,
            ).unassigned.contains(r as usize),
{
    let n = g.len() as int;
    lemma_owners(g, s.assigned);
    lemma_rounds(g, owners(s.assigned, g.len()), g.len());
    let owner = rounds(g, owners(s.assigned, g.len()), g.len());
    let choice = choices(owner, n);
    lemma_choices(owner, n);
    lemma_listed(choice, n);
    let t = improved(g, s);
    assert forall|i: int| 0 <= i < t.assigned.len() implies (#[trigger] t.assigned[i]).0 < g.len()
        && t.assigned[i].1 < g.len() && g[t.assigned[i].0 as int][t.assigned[i].1 as int] == 0 by {
        let r = t.assigned[i].0 as int;
        let c = t.assigned[i].1 as int;
        assert(choice[r] == c);
        assert(owner[c] == r);
    }
    assert forall|i: int, j: int| 0 <= i < j < t.assigned.len() implies (#[trigger] t.assigned[i]).0
        != (#[trigger] t.assigned[j]).0 && t.assigned[i].1 != t.assigned[j].1 by {
        let ri = t.assigned[i].0 as int;
        let rj = t.assigned[j].0 as int;
        assert(ri < rj);
        assert(choice[ri] == t.assigned[i].1);
        assert(choice[rj] == t.assigned[j].1);
        if t.assigned[i].1 == t.assigned[j].1 {
            assert(owner[choice[ri] as int] == ri);
            assert(owner[choice[rj] as int] == rj);
        }
    }
}

/// The independent zeros on which the solver goes on: those of the two
/// passes where they are complete, otherwise those after every unassigned
/// row has looked for an alternating trail.
pub open spec fn matched(g: Grid) -> Search {
    if search(g).assigned.len() == g.len() {
        search(g)
    } else {
        improved(g, search(g))
    }
}

/// What the solver goes on are independent zeros, and every row either
/// holds one of them or is listed as unassigned.
pub proof fn lemma_matched(g: Grid)
    requires
        g.len() <= usize::MAX,
    ensures
        independent_zeros(g, matched(g).assigned),
        forall|i: int|
            0 <= i < matched(g).unassigned.len() ==> #[trigger] matched(g).unassigned[i] < g.len(),
        forall|r: int|
            0 <= r < g.len() ==> #[trigger] row_taken(matched(g).assigned, r) || matched(
                g,
            ).unassigned.contains(r as usize),
{
    lemma_search(g);
    if search(g).assigned.len() != g.len() {
        lemma_improved(g, search(g));
    }
}

/// What the solver goes on cannot be extended by a further zero: no
/// unassigned row holds a zero in a free column. And every row that the
/// two passes assigned is still assigned.
pub proof fn lemma_matched_is_maximal(g: Grid)
    requires
        g.len() <= usize::MAX,
    ensures
        is_maximal(g, matched(g)),
        forall|r: int|
            0 <= r < g.len() && #[trigger] row_taken(search(g).assigned, r) ==> row_taken(
                matched(g).assigned,
                r,
            ),
{
    lemma_search(g);
    lemma_search_apart(g);
    lemma_search_is_maximal(g);
    if search(g).assigned.len() != g.len() {
        lemma_improved_keeps(g, search(g));
    }
}

/// Tries to place row `r`: takes the first zero of the row in a column not
/// looked at yet if that column is free or if its owner can be placed
/// elsewhere, at most `depth` rows deep.
pub fn try_row(
    m: &CostMatrix,
    owner: &mut Vec<usize>,
    seen: &mut Vec<bool>,
    r: usize,
    depth: usize,
) -> (found: bool)
    requires
        r < m.dim(),
        old(owner).len() == m.dim(),
        old(seen).len() == m.dim(),
        zero_owned(m@, old(owner)@),
    ensures
        found == trial(m@, old(owner)@, old(seen)@, r as int, 0, depth as nat).found,
        final(owner)@ == trial(m@, old(owner)@, old(seen)@, r as int, 0, depth as nat).owner,
        final(seen)@ == trial(m@, old(owner)@, old(seen)@, r as int, 0, depth as nat).seen,
        zero_owned(m@, final(owner)@),
        final(seen).len() == m.dim(),
    decreases depth,
{
    let n = m.size();
    let ghost whole = trial(m@, owner@, seen@, r as int, 0, depth as nat);
    proof {
        lemma_trial(m@, owner@, seen@, r as int, 0, depth as nat);
    }
    let mut c: usize = 0;
    while c < n
        invariant
            c <= n,
            r < n,
            n == m.dim(),
            n == m@.len(),
            owner.len() == n,
            seen.len() == n,
            zero_owned(m@, owner@),
            zero_owned(m@, whole.owner),
            whole.seen.len() == n,
            whole == trial(m@, old(owner)@, old(seen)@, r as int, 0, depth as nat),
            trial(m@, owner@, seen@, r as int, c as int, depth as nat) == whole,
        decreases n - c,
    {
        if m.get(r, c) == 0 && !seen[c] {
            seen[c] = true;
            let holder = owner[c];
            if holder >= n {
                owner[c] = r;
                return true;
            }
            if depth > 0 {
                if try_row(m, owner, seen, holder, depth - 1) {
                    owner[c] = r;
                    return true;
                }
            }
        }
        c += 1;
    }
    false
}

/// Lists the rows in ascending order: with their column where they own
/// one, as unassigned where they own none.
pub fn list_rows(owner: &Vec<usize>) -> (rows: Found)
    ensures
        rows.assigned@ == listed(choices(owner@, owner.len() as int), owner.len() as int).assigned,
        rows.unassigned@ == free_rows(owner@),
{
    let n = owner.len();
    let mut choice: Vec<usize> = Vec::new();
    let mut r: usize = 0;
    while r < n
        invariant
            r <= n,
            choice.len() == r,
            forall|i: int| 0 <= i < r ==> choice[i] == n,
        decreases n - r,
    {
        choice.push(n);
        r += 1;
    }
    proof {
        assert(choice@ =~= choices(owner@, 0));
    }
    let mut c: usize = 0;
    while c < n
        invariant
            c <= n,
            owner.len() == n,
            choice.len() == n,
            choice@ == choices(owner@, c as int),
        decreases n - c,
    {
        let holder = owner[c];
        if holder < n {
            choice[holder] = c;
        }
        c += 1;
    }
    let mut assigned: Vec<(usize, usize)> = Vec::new();
    let mut unassigned: Vec<usize> = Vec::new();
    let mut r: usize = 0;
    while r < n
        invariant
            r <= n,
            choice.len() == n,
            assigned@ == listed(choice@, r as int).assigned,
            unassigned@ == listed(choice@, r as int).unassigned,
        decreases n - r,
    {
        if choice[r] < n {
            assigned.push((r, choice[r]));
        } else {
            unassigned.push(r);
        }
        r += 1;
    }
    Found { assigned, unassigned }
}

/// Lets every row without a zero look for an alternating trail to a free
/// column, round upon round until a round places no row, and lists the
/// rows anew, in ascending order.
pub fn improve(m: &CostMatrix, found: Found) -> (better: Found)
    requires
        independent_zeros(m@, found.assigned@),
    ensures
        better.assigned@ == improved(
            m@,
            Search {
                assigned: found.assigned@,
                deferred: Seq::empty(),
                unassigned: found.unassigned@,
            },
        ).assigned,
        better.unassigned@ == improved(
            m@,
            Search {
                assigned: found.assigned@,
                deferred: Seq::empty(),
                unassigned: found.unassigned@,
            },
        ).unassigned,
        independent_zeros(m@, better.assigned@),
        forall|r: int|
            0 <= r < m.dim() && #[trigger] row_taken(found.assigned@, r) ==> row_taken(
                better.assigned@,
                r,
            ),
        forall|r: int|
            0 <= r < m.dim() ==> #[trigger] row_taken(better.assigned@, r)
                || better.unassigned@.contains(r as usize),
        forall|i: int, c: int|
            0 <= i < better.unassigned.len() && 0 <= c < m.dim()
                && #[trigger] m@[better.unassigned[i] as int][c] == 0 ==> column_taken(
                better.assigned@,
                c,
            ),
{
    let n = m.size();
    proof {
        let s = Search {
            assigned: found.assigned@,
            deferred: Seq::empty(),
            unassigned: found.unassigned@,
        };
        lemma_improved(m@, s);
        lemma_improved_keeps(m@, s);
    }
    let mut owner: Vec<usize> = Vec::new();
    let mut c: usize = 0;
    while c < n
        invariant
            c <= n,
            owner.len() == c,
            forall|j: int| 0 <= j < c ==> owner[j] == n,
        decreases n - c,
    {
        owner.push(n);
        c += 1;
    }
    proof {
        assert(owner@ =~= owners(found.assigned@.take(0), n as nat));
    }
    let mut k: usize = 0;
    while k < found.assigned.len()
        invariant
            k <= found.assigned.len(),
            n == m.dim(),
            n == m@.len(),
            independent_zeros(m@, found.assigned@),
            owner.len() == n,
            owner@ == owners(found.assigned@.take(k as int), n as nat),
        decreases found.assigned.len() - k,
    {
        let cell = found.assigned[k];
        proof {
            assert(found.assigned@.take(k + 1).drop_last() =~= found.assigned@.take(k as int));
            assert(found.assigned@.take(k + 1).last() == cell);
        }
        owner[cell.1] = cell.0;
        k += 1;
    }
    proof {
        assert(found.assigned@.take(found.assigned.len() as int) =~= found.assigned@);
        lemma_owners(m@, found.assigned@);
    }
    let ghost start = owner@;
    let mut fuel: usize = n;
    loop
        invariant_except_break
            n == m.dim(),
            n == m@.len(),
            owner.len() == n,
            zero_owned(m@, owner@),
            rounds(m@, owner@, fuel as nat) == rounds(m@, start, n as nat),
        ensures
            owner.len() == n,
            owner@ == rounds(m@, start, n as nat),
        decreases fuel,
    {
        if fuel == 0 {
            break ;
        }
        let rows = list_rows(&owner);
        let ghost before = owner@;
        proof {
            lemma_free_rows(before);
        }
        let mut progress = false;
        let mut u: usize = 0;
        while u < rows.unassigned.len()
            invariant
                u <= rows.unassigned.len(),
                n == m.dim(),
                n == m@.len(),
                owner.len() == n,
                zero_owned(m@, owner@),
                rows.unassigned@ == free_rows(before),
                forall|i: int|
                    0 <= i < rows.unassigned.len() ==> #[trigger] rows.unassigned[i] < n,
                owner@ == augmented(m@, before, rows.unassigned@, u as int),
                progress == any_found(m@, before, rows.unassigned@, u as int),
            decreases rows.unassigned.len() - u,
        {
            let mut seen: Vec<bool> = Vec::new();
            let mut j: usize = 0;
            while j < n
                invariant
                    j <= n,
                    seen.len() == j,
                    forall|i: int| 0 <= i < j ==> !seen[i],
                decreases n - j,
            {
                seen.push(false);
                j += 1;
            }
            proof {
                assert(seen@ =~= unseen(n as nat));
            }
            if try_row(m, &mut owner, &mut seen, rows.unassigned[u], n) {
                progress = true;
            }
            u += 1;
        }
        if !progress {
            break ;
        }
        fuel -= 1;
    }
    list_rows(&owner)
}

} // verus!
