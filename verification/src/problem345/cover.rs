//! The covering lines are as few as lines can be: a cover of the zeros
//! needs a line of its own for every one of a set of independent zeros,
//! and the lines that the marking draws are as many as the independent
//! zeros that the search has found.

use vstd::prelude::*;
use crate::problem345::augment::{lemma_matched, matched};
use crate::problem345::laws::lemma_lines_cover_zeros;
use crate::problem345::matrix::{is_square, Grid};
use crate::problem345::maximum::lemma_room;
use crate::problem345::progress::{count_set, lemma_lines_within, lemma_set_places, set_places};
use crate::problem345::search::independent_zeros;
use crate::problem345::solver::{is_complete, lines_cols, lines_rows};

verus! {

/// The lines through the flagged rows and columns cover every zero of `g`.
pub open spec fn is_cover(g: Grid, rows: Seq<bool>, cols: Seq<bool>) -> bool {
    &&& rows.len() == g.len()
    &&& cols.len() == g.len()
    &&& forall|r: int, c: int|
        0 <= r < g.len() && 0 <= c < g.len() && #[trigger] g[r][c] == 0 ==> rows[r] || cols[c]
}

/// How many lines run through the flagged rows and columns.
pub open spec fn line_count(rows: Seq<bool>, cols: Seq<bool>) -> nat {
    count_set(rows) + count_set(cols)
}

/// Where `p` stands in the list of the places at which the flags are set.
pub open spec fn rank_of(flags: Seq<bool>, p: int) -> int {
    choose|i: int| 0 <= i < set_places(flags).len() && set_places(flags)[i] == p
}

/// Every place at which a flag is set is listed.
pub proof fn lemma_rank_of(flags: Seq<bool>, p: int)
    requires
        0 <= p < flags.len(),
        flags[p],
    ensures
        0 <= rank_of(flags, p) < count_set(flags),
        set_places(flags)[rank_of(flags, p)] == p,
    decreases flags.len(),
{
    lemma_set_places(flags);
    let front = flags.drop_last();
    lemma_set_places(front);
    if p == flags.len() - 1 {
        assert(set_places(flags)[set_places(front).len() as int] == p);
    } else {
        lemma_rank_of(front, p);
        let i = rank_of(front, p);
        assert(set_places(flags)[i] == p);
    }
}

/// The line that covers the zero at place `k` of `zeros`, as a number: the
/// rank of its row among the rows with a line if its row has one, else
/// the rank of its column, counted on from the rows.
pub open spec fn line_of(zeros: Seq<(usize, usize)>, rows: Seq<bool>, cols: Seq<bool>, k: int) -> int {
    if rows[zeros[k].0 as int] {
        rank_of(rows, zeros[k].0 as int)
    } else {
        count_set(rows) + rank_of(cols, zeros[k].1 as int)
    }
}

/// A cover of the zeros has a line of its own for every one of a set of
/// independent zeros, so it has at least as many lines as they are.
pub proof fn lemma_cover_needs_lines(
    g: Grid,
    zeros: Seq<(usize, usize)>,
    rows: Seq<bool>,
    cols: Seq<bool>,
)
    requires
        independent_zeros(g, zeros),
        is_cover(g, rows, cols),
    ensures
        zeros.len() <= line_count(rows, cols),
{
    let lines = Seq::new(zeros.len(), |k: int| line_of(zeros, rows, cols, k));
    assert forall|k: int| 0 <= k < lines.len() implies 0 <= #[trigger] lines[k] < line_count(
        rows,
        cols,
    ) && (if rows[zeros[k].0 as int] {
        set_places(rows)[lines[k]] == zeros[k].0
    } else {
        set_places(cols)[lines[k] - count_set(rows)] == zeros[k].1
    }) by {
        let r = zeros[k].0 as int;
        let c = zeros[k].1 as int;
        assert(g[r][c] == 0);
        if rows[r] {
            lemma_rank_of(rows, r);
        } else {
            lemma_rank_of(cols, c);
        }
    }
    assert forall|i: int, j: int| 0 <= i < j < lines.len() implies #[trigger] lines[i]
        != #[trigger] lines[j] by {
        assert(zeros[i].0 != zeros[j].0 && zeros[i].1 != zeros[j].1);
        assert(0 <= lines[i] < line_count(rows, cols));
        assert(0 <= lines[j] < line_count(rows, cols));
        let ri = zeros[i].0 as int;
        let rj = zeros[j].0 as int;
        if rows[ri] && rows[rj] {
            assert(set_places(rows)[lines[i]] == ri);
            assert(set_places(rows)[lines[j]] == rj);
        } else if !rows[ri] && !rows[rj] {
            assert(set_places(cols)[lines[i] - count_set(rows)] == zeros[i].1);
            assert(set_places(cols)[lines[j] - count_set(rows)] == zeros[j].1);
        } else if rows[ri] {
            lemma_rank_of(rows, ri);
            lemma_rank_of(cols, zeros[j].1 as int);
        } else {
            lemma_rank_of(rows, rj);
            lemma_rank_of(cols, zeros[i].1 as int);
        }
    }
    lemma_room(lines, line_count(rows, cols) as int);
}

/// Where the search is incomplete, the lines that the marking draws cover
/// every zero, are as many as the independent zeros found, and no cover of
/// the zeros has fewer lines.
pub proof fn lemma_lines_are_least(g: Grid)
    requires
        g.len() <= usize::MAX,
        is_square(g, g.len() as int),
        !is_complete(g),
    ensures
        is_cover(g, lines_rows(g), lines_cols(g)),
        line_count(lines_rows(g), lines_cols(g)) == matched(g).assigned.len(),
        forall|rows: Seq<bool>, cols: Seq<bool>| #[trigger]
            is_cover(g, rows, cols) ==> line_count(rows, cols) >= line_count(
                lines_rows(g),
                lines_cols(g),
            ),
{
    lemma_matched(g);
    assert(is_cover(g, lines_rows(g), lines_cols(g))) by {
        assert forall|r: int, c: int|
            0 <= r < g.len() && 0 <= c < g.len() && #[trigger] g[r][c] == 0 implies lines_rows(
            g,
        )[r] || lines_cols(g)[c] by {
            lemma_lines_cover_zeros(g, r, c);
        }
    }
    lemma_lines_within(g);
    lemma_cover_needs_lines(g, matched(g).assigned, lines_rows(g), lines_cols(g));
    assert forall|rows: Seq<bool>, cols: Seq<bool>| #[trigger]
        is_cover(g, rows, cols) implies line_count(rows, cols) >= line_count(
        lines_rows(g),
        lines_cols(g),
    ) by {
        lemma_cover_needs_lines(g, matched(g).assigned, rows, cols);
    }
}

} // verus!
