//! The working cost matrix: an n×n grid kept row by row in one buffer.

use vstd::prelude::*;

verus! {

/// The ways in which a solve can fail.
#[derive(Clone, Copy, Debug, PartialEq, Eq, Structural)]
pub enum SolveError {
    /// The side length is zero, or the grid does not hold n×n cells.
    InvalidDimension,
    /// A cost below zero.
    NegativeCost,
    /// The search gave up after as many adjustments as the grid has rows.
    NoAssignmentFound,
}

/// A grid in the mathematical sense: a sequence of rows.
pub type Grid = Seq<Seq<int>>;

/// `g` has `n` rows of `n` cells each.
pub open spec fn is_square(g: Grid, n: int) -> bool {
    &&& g.len() == n
    &&& forall|r: int| 0 <= r < n ==> (#[trigger] g[r]).len() == n
}

/// No cell of `g` is below zero.
pub open spec fn is_nonnegative(g: Grid) -> bool {
    forall|r: int, c: int|
        0 <= r < g.len() && 0 <= c < g[r].len() ==> #[trigger] g[r][c] >= 0
}

/// The grid that a row-major buffer of side `n` stands for.
pub open spec fn grid_of(cells: Seq<i64>, n: int) -> Grid {
    Seq::new(n as nat, |r: int| Seq::new(n as nat, |c: int| cells[r * n + c] as int))
}

/// What is wrong with a buffer handed in as an n×n grid of costs, if anything:
/// the dimension is judged first, the sign of the cells after it.
pub open spec fn input_error(cells: Seq<i64>, n: int) -> Option<SolveError> {
    if n == 0 || cells.len() != n * n {
        Some(SolveError::InvalidDimension)
    } else if exists|i: int| 0 <= i < cells.len() && cells[i] < 0 {
        Some(SolveError::NegativeCost)
    } else {
        None
    }
}

/// The column `c` of `g`, top to bottom.
pub open spec fn column(g: Grid, c: int) -> Seq<int> {
    Seq::new(g.len(), |r: int| g[r][c])
}

/// Row-major offsets stay inside the buffer and tell cells apart.
pub proof fn lemma_offset(n: int, r: int, c: int)
    requires
        0 <= r < n,
        0 <= c < n,
    ensures
        0 <= r * n + c < n * n,
        (r * n + c) / n == r,
        (r * n + c) % n == c,
{
    assert(0 <= r * n + c < n * n) by (nonlinear_arith)
        requires
            0 <= r < n,
            0 <= c < n,
    ;
    vstd::arithmetic::div_mod::lemma_fundamental_div_mod_converse(r * n + c, n, r, c);
}

/// The least element of a sequence is the one member that none is below.
pub proof fn lemma_min_is(s: Seq<int>, m: int)
    requires
        s.contains(m),
        forall|i: int| 0 <= i < s.len() ==> m <= s[i],
    ensures
        s.min() == m,
{
    s.min_ensures();
}

/// An n×n grid of costs, none below zero, mutable in place.
pub struct CostMatrix {
    n: usize,
    cells: Vec<u64>,
}

impl CostMatrix {
    /// The buffer holds exactly n×n cells and n is at least one.
    #[verifier::type_invariant]
    spec fn wf(&self) -> bool {
        &&& self.n >= 1
        &&& self.cells.len() == self.n * self.n
    }

    /// The side length.
    pub closed spec fn dim(&self) -> int {
        self.n as int
    }

    /// The cells, row by row.
    pub closed spec fn view(&self) -> Grid {
        Seq::new(
            self.n as nat,
            |r: int| Seq::new(self.n as nat, |c: int| self.cells[r * self.n + c] as int),
        )
    }

    /// Builds the working matrix from a row-major buffer of `n`×`n` costs.
    pub fn new(cells: &Vec<i64>, n: usize) -> (made: Result<CostMatrix, SolveError>)
        ensures
            match input_error(cells@, n as int) {
                Some(e) => made == Err::<CostMatrix, SolveError>(e),
                None => made is Ok && made->Ok_0.dim() == n && made->Ok_0@ == grid_of(
                    cells@,
                    n as int,
                ),
            },
    {
        if n == 0 {
            return Err(SolveError::InvalidDimension);
        }
        let len = cells.len();
        match n.checked_mul(n) {
            Some(area) => {
                if area != len {
                    return Err(SolveError::InvalidDimension);
                }
            },
            None => {
                return Err(SolveError::InvalidDimension);
            },
        }
        let mut buffer: Vec<u64> = Vec::new();
        let mut i: usize = 0;
        while i < cells.len()
            invariant
                i <= cells.len(),
                cells.len() == n * n,
                n >= 1,
                buffer.len() == i,
                forall|k: int| 0 <= k < i ==> cells[k] >= 0 && buffer[k] == cells[k],
            decreases cells.len() - i,
        {
            if cells[i] < 0 {
                return Err(SolveError::NegativeCost);
            }
            buffer.push(cells[i] as u64);
            i += 1;
        }
        let made = CostMatrix { n, cells: buffer };
        proof {
            let a = made@;
            let b = grid_of(cells@, n as int);
            assert forall|r: int| 0 <= r < n implies a[r] =~= b[r] by {
                assert forall|c: int| 0 <= c < n implies a[r][c] == b[r][c] by {
                    lemma_offset(n as int, r, c);
                }
            }
            assert(a =~= b);
        }
        Ok(made)
    }

    /// The side length.
    pub fn size(&self) -> (n: usize)
        ensures
            n == self.dim(),
            n >= 1,
            is_square(self@, n as int),
            is_nonnegative(self@),
    {
        proof {
            use_type_invariant(self);
        }
        self.n
    }

    /// The cost at row `r`, column `c`.
    pub fn get(&self, r: usize, c: usize) -> (cost: u64)
        requires
            r < self.dim(),
            c < self.dim(),
        ensures
            cost == self@[r as int][c as int],
            cost >= 0,
    {
        proof {
            use_type_invariant(self);
            lemma_offset(self.n as int, r as int, c as int);
        }
        self.cells[r * self.n + c]
    }

    /// The cells, row by row.
    pub fn to_vec(&self) -> (cells: Vec<u64>)
        ensures
            cells.len() == self.dim() * self.dim(),
            forall|r: int, c: int|
                0 <= r < self.dim() && 0 <= c < self.dim() ==> #[trigger] self@[r][c]
                    == cells[r * self.dim() + c],
    {
        proof {
            use_type_invariant(self);
        }
        let mut cells: Vec<u64> = Vec::new();
        let mut i: usize = 0;
        while i < self.cells.len()
            invariant
                i <= self.cells.len(),
                cells.len() == i,
                forall|k: int| 0 <= k < i ==> cells[k] == self.cells[k],
            decreases self.cells.len() - i,
        {
            cells.push(self.cells[i]);
            i += 1;
        }
        proof {
            assert forall|r: int, c: int|
                0 <= r < self.dim() && 0 <= c < self.dim() implies #[trigger] self@[r][c]
                == cells[r * self.dim() + c] by {
                lemma_offset(self.n as int, r, c);
            }
        }
        cells
    }

    /// The least cost in row `r`.
    pub fn row_min(&self, r: usize) -> (least: u64)
        requires
            r < self.dim(),
        ensures
            least == self@[r as int].min(),
    {
        let n = self.size();
        let mut least = self.get(r, 0);
        let mut c: usize = 1;
        while c < n
            invariant
                1 <= c <= n,
                n == self.dim(),
                r < n,
                is_square(self@, n as int),
                forall|k: int| 0 <= k < c ==> least <= self@[r as int][k],
                exists|k: int| 0 <= k < c && least == self@[r as int][k],
            decreases n - c,
        {
            let cost = self.get(r, c);
            if cost < least {
                least = cost;
            }
            c += 1;
        }
        proof {
            lemma_min_is(self@[r as int], least as int);
        }
        least
    }

    /// The least cost in column `c`.
    pub fn col_min(&self, c: usize) -> (least: u64)
        requires
            c < self.dim(),
        ensures
            least == column(self@, c as int).min(),
    {
        let n = self.size();
        let mut least = self.get(0, c);
        let mut r: usize = 1;
        while r < n
            invariant
                1 <= r <= n,
                n == self.dim(),
                c < n,
                is_square(self@, n as int),
                forall|k: int| 0 <= k < r ==> least <= self@[k][c as int],
                exists|k: int| 0 <= k < r && least == self@[k][c as int],
            decreases n - r,
        {
            let cost = self.get(r, c);
            if cost < least {
                least = cost;
            }
            r += 1;
        }
        proof {
            let col = column(self@, c as int);
            let k = choose|k: int| 0 <= k < n && least == self@[k][c as int];
            assert(col[k] == least);
            lemma_min_is(col, least as int);
        }
        least
    }

    /// Overwrites the cost at row `r`, column `c`; no other cell changes.
    pub fn set(&mut self, r: usize, c: usize, value: u64)
        requires
            r < old(self).dim(),
            c < old(self).dim(),
        ensures
            final(self).dim() == old(self).dim(),
            final(self)@ == old(self)@.update(r as int, old(self)@[r as int].update(c as int, value as int)),
    {
        proof {
            use_type_invariant(&*self);
            lemma_offset(self.n as int, r as int, c as int);
        }
        let i = r * self.n + c;
        self.cells[i] = value;
        proof {
            let n = self.n as int;
            let a = final(self)@;
            let b = old(self)@.update(r as int, old(self)@[r as int].update(c as int, value as int));
            assert forall|r2: int| 0 <= r2 < n implies a[r2] =~= b[r2] by {
                assert forall|c2: int| 0 <= c2 < n implies a[r2][c2] == b[r2][c2] by {
                    lemma_offset(n, r2, c2);
                }
            }
            assert(a =~= b);
        }
    }
}

} // verus!
