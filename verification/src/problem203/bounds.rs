//! How large the numbers of Pascal's triangle get: a row holds its
//! greatest number in the middle, and no number is above the one below it.

use vstd::prelude::*;
use crate::problem203::{lemma_pascal_bound, pascal};

verus! {

/// The greatest number of the first 51 rows: the one in the middle of the
/// last of them.
pub const GREATEST: u64 = 126410606437752;

/// k·C(n, k) = n·C(n − 1, k − 1), and (n − k)·C(n, k) = n·C(n − 1, k).
pub proof fn lemma_absorb(n: nat, k: nat)
    requires
        1 <= k <= n,
    ensures
        k * pascal(n, k) == n * pascal((n - 1) as nat, (k - 1) as nat),
        k < n ==> (n - k) * pascal(n, k) == n * pascal((n - 1) as nat, k),
    decreases n,
{
    if k < n {
        let a = pascal((n - 1) as nat, (k - 1) as nat);
        let b = pascal((n - 1) as nat, k);
        assert(pascal(n, k) == a + b);
        lemma_absorb((n - 1) as nat, k);
        if k >= 2 {
            lemma_absorb((n - 1) as nat, (k - 1) as nat);
        }
        assert((n - k) * a == k * b);
        assert(k * (a + b) == n * a) by (nonlinear_arith)
            requires
                (n - k) * a == k * b,
        ;
        assert((n - k) * (a + b) == n * b) by (nonlinear_arith)
            requires
                (n - k) * a == k * b,
        ;
    }
}

/// Neighbours in a row: k·C(n, k) = (n − k + 1)·C(n, k − 1).
pub proof fn lemma_neighbours(n: nat, k: nat)
    requires
        1 <= k <= n,
    ensures
        k * pascal(n, k) == (n - k + 1) * pascal(n, (k - 1) as nat),
{
    lemma_absorb(n, k);
    if k >= 2 {
        lemma_absorb(n, (k - 1) as nat);
    }
}

/// Up to the middle of a row the numbers do not fall.
pub proof fn lemma_row_rises(n: nat, k: nat)
    requires
        1 <= k,
        2 * k <= n + 1,
    ensures
        pascal(n, (k - 1) as nat) <= pascal(n, k),
{
    lemma_neighbours(n, k);
    let x = pascal(n, k);
    let y = pascal(n, (k - 1) as nat);
    assert(y <= x) by (nonlinear_arith)
        requires
            k * x == (n - k + 1) * y,
            n - k + 1 >= k,
            k >= 1,
            x >= 0,
            y >= 0,
    ;
}

/// From the middle of a row on the numbers do not rise.
pub proof fn lemma_row_falls(n: nat, k: nat)
    requires
        1 <= k <= n,
        2 * k >= n + 1,
    ensures
        pascal(n, k) <= pascal(n, (k - 1) as nat),
{
    lemma_neighbours(n, k);
    let x = pascal(n, k);
    let y = pascal(n, (k - 1) as nat);
    assert(x <= y) by (nonlinear_arith)
        requires
            k * x == (n - k + 1) * y,
            1 <= n - k + 1 <= k,
            x >= 0,
            y >= 0,
    ;
}

/// No number of a row is above the one in its middle.
pub proof fn lemma_middle(n: nat, k: nat)
    requires
        k <= n,
    ensures
        pascal(n, k) <= pascal(n, n / 2),
    decreases
        (if k < n / 2 {
            n / 2 - k
        } else {
            k - n / 2
        }),
{
    if k < n / 2 {
        lemma_middle(n, k + 1);
        lemma_row_rises(n, k + 1);
    } else if k > n / 2 {
        lemma_middle(n, (k - 1) as nat);
        lemma_row_falls(n, k);
    }
}

/// No number is above the one at its place in a later row.
pub proof fn lemma_rows_grow(r: nat, n: nat, k: nat)
    requires
        r <= n,
    ensures
        pascal(r, k) <= pascal(n, k),
    decreases n,
{
    if r < n {
        lemma_rows_grow(r, (n - 1) as nat, k);
        lemma_pascal_bound((n - 1) as nat, k);
        if 0 < k < n {
            lemma_pascal_bound((n - 1) as nat, (k - 1) as nat);
        } else {
            lemma_pascal_bound(n, k);
        }
    }
}

/// The number in the middle of row 50.
pub proof fn lemma_middle_of_fifty()
    ensures
        pascal(50, 25) == GREATEST,
{
    assert(pascal(25, 0) == 1);
    lemma_absorb(26, 1);
    assert(pascal(26, 1) == 26);
    lemma_absorb(27, 2);
    assert(pascal(27, 2) == 351);
    lemma_absorb(28, 3);
    assert(pascal(28, 3) == 3276);
    lemma_absorb(29, 4);
    assert(pascal(29, 4) == 23751);
    lemma_absorb(30, 5);
    assert(pascal(30, 5) == 142506);
    lemma_absorb(31, 6);
    assert(pascal(31, 6) == 736281);
    lemma_absorb(32, 7);
    assert(pascal(32, 7) == 3365856);
    lemma_absorb(33, 8);
    assert(pascal(33, 8) == 13884156);
    lemma_absorb(34, 9);
    assert(pascal(34, 9) == 52451256);
    lemma_absorb(35, 10);
    assert(pascal(35, 10) == 183579396);
    lemma_absorb(36, 11);
    assert(pascal(36, 11) == 600805296);
    lemma_absorb(37, 12);
    assert(pascal(37, 12) == 1852482996);
    lemma_absorb(38, 13);
    assert(pascal(38, 13) == 5414950296);
    lemma_absorb(39, 14);
    assert(pascal(39, 14) == 15084504396);
    lemma_absorb(40, 15);
    assert(pascal(40, 15) == 40225345056);
    lemma_absorb(41, 16);
    assert(pascal(41, 16) == 103077446706);
    lemma_absorb(42, 17);
    assert(pascal(42, 17) == 254661927156);
    lemma_absorb(43, 18);
    assert(pascal(43, 18) == 608359048206);
    lemma_absorb(44, 19);
    assert(pascal(44, 19) == 1408831480056);
    lemma_absorb(45, 20);
    assert(pascal(45, 20) == 3169870830126);
    lemma_absorb(46, 21);
    assert(pascal(46, 21) == 6943526580276);
    lemma_absorb(47, 22);
    assert(pascal(47, 22) == 14833897694226);
    lemma_absorb(48, 23);
    assert(pascal(48, 23) == 30957699535776);
    lemma_absorb(49, 24);
    assert(pascal(49, 24) == 63205303218876);
    lemma_absorb(50, 25);
    assert(pascal(50, 25) == 126410606437752);
}

/// No number of the first 51 rows is above the greatest.
pub proof fn lemma_first_rows(r: nat, k: nat)
    requires
        r <= 50,
    ensures
        1 <= pascal(r, k) <= GREATEST,
{
    lemma_pascal_bound(r, k);
    lemma_rows_grow(r, 50, k);
    lemma_middle_of_fifty();
    if k <= 50 {
        lemma_middle(50, k);
    }
}

} // verus!
