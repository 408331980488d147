//! Lattice points on the circle through the corners of a square of side n
//! around its centre: the points (x, y) with whole x and y and
//! x² + y² = n²/2, halved downwards.

use vstd::prelude::*;

verus! {

/// The point (`x`, `y`) lies on the circle of the square of side `n`.
pub open spec fn on_circle(n: nat, x: nat, y: nat) -> bool {
    x * x + y * y == (n * n) / 2
}

/// Squares grow with their roots.
pub proof fn lemma_squares_grow(a: nat, b: nat)
    ensures
        a <= b ==> a * a <= b * b,
        a < b ==> a * a < b * b,
{
    if a <= b {
        assert(a * a <= b * b) by (nonlinear_arith)
            requires
                a <= b,
        ;
    }
    if a < b {
        assert(a * a < b * b) by (nonlinear_arith)
            requires
                a < b,
        ;
    }
}

/// Between the squares of two neighbours lies no square.
pub proof fn lemma_no_point_between(n: nat, x: nat, y: nat)
    requires
        x * x + y * y < (n * n) / 2 < (x + 1) * (x + 1) + y * y,
    ensures
        forall|z: nat| !on_circle(n, z, y),
{
    assert forall|z: nat| !on_circle(n, z, y) by {
        lemma_squares_grow(z, x);
        lemma_squares_grow(x + 1, z);
    }
}

/// The lattice points on the circle of the square of side `n` with y below
/// half of `n`, by ascending y. For every y the walk moves x from where it
/// stands, to begin with from `start`, up or down until its square meets
/// or passes what y leaves of the squared radius.
pub fn lattice_points(n: usize, start: usize) -> (points: Vec<(usize, usize)>)
    ensures
        forall|i: int|
            0 <= i < points.len() ==> (#[trigger] points[i]).1 < n / 2 && on_circle(
                n as nat,
                points[i].0 as nat,
                points[i].1 as nat,
            ),
        forall|i: int, j: int|
            0 <= i < j < points.len() ==> (#[trigger] points[i]).1 < (#[trigger] points[j]).1,
        forall|x: nat, y: nat|
            y < n / 2 && #[trigger] on_circle(n as nat, x, y) ==> x <= usize::MAX
                && points@.contains((x as usize, y as usize)),
{
    let mut points: Vec<(usize, usize)> = Vec::new();
    assert(n * n <= 0xFFFF_FFFF_FFFF_FFFF * 0xFFFF_FFFF_FFFF_FFFF) by (nonlinear_arith)
        requires
            0 <= n <= 0xFFFF_FFFF_FFFF_FFFF,
    ;
    let r2: u128 = (n as u128) * (n as u128) / 2;
    let mut x: usize = start;
    let mut y: usize = 0;
    while y < n / 2
        invariant
            y <= n / 2,
            r2 == (n * n) / 2,
            forall|i: int|
                0 <= i < points.len() ==> (#[trigger] points[i]).1 < y && on_circle(
                    n as nat,
                    points[i].0 as nat,
                    points[i].1 as nat,
                ),
            forall|i: int, j: int|
                0 <= i < j < points.len() ==> (#[trigger] points[i]).1 < (#[trigger] points[j]).1,
            forall|z: nat, w: nat|
                w < y && #[trigger] on_circle(n as nat, z, w) ==> z <= usize::MAX
                    && points@.contains((z as usize, w as usize)),
        decreases n / 2 - y,
    {
        proof {
            assert(y * y <= 0xFFFF_FFFF_FFFF_FFFF * 0xFFFF_FFFF_FFFF_FFFF) by (nonlinear_arith)
                requires
                    0 <= y <= 0xFFFF_FFFF_FFFF_FFFF,
            ;
            assert(x * x <= 0xFFFF_FFFF_FFFF_FFFF * 0xFFFF_FFFF_FFFF_FFFF) by (nonlinear_arith)
                requires
                    0 <= x <= 0xFFFF_FFFF_FFFF_FFFF,
            ;
            assert(2 * (y * y) <= n * n) by (nonlinear_arith)
                requires
                    0 <= 2 * y <= n,
            ;
        }
        let need: u128 = r2 - (y as u128) * (y as u128);
        let mut x2: u128 = (x as u128) * (x as u128);
        let ghost entry = x;
        if x2 < need {
            while x2 < need
                invariant
                    need == r2 - y * y,
                    x2 == x * x,
                    r2 == (n * n) / 2,
                    (x == entry && x2 < need) || (x >= 1 && (x - 1) * (x - 1) < need),
                decreases n - x,
            {
                proof {
                    lemma_squares_grow(n as nat, x as nat);
                    lemma_squares_grow(x as nat, (x + 1) as nat);
                    assert((x + 1) * (x + 1) <= 0xFFFF_FFFF_FFFF_FFFF * 0xFFFF_FFFF_FFFF_FFFF)
                        by (nonlinear_arith)
                        requires
                            0 <= x + 1 <= 0xFFFF_FFFF_FFFF_FFFF,
                    ;
                }
                x += 1;
                x2 = (x as u128) * (x as u128);
            }
            proof {
                if x2 > need {
                    lemma_no_point_between(n as nat, (x - 1) as nat, y as nat);
                }
            }
        } else {
            while x2 > need
                invariant
                    need == r2 - y * y,
                    x2 == x * x,
                    r2 == (n * n) / 2,
                    (x == entry && x2 >= need) || (x + 1) * (x + 1) > need,
                decreases x,
            {
                proof {
                    assert(x >= 1) by {
                        if x == 0 {
                            assert(x * x == 0) by (nonlinear_arith)
                                requires
                                    x == 0,
                            ;
                        }
                    }
                    lemma_squares_grow((x - 1) as nat, x as nat);
                }
                x -= 1;
                x2 = (x as u128) * (x as u128);
            }
            proof {
                if x2 < need {
                    lemma_no_point_between(n as nat, x as nat, y as nat);
                }
            }
        }
        let ghost before = points@;
        if x2 == need {
            points.push((x, y));
            proof {
                assert(points@[before.len() as int] == (x, y));
                assert forall|z: nat, w: nat|
                    w < y + 1 && #[trigger] on_circle(n as nat, z, w) implies z <= usize::MAX
                    && points@.contains((z as usize, w as usize)) by {
                    if w < y {
                        assert(before.contains((z as usize, w as usize)));
                        let i = choose|i: int|
                            0 <= i < before.len() && before[i] == (z as usize, w as usize);
                        assert(points@[i] == (z as usize, w as usize));
                    } else {
                        lemma_squares_grow(z, x as nat);
                        lemma_squares_grow(x as nat, z);
                        assert(z == x);
                    }
                }
            }
        }
        y += 1;
    }
    points
}

} // verus!
