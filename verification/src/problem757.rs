//! Stealthy numbers.
//!
//! A positive integer N is stealthy if N = a·b = c·d with a + b = c + d + 1.
//! The stealthy numbers are the products i(i+1)·n(n+1) with 1 ≤ i ≤ n.
//! Wanted: how many of them there are up to ten to the fourteenth.

use vstd::prelude::*;
use std::collections::HashSet;
use crate::math::power;

verus! {

/// The product of the two neighbours from `a` and the two from `n`.
pub open spec fn product(a: int, n: int) -> int {
    a * (a + 1) * (n * (n + 1))
}

/// `x` is the product of the two neighbours from `a` and the two from `n`.
pub open spec fn is_product(x: int, a: int, n: int) -> bool {
    1 <= a <= n && x == product(a, n)
}

/// `x` is such a product, not above `max`, with its smaller factor pair
/// starting below `i`.
pub open spec fn is_stealthy_below(x: u64, max: int, i: int) -> bool {
    x <= max && exists|a: int, n: int| a < i && #[trigger] is_product(x as int, a, n)
}

/// `x` is a stealthy number not above `max`.
pub open spec fn is_stealthy(x: u64, max: int) -> bool {
    x <= max && exists|a: int, n: int| #[trigger] is_product(x as int, a, n)
}

/// The stealthy numbers not above `max`.
pub open spec fn stealthy_numbers(max: int) -> Set<u64> {
    Set::new(|x: u64| is_stealthy(x, max))
}

/// `x` is stealthy: it is a product a·b and a product c·d with
/// a + b = c + d + 1.
pub open spec fn is_stealthy_number(x: int) -> bool {
    exists|a: int, b: int, c: int, d: int| #[trigger] is_stealthy_by(x, a, b, c, d)
}

/// `x` is the product a·b and the product c·d, and a + b = c + d + 1.
pub open spec fn is_stealthy_by(x: int, a: int, b: int, c: int, d: int) -> bool {
    a >= 1 && b >= 1 && c >= 1 && d >= 1 && x == a * b && x == c * d && a + b == c + d + 1
}

/// Every product that is counted is a stealthy number.
pub proof fn lemma_products_are_stealthy(x: int, i: int, n: int)
    requires
        is_product(x, i, n),
    ensures
        is_stealthy_number(x),
{
    let a = i * n;
    let b = (i + 1) * (n + 1);
    let c = i * (n + 1);
    let d = (i + 1) * n;
    assert(a >= 1 && b >= 1 && c >= 1 && d >= 1) by (nonlinear_arith)
        requires
            1 <= i <= n,
            a == i * n,
            b == (i + 1) * (n + 1),
            c == i * (n + 1),
            d == (i + 1) * n,
    ;
    assert(a * b == x && c * d == x) by (nonlinear_arith)
        requires
            x == i * (i + 1) * (n * (n + 1)),
            a == i * n,
            b == (i + 1) * (n + 1),
            c == i * (n + 1),
            d == (i + 1) * n,
    ;
    assert(a + b == c + d + 1) by (nonlinear_arith)
        requires
            a == i * n,
            b == (i + 1) * (n + 1),
            c == i * (n + 1),
            d == (i + 1) * n,
    ;
    assert(is_stealthy_by(x, a, b, c, d));
}

/// Products of neighbours grow with the smaller neighbour.
pub proof fn lemma_neighbours_grow(a: int, b: int)
    requires
        0 <= a <= b,
    ensures
        a * (a + 1) <= b * (b + 1),
        a <= a * (a + 1),
{
    assert(a * (a + 1) <= b * (b + 1)) by (nonlinear_arith)
        requires
            0 <= a <= b,
    ;
    assert(a <= a * (a + 1)) by (nonlinear_arith)
        requires
            0 <= a,
    ;
}

/// A product is not below the square of its smaller pair, and grows with
/// either pair.
pub proof fn lemma_product_grows(a: int, n: int, b: int, k: int)
    requires
        1 <= a <= b,
        1 <= n <= k,
    ensures
        product(a, n) <= product(b, k),
{
    lemma_neighbours_grow(a, b);
    lemma_neighbours_grow(n, k);
    let p = a * (a + 1);
    let q = b * (b + 1);
    let r = n * (n + 1);
    let s = k * (k + 1);
    assert(p >= 0 && r >= 0) by (nonlinear_arith)
        requires
            a >= 1,
            n >= 1,
            p == a * (a + 1),
            r == n * (n + 1),
    ;
    assert(p * r <= q * s) by (nonlinear_arith)
        requires
            0 <= p <= q,
            0 <= r <= s,
    ;
}

/// Ten to the nineteenth is the last power of ten that fits in 64 bits.
pub proof fn lemma_power_of_ten(exp: nat)
    requires
        exp <= 19,
    ensures
        1 <= power(10, exp) <= 10_000_000_000_000_000_000,
    decreases 19 - exp,
{
    if exp == 19 {
        reveal_with_fuel(power, 20);
    } else {
        lemma_power_of_ten(exp + 1);
        crate::math::lemma_power_grows(10, exp, exp + 1);
    }
}

/// Ten to the power `exp`.
fn ten_to(exp: u32) -> (p: u64)
    requires
        exp <= 19,
    ensures
        p == power(10, exp as nat),
{
    let mut p: u64 = 1;
    let mut i: u32 = 0;
    while i < exp
        invariant
            i <= exp <= 19,
            p == power(10, i as nat),
        decreases exp - i,
    {
        proof {
            lemma_power_of_ten((i + 1) as nat);
        }
        p = p * 10;
        i += 1;
    }
    p
}

/// Counts the stealthy numbers up to ten to the power `exp`.
pub fn stealthy_number_count(exp: u32) -> (count: usize)
    requires
        exp <= 19,
    ensures
        count == stealthy_numbers(power(10, exp as nat) as int).len(),
{
    proof {
        lemma_power_of_ten(exp as nat);
    }
    let max = ten_to(exp);
    let approx: usize = if exp <= 2 {
        10
    } else if exp <= 6 {
        3000
    } else if exp <= 9 {
        147_000
    } else if exp == 10 {
        525_000
    } else if exp == 11 {
        1_844_000
    } else if exp == 12 {
        6_415_000
    } else if exp == 13 {
        24_000_000
    } else {
        76_000_000
    };
    let mut found: HashSet<u64> = HashSet::with_capacity(approx);
    let wide = max as u128;
    let mut i: u64 = 1;
    proof {
        assert(found@ =~= Set::new(|x: u64| is_stealthy_below(x, max as int, 1)));
    }
    loop
        invariant_except_break
            1 <= i <= max,
            wide == max,
            max <= 10_000_000_000_000_000_000,
            (i - 1) * i <= 0xFFFF_FFFF,
            found@ == Set::new(|x: u64| is_stealthy_below(x, max as int, i as int)),
        ensures
            1 <= i <= max,
            found@ == Set::new(|x: u64| is_stealthy_below(x, max as int, i as int)),
            forall|a: int, n: int| i <= a <= n ==> #[trigger] product(a, n) > max,
        decreases max - i,
    {
        if i >= max {
            proof {
                assert forall|a: int, n: int| i <= a <= n implies #[trigger] product(a, n)
                    > max by {
                    lemma_product_grows(i as int, i as int, a, n);
                    let p = i * (i + 1);
                    assert(p >= 2 * i) by (nonlinear_arith)
                        requires
                            p == i * (i + 1),
                            i >= 1,
                    ;
                    assert(p * p > max) by (nonlinear_arith)
                        requires
                            p >= 2 * i,
                            i >= max,
                            i >= 1,
                    ;
                }
            }
            break ;
        }
        proof {
            assert(i <= 0x1_0001) by (nonlinear_arith)
                requires
                    (i - 1) * i <= 0xFFFF_FFFF,
                    i >= 1,
            ;
            assert(i * (i + 1) <= 0x1_0002_0001) by (nonlinear_arith)
                requires
                    (i - 1) * i <= 0xFFFF_FFFF,
                    1 <= i <= 0x1_0001,
            ;
        }
        let q: u128 = (i as u128) * (i as u128 + 1);
        proof {
            assert(q * q <= 0x1_0002_0001 * 0x1_0002_0001) by (nonlinear_arith)
                requires
                    0 <= q <= 0x1_0002_0001,
            ;
        }
        let square = q * q;
        if square > wide {
            proof {
                assert forall|a: int, n: int| i <= a <= n implies #[trigger] product(a, n)
                    > max by {
                    lemma_product_grows(i as int, i as int, a, n);
                }
            }
            break ;
        }
        proof {
            assert(q <= 0xFFFF_FFFF) by (nonlinear_arith)
                requires
                    q * q <= max,
                    max <= 10_000_000_000_000_000_000,
                    q >= 0,
            ;
            assert(q >= 2) by (nonlinear_arith)
                requires
                    q == i * (i + 1),
                    i >= 1,
            ;
            assert(q * ((i + 1 - 1) * (i + 1)) <= max) by (nonlinear_arith)
                requires
                    q == i * (i + 1),
                    q * q <= max,
            ;
            assert(is_product(square as int, i as int, i as int));
        }
        found.insert(square as u64);
        let mut n: u64 = i + 1;
        proof {
            assert(found@ =~= Set::new(
                |x: u64|
                    is_stealthy_below(x, max as int, i as int) || (x <= max && exists|k: int|
                        i <= k < n && #[trigger] is_product(x as int, i as int, k)),
            )) by {
                assert forall|x: u64|
                    (is_stealthy_below(x, max as int, i as int) || (x <= max && exists|k: int|
                        i <= k < n && #[trigger] is_product(x as int, i as int, k))) implies (
                is_stealthy_below(x, max as int, i as int) || x == square) by {
                    if !is_stealthy_below(x, max as int, i as int) {
                        let k = choose|k: int|
                            i <= k < n && #[trigger] is_product(x as int, i as int, k);
                        assert(k == i);
                    }
                }
            }
        }
        loop
            invariant_except_break
                1 <= i < n <= max,
                wide == max,
                max <= 10_000_000_000_000_000_000,
                q == i * (i + 1),
                2 <= q <= 0xFFFF_FFFF,
                q * ((n - 1) * n) <= max,
                found@ == Set::new(
                    |x: u64|
                        is_stealthy_below(x, max as int, i as int) || (x <= max && exists|k: int|
                            i <= k < n && #[trigger] is_product(x as int, i as int, k)),
                ),
            ensures
                found@ == Set::new(|x: u64| is_stealthy_below(x, max as int, i + 1)),
            decreases max - n,
        {
            if n >= max {
                proof {
                    lemma_inner_exhausted(found@, max as int, i as int, n as int);
                }
                break ;
            }
            proof {
                let s = (n - 1) * n;
                assert(s <= max / 2) by (nonlinear_arith)
                    requires
                        q * s <= max,
                        q >= 2,
                        s >= 0,
                ;
                assert(n <= 0x1_0000_0000) by (nonlinear_arith)
                    requires
                        s == (n - 1) * n,
                        s <= 5_000_000_000_000_000_000,
                        n >= 1,
                ;
                let t = n * (n + 1);
                assert(t <= 0x1_0000_0000 * 0x1_0000_0001) by (nonlinear_arith)
                    requires
                        t == n * (n + 1),
                        1 <= n <= 0x1_0000_0000,
                ;
                assert(q * t <= 0xFFFF_FFFF * (0x1_0000_0000 * 0x1_0000_0001)) by (nonlinear_arith)
                    requires
                        0 <= q <= 0xFFFF_FFFF,
                        0 <= t <= 0x1_0000_0000 * 0x1_0000_0001,
                ;
            }
            let sn: u128 = q * ((n as u128) * (n as u128 + 1));
            if sn > wide {
                proof {
                    assert(product(i as int, n as int) == sn);
                    lemma_inner_done(found@, max as int, i as int, n as int);
                }
                break ;
            }
            proof {
                assert(is_product(sn as int, i as int, n as int));
                lemma_inner_step(found@, max as int, i as int, n as int, sn as u64);
            }
            found.insert(sn as u64);
            n += 1;
        }
        proof {
            assert(((i + 1) - 1) * (i + 1) <= 0xFFFF_FFFF);
        }
        i += 1;
    }
    proof {
        assert(found@ =~= stealthy_numbers(max as int)) by {
            assert forall|x: u64| is_stealthy(x, max as int) implies is_stealthy_below(
                x,
                max as int,
                i as int,
            ) by {
                let (a, n) = choose|a: int, n: int| #[trigger] is_product(x as int, a, n);
                if a >= i {
                    assert(product(a, n) > max);
                }
                assert(is_product(x as int, a, n));
            }
        }
    }
    found.len()
}

/// Once a product with the pair from `i` is above the bound, so are all
/// later ones: the scan for `i` is complete.
proof fn lemma_inner_done(found: Set<u64>, max: int, i: int, n: int)
    requires
        1 <= i < n,
        product(i, n) > max,
        found == Set::new(
            |x: u64|
                is_stealthy_below(x, max, i) || (x <= max && exists|k: int|
                    i <= k < n && #[trigger] is_product(x as int, i, k)),
        ),
    ensures
        found == Set::new(|x: u64| is_stealthy_below(x, max, i + 1)),
{
    let target = Set::new(|x: u64| is_stealthy_below(x, max, i + 1));
    assert forall|x: u64| target.contains(x) implies found.contains(x) by {
        let (a, k) = choose|a: int, k: int| a < i + 1 && #[trigger] is_product(x as int, a, k);
        if a == i {
            if k >= n {
                lemma_product_grows(i, n, i, k);
            }
            assert(is_product(x as int, i, k));
        } else {
            assert(a < i && is_product(x as int, a, k));
        }
    }
    assert forall|x: u64| found.contains(x) implies target.contains(x) by {
        if is_stealthy_below(x, max, i) {
            let (a, k) = choose|a: int, k: int| a < i && #[trigger] is_product(x as int, a, k);
            assert(a < i + 1 && is_product(x as int, a, k));
        } else {
            let k = choose|k: int| i <= k < n && #[trigger] is_product(x as int, i, k);
            assert(i < i + 1 && is_product(x as int, i, k));
        }
    }
    assert(found =~= target);
}

/// Where the scan for `i` has reached the bound itself, it is complete.
proof fn lemma_inner_exhausted(found: Set<u64>, max: int, i: int, n: int)
    requires
        1 <= i < n,
        n >= max,
        found == Set::new(
            |x: u64|
                is_stealthy_below(x, max, i) || (x <= max && exists|k: int|
                    i <= k < n && #[trigger] is_product(x as int, i, k)),
        ),
    ensures
        found == Set::new(|x: u64| is_stealthy_below(x, max, i + 1)),
{
    assert(i * (i + 1) * (n * (n + 1)) > max) by (nonlinear_arith)
        requires
            1 <= i < n,
            n >= max,
    ;
    assert(product(i, n) > max);
    lemma_inner_done(found, max, i, n);
}

/// Inserting the product for `n` moves the scan for `i` on by one.
proof fn lemma_inner_step(found: Set<u64>, max: int, i: int, n: int, sn: u64)
    requires
        1 <= i < n,
        sn <= max,
        is_product(sn as int, i, n),
        found == Set::new(
            |x: u64|
                is_stealthy_below(x, max, i) || (x <= max && exists|k: int|
                    i <= k < n && #[trigger] is_product(x as int, i, k)),
        ),
    ensures
        found.insert(sn) == Set::new(
            |x: u64|
                is_stealthy_below(x, max, i) || (x <= max && exists|k: int|
                    i <= k < n + 1 && #[trigger] is_product(x as int, i, k)),
        ),
{
    let target = Set::new(
        |x: u64|
            is_stealthy_below(x, max, i) || (x <= max && exists|k: int|
                i <= k < n + 1 && #[trigger] is_product(x as int, i, k)),
    );
    assert forall|x: u64| target.contains(x) implies found.insert(sn).contains(x) by {
        if !is_stealthy_below(x, max, i) {
            let k = choose|k: int| i <= k < n + 1 && #[trigger] is_product(x as int, i, k);
            if k < n {
                assert(is_product(x as int, i, k));
            }
        }
    }
    assert forall|x: u64| found.insert(sn).contains(x) implies target.contains(x) by {
        if x == sn {
            assert(i <= n < n + 1 && is_product(x as int, i, n));
        } else if !is_stealthy_below(x, max, i) {
            let k = choose|k: int| i <= k < n && #[trigger] is_product(x as int, i, k);
            assert(i <= k < n + 1 && is_product(x as int, i, k));
        }
    }
    assert(found.insert(sn) =~= target);
}

/// The number of stealthy numbers up to ten to the fourteenth.
pub fn answer() -> (count: u64)
    ensures
        count == stealthy_numbers(power(10, 14) as int).len(),
{
    stealthy_number_count(14) as u64
}

} // verus!
