//! Functions that several of the problems share.

pub mod fibonacci;

use vstd::prelude::*;

verus! {

/// `r` is the integer square root of `n`: the greatest number whose
/// square is not above `n`.
pub open spec fn is_root(n: nat, r: nat) -> bool {
    r * r <= n < (r + 1) * (r + 1)
}

/// The integer square root of `n`.
pub open spec fn isqrt_of(n: nat) -> nat {
    choose|r: nat| is_root(n, r)
}

/// A number has one integer square root.
pub proof fn lemma_root_is(n: nat, r: nat)
    requires
        is_root(n, r),
    ensures
        isqrt_of(n) == r,
{
    let s = isqrt_of(n);
    assert(is_root(n, s));
    assert(s == r) by (nonlinear_arith)
        requires
            s * s <= n < (s + 1) * (s + 1),
            r * r <= n < (r + 1) * (r + 1),
    ;
}

/// Every number has an integer square root.
pub proof fn lemma_root_exists(n: nat)
    ensures
        is_root(n, isqrt_of(n)),
    decreases n,
{
    if n == 0 {
        let r: nat = 0;
        assert(r * r <= n < (r + 1) * (r + 1)) by (nonlinear_arith)
            requires
                n == 0,
                r == 0,
        ;
        assert(is_root(n, r));
    } else {
        lemma_root_exists((n - 1) as nat);
        let r = isqrt_of((n - 1) as nat);
        if (r + 1) * (r + 1) <= n {
            assert(n < (r + 2) * (r + 2)) by (nonlinear_arith)
                requires
                    n - 1 < (r + 1) * (r + 1),
            ;
            assert(is_root(n, r + 1));
        } else {
            assert(is_root(n, r));
        }
    }
}

/// The integer square root: the greatest `root` whose square is not above
/// `n`.
pub fn isqrt(n: usize) -> (root: usize)
    ensures
        root * root <= n < (root + 1) * (root + 1),
        root == isqrt_of(n as nat),
{
    isqrt64(n as u64) as usize
}

/// The integer square root of a number of 64 bits.
pub fn isqrt64(target: u64) -> (root: u64)
    ensures
        root * root <= target < (root + 1) * (root + 1),
        root == isqrt_of(target as nat),
        root <= 0xFFFF_FFFF,
{
    let mut lo: u64 = 0;
    let mut hi: u64 = 0x1_0000_0000;
    while hi - lo > 1
        invariant
            lo < hi <= 0x1_0000_0000,
            lo * lo <= target < hi * hi,
        decreases hi - lo,
    {
        let mid = lo + (hi - lo) / 2;
        assert(mid * mid < 0x1_0000_0000 * 0x1_0000_0000) by (nonlinear_arith)
            requires
                0 <= mid < 0x1_0000_0000,
        ;
        if mid * mid <= target {
            lo = mid;
        } else {
            hi = mid;
        }
    }
    proof {
        lemma_root_is(target as nat, lo as nat);
    }
    lo
}

/// Quotient and remainder of one division.
pub fn div_rem(n: usize, d: usize) -> (qr: (usize, usize))
    requires
        d != 0,
    ensures
        qr.0 == n / d,
        qr.1 == n % d,
        n == qr.0 * d + qr.1,
        qr.1 < d,
{
    let quot = n / d;
    let rem = n % d;
    proof {
        vstd::arithmetic::div_mod::lemma_fundamental_div_mod(n as int, d as int);
        assert(d * quot == quot * d) by (nonlinear_arith);
    }
    (quot, rem)
}

/// The product n(n+1)…(n+r-1).
pub open spec fn rising(n: nat, r: nat) -> nat
    decreases r,
{
    if r == 0 {
        1
    } else {
        rising(n, (r - 1) as nat) * (n + r - 1) as nat
    }
}

/// The product 1·2·…·r.
pub open spec fn factorial(r: nat) -> nat
    decreases r,
{
    if r == 0 {
        1
    } else {
        factorial((r - 1) as nat) * r
    }
}

/// The n-th polytopic number of dimension r: n(n+1)…(n+r-1) / r!.
pub open spec fn polytopic(r: nat, n: nat) -> nat {
    rising(n, r) / factorial(r)
}

/// From `n` = 1 on the rising product grows with its length, has every one
/// of its factors below it, and holds the factorial below it.
pub proof fn lemma_rising(n: nat, i: nat, r: nat)
    requires
        n >= 1,
        i <= r,
    ensures
        1 <= factorial(i) <= rising(n, i) <= rising(n, r),
        i < r ==> rising(n, i) * (n + i) <= rising(n, r),
    decreases r,
{
    if i < r {
        lemma_rising(n, i, (r - 1) as nat);
        let a = rising(n, (r - 1) as nat);
        let f = (n + r - 1) as nat;
        assert(a <= a * f) by (nonlinear_arith)
            requires
                f >= 1,
        ;
    } else {
        lemma_factorial_below(n, i);
    }
}

/// From `n` = 1 on, the factorial is not above the rising product.
pub proof fn lemma_factorial_below(n: nat, r: nat)
    requires
        n >= 1,
    ensures
        1 <= factorial(r) <= rising(n, r),
    decreases r,
{
    if r > 0 {
        lemma_factorial_below(n, (r - 1) as nat);
        let a = factorial((r - 1) as nat);
        let b = rising(n, (r - 1) as nat);
        let f = (n + r - 1) as nat;
        assert(a * r <= b * f) by (nonlinear_arith)
            requires
                a <= b,
                r <= f,
        ;
        assert(a * r >= 1) by (nonlinear_arith)
            requires
                a >= 1,
                r >= 1,
        ;
    }
}

/// The n-th polytopic number of dimension r: for r = 1 the numbers
/// themselves, for r = 2 the triangle numbers, for r = 3 the tetrahedral
/// numbers.
pub fn polytopic_number(r: usize, n: usize) -> (p: usize)
    requires
        r >= 1,
        n >= 1,
        rising(n as nat, r as nat) <= usize::MAX,
    ensures
        p == polytopic(r as nat, n as nat),
{
    let mut numerator: usize = 1;
    let mut denominator: usize = 1;
    let mut i: usize = 0;
    while i < r
        invariant
            i <= r,
            n >= 1,
            numerator == rising(n as nat, i as nat),
            denominator == factorial(i as nat),
            rising(n as nat, r as nat) <= usize::MAX,
        decreases r - i,
    {
        proof {
            lemma_rising(n as nat, i as nat, r as nat);
            lemma_rising(n as nat, (i + 1) as nat, r as nat);
            let a = rising(n as nat, i as nat);
            assert(n + i <= a * (n + i)) by (nonlinear_arith)
                requires
                    a >= 1,
            ;
        }
        numerator = numerator * (n + i);
        denominator = denominator * (i + 1);
        i += 1;
    }
    proof {
        lemma_factorial_below(n as nat, r as nat);
    }
    numerator / denominator
}

/// The subsets of the items of `s` from `index` on, each listed with its
/// later items first: the subsets without the item at `index`, then the same
/// subsets with that item added at the end.
pub open spec fn subsets<T>(s: Seq<T>, index: int) -> Seq<Seq<T>>
    decreases s.len() - index,
{
    if index >= s.len() {
        seq![Seq::empty()]
    } else {
        let rest = subsets(s, index + 1);
        rest + Seq::new(rest.len(), |i: int| rest[i].push(s[index]))
    }
}

/// A copy of a vector.
fn copy_of<T: Copy>(p: &Vec<T>) -> (out: Vec<T>)
    ensures
        out@ == p@,
{
    let mut out: Vec<T> = Vec::new();
    let mut j: usize = 0;
    while j < p.len()
        invariant
            j <= p.len(),
            out@ == p@.take(j as int),
        decreases p.len() - j,
    {
        out.push(p[j]);
        proof {
            assert(out@ =~= p@.take(j + 1));
        }
        j += 1;
    }
    proof {
        assert(p@.take(p.len() as int) =~= p@);
    }
    out
}

/// The power set of the items of `v` from `index` on.
pub fn power_set<T: Copy>(v: &[T], index: usize) -> (ps: Vec<Vec<T>>)
    requires
        index <= v.len(),
    ensures
        ps.len() == subsets(v@, index as int).len(),
        forall|i: int| 0 <= i < ps.len() ==> (#[trigger] ps[i])@ == subsets(v@, index as int)[i],
    decreases v.len() - index,
{
    if v.len() == index {
        let mut empty: Vec<Vec<T>> = Vec::new();
        empty.push(Vec::new());
        return empty;
    }
    let head = v[index];
    let tail = index + 1;
    let mut ps = power_set(v, tail);
    let ghost rest = subsets(v@, tail as int);
    let count = ps.len();
    let mut i: usize = 0;
    while i < count
        invariant
            i <= count,
            index < v.len(),
            head == v@[index as int],
            rest == subsets(v@, index + 1),
            count == rest.len(),
            ps.len() == count + i,
            forall|k: int| 0 <= k < count ==> (#[trigger] ps[k])@ == rest[k],
            forall|k: int| 0 <= k < i ==> (#[trigger] ps[count + k])@ == rest[k].push(head),
        decreases count - i,
    {
        let mut p = copy_of(&ps[i]);
        p.push(head);
        ps.push(p);
        i += 1;
    }
    proof {
        let all = subsets(v@, index as int);
        assert(all.len() == ps.len());
        assert forall|k: int| 0 <= k < ps.len() implies (#[trigger] ps[k])@ == all[k] by {
            if k >= count {
                assert(ps[count + (k - count)]@ == rest[k - count].push(head));
            }
        }
    }
    ps
}

/// `b` to the power `e`.
pub open spec fn power(b: nat, e: nat) -> nat
    decreases e,
{
    if e == 0 {
        1
    } else {
        power(b, (e - 1) as nat) * b
    }
}

/// The powers of a base from 1 on do not fall.
pub proof fn lemma_power_grows(b: nat, i: nat, e: nat)
    requires
        b >= 1,
        i <= e,
    ensures
        1 <= power(b, i) <= power(b, e),
    decreases e,
{
    if e > 0 {
        if i < e {
            lemma_power_grows(b, i, (e - 1) as nat);
        } else {
            lemma_power_grows(b, (i - 1) as nat, (e - 1) as nat);
        }
        let a = power(b, (e - 1) as nat);
        assert(a <= a * b) by (nonlinear_arith)
            requires
                b >= 1,
        ;
        if i == e {
            let c = power(b, (i - 1) as nat);
            assert(c * b >= 1) by (nonlinear_arith)
                requires
                    c >= 1,
                    b >= 1,
            ;
        }
    }
}

/// `b` to the power `e`, where that fits.
pub fn pow(b: usize, e: u32) -> (p: usize)
    requires
        power(b as nat, e as nat) <= usize::MAX,
    ensures
        p == power(b as nat, e as nat),
{
    if b == 0 {
        if e == 0 {
            return 1;
        }
        assert(power(0, e as nat) == 0);
        return 0;
    }
    let mut p: usize = 1;
    let mut i: u32 = 0;
    while i < e
        invariant
            i <= e,
            b >= 1,
            p == power(b as nat, i as nat),
            power(b as nat, e as nat) <= usize::MAX,
        decreases e - i,
    {
        proof {
            lemma_power_grows(b as nat, (i + 1) as nat, e as nat);
        }
        p = p * b;
        i += 1;
    }
    p
}

/// The product of the numbers above `x1` up to `x2`.
pub open spec fn range_product(x1: nat, x2: nat) -> nat
    decreases x2,
{
    if x2 <= x1 {
        1
    } else {
        range_product(x1, (x2 - 1) as nat) * x2
    }
}

/// The product grows with its upper end, and every factor is below it.
pub proof fn lemma_range_product(x1: nat, k: nat, x2: nat)
    requires
        x1 <= k <= x2,
    ensures
        1 <= range_product(x1, k) <= range_product(x1, x2),
        x1 < k ==> k <= range_product(x1, k),
    decreases x2,
{
    if k < x2 {
        lemma_range_product(x1, k, (x2 - 1) as nat);
        let a = range_product(x1, (x2 - 1) as nat);
        assert(a <= a * x2) by (nonlinear_arith)
            requires
                a >= 1,
                x2 >= 1,
        ;
    } else if x1 < k {
        lemma_range_product(x1, (k - 1) as nat, (k - 1) as nat);
        let a = range_product(x1, (k - 1) as nat);
        assert(k <= a * k && a * k >= 1) by (nonlinear_arith)
            requires
                a >= 1,
                k >= 1,
        ;
    }
}

/// The product of the numbers above `x1` up to `x2`: the factorial of `x2`
/// over the factorial of `x1`.
pub fn fact(x1: usize, x2: usize) -> (product: usize)
    requires
        range_product(x1 as nat, x2 as nat) <= usize::MAX,
    ensures
        product == range_product(x1 as nat, x2 as nat),
{
    let mut product: usize = 1;
    if x2 <= x1 {
        return product;
    }
    let mut next: usize = x1;
    while next < x2
        invariant
            x1 <= next <= x2,
            product == range_product(x1 as nat, next as nat),
            range_product(x1 as nat, x2 as nat) <= usize::MAX,
        decreases x2 - next,
    {
        proof {
            lemma_range_product(x1 as nat, (next + 1) as nat, x2 as nat);
        }
        next += 1;
        product = product * next;
    }
    product
}

/// The product of the numbers from 51 to 70.
pub fn fact70() -> (product: u128)
    ensures
        product == range_product(50, 70),
{
    let mut product: u128 = 51;
    let mut next: u128 = 51;
    proof {
        reveal_with_fuel(range_product, 2);
        assert(range_product(50, 51) == 51);
        lemma_seventy(1);
    }
    while next < 70
        invariant
            51 <= next <= 70,
            product == range_product(50, next as nat),
            product <= power(70, (next - 50) as nat),
        decreases 70 - next,
    {
        proof {
            lemma_seventy((next + 1 - 50) as nat);
            let a = product as nat;
            let b = power(70, (next - 50) as nat);
            assert(a * (next + 1) <= b * 70) by (nonlinear_arith)
                requires
                    a <= b,
                    next + 1 <= 70,
                    a >= 0,
            ;
        }
        next += 1;
        product = product * next;
    }
    product
}

/// The twentieth power of seventy fits in 128 bits, and so do the powers
/// before it.
proof fn lemma_seventy(e: nat)
    requires
        e <= 20,
    ensures
        power(70, e) <= 79792266297612001000000000000000000000,
        e >= 1 ==> power(70, e) >= 70,
    decreases 20 - e,
{
    if e == 20 {
        reveal_with_fuel(power, 21);
        assert(power(70, 10) == 2824752490000000000);
        assert(power(70, 20) == power(70, 10) * 2824752490000000000) by {
            assert(power(70, 11) == power(70, 10) * 70);
            assert(power(70, 12) == power(70, 10) * 4900);
            assert(power(70, 13) == power(70, 10) * 343000);
            assert(power(70, 14) == power(70, 10) * 24010000);
            assert(power(70, 15) == power(70, 10) * 1680700000);
            assert(power(70, 16) == power(70, 10) * 117649000000);
            assert(power(70, 17) == power(70, 10) * 8235430000000);
            assert(power(70, 18) == power(70, 10) * 576480100000000);
            assert(power(70, 19) == power(70, 10) * 40353607000000000);
        }
    } else {
        lemma_seventy(e + 1);
        lemma_power_grows(70, e, e + 1);
        if e >= 1 {
            lemma_power_grows(70, 1, e);
            reveal_with_fuel(power, 2);
        }
    }
}

} // verus!
