//! Prime generating integers.
//!
//! For every divisor d of 30 the number d + 30/d is prime. Wanted: the sum
//! of all positive integers n not exceeding 100 000 000 such that for every
//! divisor d of n the number d + n/d is prime.

use vstd::prelude::*;
use std::collections::HashSet;
use crate::factors::{
    divides, lemma_divides_multiple, lemma_divides_quotient, lemma_divides_through,
    lemma_prime_divides_prime, lemma_prime_divides_product,
};
use crate::math::{isqrt, isqrt_of, lemma_root_exists, power};
use crate::divisors::{factors_of, lemma_factors_of};
use crate::primes::{
    is_factorisation, is_prime, is_prime_list, new_sieve, product_of, sieve_bound, sieve_factor,
    sieve_is_prime, sieve_primes,
};

verus! {

/// The product of all members of `v`.
pub open spec fn full_product(v: Seq<usize>) -> nat
    decreases v.len(),
{
    if v.len() == 0 {
        1
    } else {
        full_product(v.drop_last()) * v.last() as nat
    }
}

/// The products of the members of `v`, one for every way of leaving
/// members out: first those with the last member, then those without it.
pub open spec fn products(v: Seq<usize>) -> Seq<nat>
    decreases v.len(),
{
    if v.len() == 0 {
        seq![1nat]
    } else {
        let rest = products(v.drop_last());
        Seq::new(rest.len(), |i: int| rest[i] * v.last() as nat) + rest
    }
}

/// `p` written `c` times.
pub open spec fn repeated(p: usize, c: nat) -> Seq<usize> {
    Seq::new(c, |i: int| p)
}

/// The prime factors written out: every prime as often as its exponent
/// says.
pub open spec fn expanded(factors: Seq<(usize, usize)>) -> Seq<usize>
    decreases factors.len(),
{
    if factors.len() == 0 {
        Seq::empty()
    } else {
        expanded(factors.drop_last()) + repeated(factors.last().0, factors.last().1 as nat)
    }
}

/// The divisors of `n` as they are listed from its prime factors, some of
/// them more than once.
pub open spec fn divisors_of(n: nat) -> Seq<nat> {
    products(expanded(factors_of(n)))
}

/// Every product lies between one and the product of all.
pub proof fn lemma_products(v: Seq<usize>)
    requires
        forall|i: int| 0 <= i < v.len() ==> #[trigger] v[i] >= 1,
    ensures
        full_product(v) >= 1,
        forall|i: int|
            0 <= i < products(v).len() ==> 1 <= #[trigger] products(v)[i] <= full_product(v),
    decreases v.len(),
{
    if v.len() > 0 {
        lemma_products(v.drop_last());
        let rest = products(v.drop_last());
        let all = full_product(v.drop_last());
        let last = v.last() as nat;
        assert(v[v.len() - 1] >= 1);
        assert(all * last >= all && all * last >= 1) by (nonlinear_arith)
            requires
                all >= 1,
                last >= 1,
        ;
        assert forall|i: int| 0 <= i < products(v).len() implies 1 <= #[trigger] products(v)[i]
            <= full_product(v) by {
            if i < rest.len() {
                let x = rest[i];
                assert(1 <= x * last <= all * last) by (nonlinear_arith)
                    requires
                        1 <= x <= all,
                        last >= 1,
                ;
            } else {
                assert(products(v)[i] == rest[i - rest.len()]);
            }
        }
    }
}

/// Writing a factor out once more multiplies the product by it.
pub proof fn lemma_full_product_push(v: Seq<usize>, p: usize)
    ensures
        full_product(v.push(p)) == full_product(v) * p as nat,
{
    assert(v.push(p).drop_last() =~= v);
}

/// Written out, the prime factors multiply to the product of the prime
/// powers.
pub proof fn lemma_repeat(v: Seq<usize>, p: usize, c: nat)
    ensures
        full_product(v + repeated(p, c)) == full_product(v) * power(p as nat, c),
    decreases c,
{
    let tail = repeated(p, c);
    if c == 0 {
        assert(v + tail =~= v);
        assert(power(p as nat, 0) == 1);
        assert(full_product(v) * 1 == full_product(v));
    } else {
        let shorter = repeated(p, (c - 1) as nat);
        lemma_repeat(v, p, (c - 1) as nat);
        assert(v + tail =~= (v + shorter).push(p));
        lemma_full_product_push(v + shorter, p);
        let a = full_product(v);
        let b = power(p as nat, (c - 1) as nat);
        assert(full_product(v + shorter) == a * b);
        assert(full_product(v + tail) == (a * b) * p);
        assert(power(p as nat, c) == b * p);
        assert((a * b) * p == a * (b * p)) by (nonlinear_arith);
        assert(full_product(v + tail) == a * power(p as nat, c));
    }
}

/// Written out, the prime factors of a number multiply to the number.
pub proof fn lemma_expanded(factors: Seq<(usize, usize)>)
    ensures
        full_product(expanded(factors)) == product_of(factors),
    decreases factors.len(),
{
    if factors.len() > 0 {
        lemma_expanded(factors.drop_last());
        lemma_repeat(expanded(factors.drop_last()), factors.last().0, factors.last().1 as nat);
    }
}

/// Written out, prime factors are primes.
pub proof fn lemma_expanded_primes(factors: Seq<(usize, usize)>)
    requires
        forall|i: int| 0 <= i < factors.len() ==> is_prime((#[trigger] factors[i]).0 as nat),
    ensures
        forall|i: int|
            0 <= i < expanded(factors).len() ==> is_prime(#[trigger] expanded(factors)[i] as nat),
    decreases factors.len(),
{
    if factors.len() > 0 {
        let front = factors.drop_last();
        assert forall|i: int| 0 <= i < front.len() implies is_prime(
            (#[trigger] front[i]).0 as nat,
        ) by {
            assert(front[i] == factors[i]);
        }
        lemma_expanded_primes(front);
        assert(is_prime(factors[factors.len() - 1].0 as nat));
        let head = expanded(front);
        assert forall|i: int| 0 <= i < expanded(factors).len() implies is_prime(
            #[trigger] expanded(factors)[i] as nat,
        ) by {
            if i < head.len() {
                assert(expanded(factors)[i] == head[i]);
            } else {
                assert(expanded(factors)[i] == factors.last().0);
            }
        }
    }
}

/// The products of primes, one for every way of leaving some out, are the
/// divisors of the product of all.
pub proof fn lemma_products_are_divisors(v: Seq<usize>)
    requires
        forall|i: int| 0 <= i < v.len() ==> is_prime(#[trigger] v[i] as nat),
    ensures
        forall|d: nat| products(v).contains(d) <==> #[trigger] divides(d, full_product(v)),
    decreases v.len(),
{
    if v.len() == 0 {
        assert forall|d: nat| products(v).contains(d) <==> #[trigger] divides(
            d,
            full_product(v),
        ) by {
            if divides(d, 1) {
                lemma_divides_quotient(d, 1);
                assert(products(v)[0] == 1);
            }
            if products(v).contains(d) {
                assert(d == 1);
            }
        }
    } else {
        let front = v.drop_last();
        let p = v.last() as nat;
        assert(is_prime(v[v.len() - 1] as nat));
        assert forall|i: int| 0 <= i < front.len() implies is_prime(#[trigger] front[i] as nat) by {
            assert(front[i] == v[i]);
        }
        lemma_products_are_divisors(front);
        assert forall|i: int| 0 <= i < front.len() implies #[trigger] front[i] >= 1 by {
            assert(is_prime(front[i] as nat));
        }
        lemma_products(front);
        let rest = products(front);
        let all = full_product(front);
        let whole = full_product(v);
        assert(whole == all * p);
        assert forall|d: nat| products(v).contains(d) <==> #[trigger] divides(d, whole) by {
            if products(v).contains(d) {
                let i = choose|i: int| 0 <= i < products(v).len() && products(v)[i] == d;
                if i < rest.len() {
                    let e = rest[i];
                    assert(rest.contains(e));
                    assert(divides(e, all));
                    lemma_divides_quotient(e, all);
                    let k = all / e;
                    assert(whole == (e * p) * k) by (nonlinear_arith)
                        requires
                            whole == all * p,
                            all == e * k,
                    ;
                    assert(e * p >= 1) by (nonlinear_arith)
                        requires
                            e >= 1,
                            p >= 2,
                    ;
                    lemma_divides_multiple(e * p, k);
                } else {
                    let e = rest[i - rest.len()];
                    assert(products(v)[i] == e);
                    assert(rest.contains(e));
                    lemma_divides_multiple(all, p);
                    lemma_divides_through(e, all, whole);
                }
            }
            if divides(d, whole) {
                lemma_divides_quotient(d, whole);
                let k = whole / d;
                if divides(p, k) {
                    lemma_divides_quotient(p, k);
                    let j = k / p;
                    assert(all == d * j) by (nonlinear_arith)
                        requires
                            whole == all * p,
                            whole == d * k,
                            k == p * j,
                            p >= 2,
                    ;
                    lemma_divides_multiple(d, j);
                    assert(rest.contains(d));
                    let i = choose|i: int| 0 <= i < rest.len() && rest[i] == d;
                    assert(products(v)[rest.len() + i] == d);
                } else {
                    assert(whole == p * all) by (nonlinear_arith)
                        requires
                            whole == all * p,
                    ;
                    lemma_divides_multiple(p, all);
                    lemma_prime_divides_product(p, d, k);
                    lemma_divides_quotient(p, d);
                    let e = d / p;
                    assert(all == e * k) by (nonlinear_arith)
                        requires
                            whole == all * p,
                            whole == d * k,
                            d == p * e,
                            p >= 2,
                    ;
                    assert(e >= 1) by (nonlinear_arith)
                        requires
                            all == e * k,
                            all >= 1,
                            e >= 0,
                    ;
                    lemma_divides_multiple(e, k);
                    assert(rest.contains(e));
                    let i = choose|i: int| 0 <= i < rest.len() && rest[i] == e;
                    assert(products(v)[i] == e * p);
                    assert(e * p == d) by (nonlinear_arith)
                        requires
                            d == p * e,
                    ;
                }
            }
        }
    }
}

/// The listed divisors of a number are its divisors, all of them.
pub proof fn lemma_divisors_of(n: nat)
    requires
        is_factorisation(factors_of(n), n),
    ensures
        forall|d: nat| divisors_of(n).contains(d) <==> #[trigger] divides(d, n),
{
    let f = factors_of(n);
    lemma_expanded(f);
    lemma_expanded_primes(f);
    lemma_products_are_divisors(expanded(f));
}

/// The products of the members of the vector, which is used up.
pub fn divisors_recursive(v: &mut Vec<usize>) -> (ds: Vec<usize>)
    requires
        forall|i: int| 0 <= i < old(v).len() ==> #[trigger] old(v)[i] >= 1,
        full_product(old(v)@) <= usize::MAX,
    ensures
        final(v).len() == 0,
        ds.len() == products(old(v)@).len(),
        forall|i: int| 0 <= i < ds.len() ==> #[trigger] ds[i] == products(old(v)@)[i],
    decreases old(v).len(),
{
    if v.len() == 0 {
        let mut empty: Vec<usize> = Vec::new();
        empty.push(1);
        return empty;
    }
    let ghost whole = v@;
    let head = v.pop().unwrap();
    proof {
        assert(v@ =~= whole.drop_last());
        assert(head == whole.last());
        lemma_products(whole);
        lemma_products(whole.drop_last());
        let all = full_product(whole.drop_last());
        assert(whole[whole.len() - 1] >= 1);
        assert(all <= all * head) by (nonlinear_arith)
            requires
                all >= 0,
                head >= 1,
        ;
    }
    let ps = divisors_recursive(v);
    let ghost rest = products(whole.drop_last());
    let mut ps2: Vec<usize> = Vec::new();
    let mut i: usize = 0;
    while i < ps.len()
        invariant
            i <= ps.len(),
            ps.len() == rest.len(),
            rest == products(whole.drop_last()),
            head == whole.last(),
            whole.len() > 0,
            forall|k: int| 0 <= k < ps.len() ==> #[trigger] ps[k] == rest[k],
            forall|k: int|
                0 <= k < products(whole).len() ==> 1 <= #[trigger] products(whole)[k]
                    <= full_product(whole),
            full_product(whole) <= usize::MAX,
            ps2.len() == i,
            forall|k: int| 0 <= k < i ==> #[trigger] ps2[k] == rest[k] * head,
        decreases ps.len() - i,
    {
        proof {
            assert(products(whole)[i as int] == rest[i as int] * head);
        }
        ps2.push(ps[i] * head);
        i += 1;
    }
    let mut j: usize = 0;
    while j < ps.len()
        invariant
            j <= ps.len(),
            ps.len() == rest.len(),
            forall|k: int| 0 <= k < ps.len() ==> #[trigger] ps[k] == rest[k],
            ps2.len() == ps.len() + j,
            forall|k: int| 0 <= k < ps.len() ==> #[trigger] ps2[k] == rest[k] * head,
            forall|k: int| 0 <= k < j ==> #[trigger] ps2[ps.len() + k] == rest[k],
        decreases ps.len() - j,
    {
        ps2.push(ps[j]);
        j += 1;
    }
    proof {
        assert forall|k: int| 0 <= k < ps2.len() implies #[trigger] ps2[k] == products(
            whole,
        )[k] by {
            if k >= ps.len() {
                assert(ps2[ps.len() + (k - ps.len())] == rest[k - ps.len()]);
            }
        }
    }
    ps2
}

/// Writes the prime factors out: every prime as often as its exponent says.
pub fn expand(factors: &Vec<(usize, usize)>) -> (all: Vec<usize>)
    ensures
        all@ == expanded(factors@),
{
    let mut all: Vec<usize> = Vec::new();
    let mut k: usize = 0;
    proof {
        assert(factors@.take(0) =~= Seq::<(usize, usize)>::empty());
    }
    while k < factors.len()
        invariant
            k <= factors.len(),
            all@ == expanded(factors@.take(k as int)),
        decreases factors.len() - k,
    {
        let (p, c) = factors[k];
        let ghost before = all@;
        let mut j: usize = 0;
        proof {
            assert(before =~= before + repeated(p, 0));
        }
        while j < c
            invariant
                j <= c,
                all@ == before + repeated(p, j as nat),
            decreases c - j,
        {
            all.push(p);
            proof {
                assert(all@ =~= before + repeated(p, (j + 1) as nat));
            }
            j += 1;
        }
        proof {
            assert(factors@.take(k + 1).drop_last() =~= factors@.take(k as int));
            assert(factors@.take(k + 1).last() == (p, c));
        }
        k += 1;
    }
    proof {
        assert(factors@.take(factors.len() as int) =~= factors@);
    }
    all
}

/// The divisors of `n`, listed from the prime factors that the sieve
/// finds; a divisor is listed once for every way of multiplying it from
/// the factors.
pub fn divisors(n: usize, sieve: &primal::Sieve) -> (ds: Vec<usize>)
    requires
        1 <= n <= sieve_bound(*sieve) * sieve_bound(*sieve),
    ensures
        ds.len() == divisors_of(n as nat).len(),
        forall|i: int| 0 <= i < ds.len() ==> #[trigger] ds[i] == divisors_of(n as nat)[i],
        forall|d: nat| divisors_of(n as nat).contains(d) <==> #[trigger] divides(d, n as nat),
{
    match sieve_factor(sieve, n) {
        Ok(factors) => {
            let mut all_factors = expand(&factors);
            proof {
                lemma_factors_of(factors@, n as nat);
                lemma_expanded(factors@);
                lemma_expanded_positive(factors@);
                lemma_divisors_of(n as nat);
            }
            divisors_recursive(&mut all_factors)
        },
        Err(_) => Vec::new(),
    }
}

/// Written out, prime factors are numbers from two on.
pub proof fn lemma_expanded_positive(factors: Seq<(usize, usize)>)
    requires
        forall|i: int| 0 <= i < factors.len() ==> is_prime((#[trigger] factors[i]).0 as nat),
    ensures
        forall|i: int| 0 <= i < expanded(factors).len() ==> #[trigger] expanded(factors)[i] >= 2,
    decreases factors.len(),
{
    if factors.len() > 0 {
        let front = factors.drop_last();
        assert forall|i: int| 0 <= i < front.len() implies is_prime(
            (#[trigger] front[i]).0 as nat,
        ) by {
            assert(front[i] == factors[i]);
        }
        lemma_expanded_positive(front);
        assert(is_prime(factors[factors.len() - 1].0 as nat));
        let head = expanded(front);
        assert forall|i: int| 0 <= i < expanded(factors).len() implies #[trigger] expanded(
            factors,
        )[i] >= 2 by {
            if i < head.len() {
                assert(expanded(factors)[i] == head[i]);
            } else {
                assert(expanded(factors)[i] == factors.last().0);
            }
        }
    }
}

/// The divisors among the listed ones that are not above `root_n`.
pub open spec fn small_ones(ds: Seq<nat>, root_n: nat, upto: int) -> Seq<usize>
    decreases upto,
{
    if upto <= 0 {
        Seq::empty()
    } else if ds[upto - 1] <= root_n {
        small_ones(ds, root_n, upto - 1).push(ds[upto - 1] as usize)
    } else {
        small_ones(ds, root_n, upto - 1)
    }
}

/// The divisors of `n` that are not above `root_n`, as they are listed.
pub fn divisors_min(n: usize, root_n: usize, sieve: &primal::Sieve) -> (small: Vec<usize>)
    requires
        1 <= n <= sieve_bound(*sieve) * sieve_bound(*sieve),
    ensures
        small@ == small_ones(divisors_of(n as nat), root_n as nat, divisors_of(n as nat).len() as int),
{
    let d = divisors(n, sieve);
    let mut small: Vec<usize> = Vec::new();
    let mut k: usize = 0;
    while k < d.len()
        invariant
            k <= d.len(),
            d.len() == divisors_of(n as nat).len(),
            forall|i: int| 0 <= i < d.len() ==> #[trigger] d[i] == divisors_of(n as nat)[i],
            small@ == small_ones(divisors_of(n as nat), root_n as nat, k as int),
        decreases d.len() - k,
    {
        if d[k] <= root_n {
            small.push(d[k]);
        }
        k += 1;
    }
    small
}

/// The divisors of `n` as a set.
pub fn unique_divisors(n: usize, sieve: &primal::Sieve) -> (set: HashSet<usize>)
    requires
        1 <= n <= sieve_bound(*sieve) * sieve_bound(*sieve),
    ensures
        forall|x: usize| set@.contains(x) <==> divisors_of(n as nat).contains(x as nat),
        forall|x: usize| set@.contains(x) <==> #[trigger] divides(x as nat, n as nat),
{
    match sieve_factor(sieve, n) {
        Ok(factors) => {
            let mut all_factors = expand(&factors);
            proof {
                lemma_factors_of(factors@, n as nat);
                lemma_expanded(factors@);
                lemma_expanded_positive(factors@);
                lemma_divisors_of(n as nat);
            }
            unique_divisors_recursive(&mut all_factors)
        },
        Err(_) => HashSet::new(),
    }
}

/// The products of the members of the vector, which is used up, as a set.
pub fn unique_divisors_recursive(v: &mut Vec<usize>) -> (set: HashSet<usize>)
    requires
        forall|i: int| 0 <= i < old(v).len() ==> #[trigger] old(v)[i] >= 1,
        full_product(old(v)@) <= usize::MAX,
    ensures
        final(v).len() == 0,
        forall|x: usize| set@.contains(x) <==> products(old(v)@).contains(x as nat),
{
    let ghost whole = v@;
    let list = divisors_recursive(v);
    let mut set: HashSet<usize> = HashSet::new();
    let mut k: usize = 0;
    while k < list.len()
        invariant
            k <= list.len(),
            list.len() == products(whole).len(),
            forall|i: int| 0 <= i < list.len() ==> #[trigger] list[i] == products(whole)[i],
            forall|x: usize|
                set@.contains(x) <==> exists|i: int| 0 <= i < k && #[trigger] list[i] == x,
        decreases list.len() - k,
    {
        set.insert(list[k]);
        k += 1;
    }
    proof {
        assert forall|x: usize| set@.contains(x) <==> products(whole).contains(x as nat) by {
            if set@.contains(x) {
                let i = choose|i: int| 0 <= i < list.len() && #[trigger] list[i] == x;
                assert(products(whole)[i] == x);
            }
            if products(whole).contains(x as nat) {
                let i = choose|i: int| 0 <= i < products(whole).len() && products(whole)[i] == x;
                assert(list[i] == x);
            }
        }
    }
    set
}

/// For every listed divisor d of `n` above one and not above the root,
/// d + n/d is prime.
pub open spec fn passes_divisors(n: nat, root_n: nat, ds: Seq<nat>, upto: int) -> bool {
    forall|k: int|
        0 <= k < upto && 1 < #[trigger] ds[k] <= root_n ==> is_prime(ds[k] + n / ds[k])
}

/// `n` is counted: every divisor d of it from two to its root has d + n/d
/// prime.
pub open spec fn is_generating(n: nat) -> bool {
    forall|d: nat| 1 < d <= isqrt_of(n) && #[trigger] divides(d, n) ==> is_prime(d + n / d)
}

/// For every divisor d of `n` the number d + n/d is prime.
pub open spec fn all_sums_prime(n: nat) -> bool {
    forall|d: nat| #[trigger] divides(d, n) ==> is_prime(d + n / d)
}

/// A number is counted and is one less than a prime just when d + n/d is
/// prime for every divisor d of it: the divisor one gives `n` + 1, and a
/// divisor above the root gives the same sum as its partner below.
pub proof fn lemma_generating_meaning(n: nat)
    requires
        n >= 1,
    ensures
        is_prime(n + 1) && is_generating(n) <==> all_sums_prime(n),
{
    lemma_root_exists(n);
    let root = isqrt_of(n);
    if all_sums_prime(n) {
        assert(divides(1, n));
        assert(n / 1 == n);
    }
    if is_prime(n + 1) && is_generating(n) {
        assert forall|d: nat| #[trigger] divides(d, n) implies is_prime(d + n / d) by {
            lemma_divides_quotient(d, n);
            let e = n / d;
            if d == 1 {
            } else if d <= root {
            } else {
                assert(n == e * d) by (nonlinear_arith)
                    requires
                        n == d * e,
                ;
                lemma_divides_multiple(e, d);
                assert(e <= root) by (nonlinear_arith)
                    requires
                        n == d * e,
                        d >= root + 1,
                        n < (root + 1) * (root + 1),
                        e >= 0,
                ;
                if e == 1 {
                    assert(d == n) by (nonlinear_arith)
                        requires
                            n == d * e,
                            e == 1,
                    ;
                }
            }
        }
    }
}

/// Where the square of `i` divides `n`, `i` is a divisor d of `n` with
/// d + n/d a multiple of d, so not prime.
pub proof fn lemma_square_fails(n: nat, i: nat)
    requires
        n >= 1,
        i >= 2,
        n % (i * i) == 0,
    ensures
        divides(i, n),
        !is_prime(i + n / i),
{
    let square = i * i;
    assert(square >= 4) by (nonlinear_arith)
        requires
            square == i * i,
            i >= 2,
    ;
    lemma_divides_quotient(square, n);
    let q = n / square;
    assert(n == i * (i * q)) by (nonlinear_arith)
        requires
            n == square * q,
            square == i * i,
    ;
    lemma_divides_multiple(i, i * q);
    let sum = i + n / i;
    assert(sum == i * (1 + q)) by (nonlinear_arith)
        requires
            sum == i + i * q,
    ;
    lemma_divides_multiple(i, 1 + q);
    assert(i < sum) by (nonlinear_arith)
        requires
            sum == i + i * q,
            i >= 2,
            q >= 1,
    ;
    assert(sum % i == 0);
}

/// Whether every divisor d of `n` from two to its root has d + n/d prime,
/// after a look for small squares that divide `n`.
pub fn divisors_are_prime(n: usize, sieve: &primal::Sieve) -> (all: bool)
    requires
        1 <= n < sieve_bound(*sieve),
    ensures
        all == is_generating(n as nat),
{
    let root_n = isqrt(n);
    let mut i: usize = 2;
    while i < root_n
        invariant
            2 <= i,
            root_n * root_n <= n,
            root_n == isqrt_of(n as nat),
            1 <= n,
        decreases root_n - i,
    {
        assert(i * i <= root_n * root_n) by (nonlinear_arith)
            requires
                0 <= i <= root_n,
        ;
        assert(i * i >= 4) by (nonlinear_arith)
            requires
                i >= 2,
        ;
        let square = i * i;
        if square > root_n {
            break ;
        }
        if n % square == 0 {
            proof {
                lemma_square_fails(n as nat, i as nat);
            }
            return false;
        }
        i += 1;
    }
    proof {
        assert(n <= sieve_bound(*sieve) * sieve_bound(*sieve)) by (nonlinear_arith)
            requires
                1 <= n < sieve_bound(*sieve),
        ;
    }
    let ds = divisors(n, sieve);
    let mut k: usize = 0;
    while k < ds.len()
        invariant
            k <= ds.len(),
            1 <= n < sieve_bound(*sieve),
            root_n * root_n <= n,
            root_n == isqrt_of(n as nat),
            ds.len() == divisors_of(n as nat).len(),
            forall|j: int| 0 <= j < ds.len() ==> #[trigger] ds[j] == divisors_of(n as nat)[j],
            forall|d: nat| divisors_of(n as nat).contains(d) <==> #[trigger] divides(d, n as nat),
            passes_divisors(n as nat, root_n as nat, divisors_of(n as nat), k as int),
        decreases ds.len() - k,
    {
        let d = ds[k];
        if d > 1 && d <= root_n {
            proof {
                assert(d <= n) by (nonlinear_arith)
                    requires
                        d <= root_n,
                        root_n * root_n <= n,
                        d >= 0,
                ;
                assert(d * d <= n) by (nonlinear_arith)
                    requires
                        0 <= d <= root_n,
                        root_n * root_n <= n,
                ;
                lemma_half_sum(n as nat, d as nat);
            }
            if !sieve_is_prime(sieve, d + n / d) {
                proof {
                    let all = divisors_of(n as nat);
                    assert(all.contains(all[k as int]));
                    assert(divides(d as nat, n as nat));
                }
                return false;
            }
        }
        k += 1;
    }
    proof {
        let all = divisors_of(n as nat);
        assert forall|d: nat| 1 < d <= root_n && #[trigger] divides(d, n as nat) implies is_prime(
            d + n as nat / d,
        ) by {
            assert(all.contains(d));
            let j = choose|j: int| 0 <= j < all.len() && all[j] == d;
            assert(1 < all[j] <= root_n);
        }
    }
    true
}

/// A number from two up to the root of `n` and the quotient of `n` by it
/// together are not above `n`.
pub proof fn lemma_half_sum(n: nat, d: nat)
    requires
        2 <= d,
        d * d <= n,
    ensures
        d + n / d <= n,
{
    vstd::arithmetic::div_mod::lemma_fundamental_div_mod(n as int, d as int);
    let q = n / d;
    assert(q >= d) by (nonlinear_arith)
        requires
            n == d * q + n % d,
            0 <= n % d < d,
            d * d <= n,
            d >= 2,
            q >= 0,
    ;
    assert(d + q <= d * q) by (nonlinear_arith)
        requires
            q >= d,
            d >= 2,
    ;
}

/// The sum of the numbers p − 1 that are counted, over the first `upto`
/// members p of `primes` up to the first with p − 1 above `n`.
pub open spec fn generating_sum(primes: Seq<usize>, n: nat, upto: int) -> nat
    decreases upto,
{
    if upto <= 0 {
        0
    } else {
        generating_sum(primes, n, upto - 1) + if primes[upto - 1] - 1 <= n && is_generating(
            (primes[upto - 1] - 1) as nat,
        ) {
            (primes[upto - 1] - 1) as nat
        } else {
            0
        }
    }
}

/// Every member of an ascending list is at least its place above the
/// first.
pub proof fn lemma_ascending(list: Seq<usize>, k: int)
    requires
        forall|i: int, j: int| 0 <= i < j < list.len() ==> list[i] < list[j],
        0 <= k < list.len(),
    ensures
        list[k] >= list[0] + k,
    decreases k,
{
    if k > 0 {
        lemma_ascending(list, k - 1);
    }
}

/// The sum grows by at most `n` with every member.
pub proof fn lemma_generating_sum(primes: Seq<usize>, n: nat, upto: int)
    requires
        0 <= upto <= primes.len(),
        forall|i: int| 0 <= i < primes.len() ==> #[trigger] primes[i] >= 2,
    ensures
        generating_sum(primes, n, upto) <= upto * n,
    decreases upto,
{
    if upto > 0 {
        lemma_generating_sum(primes, n, upto - 1);
        assert((upto - 1) * n + n == upto * n) by (nonlinear_arith);
        assert(generating_sum(primes, n, upto) <= generating_sum(primes, n, upto - 1) + n);
    } else {
        assert(upto * n == 0) by (nonlinear_arith)
            requires
                upto == 0,
        ;
    }
}

/// The sum of the counted numbers among those that are one less than a
/// member of `primes`, a list of primes in ascending order that begins
/// with 2, and not above `n`.
pub fn sum_over_primes(primes: &Vec<usize>, n: usize, sieve: &primal::Sieve) -> (sum: u128)
    requires
        n < sieve_bound(*sieve),
        forall|i: int| 0 <= i < primes.len() ==> #[trigger] primes[i] >= 2,
        forall|i: int, j: int| 0 <= i < j < primes.len() ==> primes[i] < primes[j],
    ensures
        sum == generating_sum(primes@, n as nat, primes.len() as int),
{
    let mut sum: u128 = 0;
    let mut k: usize = 0;
    while k < primes.len()
        invariant
            k <= primes.len(),
            n < sieve_bound(*sieve),
            forall|i: int| 0 <= i < primes.len() ==> #[trigger] primes[i] >= 2,
            forall|i: int, j: int| 0 <= i < j < primes.len() ==> primes[i] < primes[j],
            sum == generating_sum(primes@, n as nat, k as int),
        ensures
            sum == generating_sum(primes@, n as nat, primes.len() as int),
        decreases primes.len() - k,
    {
        let x = primes[k] - 1;
        if x > n {
            proof {
                lemma_rest_adds_nothing(primes@, n as nat, k as int, primes.len() as int);
            }
            break ;
        }
        proof {
            lemma_ascending(primes@, k as int);
            lemma_generating_sum(primes@, n as nat, k + 1);
            lemma_generating_sum(primes@, n as nat, k as int);
            assert((k + 1) * n <= 0x1_0000_0000_0000_0000 * 0xFFFF_FFFF_FFFF_FFFF)
                by (nonlinear_arith)
                requires
                    0 <= k + 1 <= 0x1_0000_0000_0000_0000,
                    0 <= n <= 0xFFFF_FFFF_FFFF_FFFF,
            ;
        }
        if divisors_are_prime(x, sieve) {
            sum += x as u128;
        }
        k += 1;
    }
    sum
}

/// Once a member less one is above `n`, so are all later ones: they add
/// nothing.
pub proof fn lemma_rest_adds_nothing(primes: Seq<usize>, n: nat, k: int, upto: int)
    requires
        forall|i: int, j: int| 0 <= i < j < primes.len() ==> primes[i] < primes[j],
        0 <= k <= upto <= primes.len(),
        k < primes.len(),
        primes[k] - 1 > n,
    ensures
        generating_sum(primes, n, upto) == generating_sum(primes, n, k),
    decreases upto,
{
    if upto > k {
        lemma_rest_adds_nothing(primes, n, k, upto - 1);
    }
}

/// The sum of all positive integers x not above `n` such that x + 1 is
/// prime and x is counted.
pub open spec fn generating_total(n: nat) -> nat
    decreases n,
{
    if n == 0 {
        0
    } else {
        generating_total((n - 1) as nat) + if is_prime(n + 1) && is_generating(n) {
            n
        } else {
            0
        }
    }
}

/// `p` is among the first `upto` members of `primes`.
pub open spec fn is_listed(primes: Seq<usize>, p: nat, upto: int) -> bool {
    exists|j: int| 0 <= j < upto && #[trigger] primes[j] == p
}

/// Over an ascending list, to count up to `n` is to count up to `n` − 1 and
/// then to look at `n` itself, which counts if `n` + 1 is listed.
pub proof fn lemma_one_further(primes: Seq<usize>, n: nat, upto: int)
    requires
        n >= 1,
        0 <= upto <= primes.len(),
        forall|i: int| 0 <= i < primes.len() ==> #[trigger] primes[i] >= 2,
        forall|i: int, j: int| 0 <= i < j < primes.len() ==> primes[i] < primes[j],
    ensures
        generating_sum(primes, n, upto) == generating_sum(primes, (n - 1) as nat, upto) + if is_listed(
            primes,
            n + 1,
            upto,
        ) && is_generating(n) {
            n
        } else {
            0
        },
    decreases upto,
{
    if upto > 0 {
        lemma_one_further(primes, n, upto - 1);
        let last = primes[upto - 1];
        assert(last >= 2);
        if last == n + 1 {
            assert(is_listed(primes, n + 1, upto));
            if is_listed(primes, n + 1, upto - 1) {
                let j = choose|j: int| 0 <= j < upto - 1 && #[trigger] primes[j] == n + 1;
                assert(primes[j] < primes[upto - 1]);
            }
        } else {
            if is_listed(primes, n + 1, upto) {
                let j = choose|j: int| 0 <= j < upto && #[trigger] primes[j] == n + 1;
                assert(j < upto - 1);
                assert(is_listed(primes, n + 1, upto - 1));
            }
            if is_listed(primes, n + 1, upto - 1) {
                let j = choose|j: int| 0 <= j < upto - 1 && #[trigger] primes[j] == n + 1;
                assert(is_listed(primes, n + 1, upto));
            }
        }
    }
}

/// Over the primes from 2 to a number above `n`, the sum along the list is
/// the sum over all numbers up to `n`.
pub proof fn lemma_sum_is_total(primes: Seq<usize>, n: nat, to: nat)
    requires
        is_prime_list(primes, 2, to),
        n < to <= usize::MAX,
    ensures
        generating_sum(primes, n, primes.len() as int) == generating_total(n),
    decreases n,
{
    let len = primes.len() as int;
    if n == 0 {
        lemma_generating_sum(primes, 0, len);
        assert(len * 0 == 0) by (nonlinear_arith);
    } else {
        lemma_sum_is_total(primes, (n - 1) as nat, to);
        lemma_one_further(primes, n, len);
        if is_prime(n + 1) {
            assert(primes.contains((n + 1) as usize));
            let j = choose|j: int| 0 <= j < primes.len() && primes[j] == (n + 1) as usize;
            assert(is_listed(primes, n + 1, len));
        }
        if is_listed(primes, n + 1, len) {
            let j = choose|j: int| 0 <= j < len && #[trigger] primes[j] == n + 1;
            assert(is_prime(primes[j] as nat));
        }
    }
}

/// The sum stays below the square of `n` + 1.
pub proof fn lemma_total_within(n: nat)
    ensures
        generating_total(n) <= (n + 1) * (n + 1),
    decreases n,
{
    if n > 0 {
        lemma_total_within((n - 1) as nat);
        assert(n * n + n <= (n + 1) * (n + 1)) by (nonlinear_arith);
    } else {
        assert((n + 1) * (n + 1) >= 0) by (nonlinear_arith);
    }
}

/// The sum of all positive integers x not above `n` such that x + 1 is
/// prime and x is counted.
pub fn sum_divisors_to(n: usize) -> (sum: u128)
    requires
        n < usize::MAX,
    ensures
        sum == generating_total(n as nat),
{
    let sieve = new_sieve(n + 1);
    let bound = crate::primes::upper_bound(&sieve);
    if bound < 2 {
        let none: Vec<usize> = Vec::new();
        return sum_over_primes(&none, n, &sieve);
    }
    let primes = sieve_primes(&sieve);
    proof {
        lemma_sum_is_total(primes@, n as nat, bound as nat);
    }
    sum_over_primes(&primes, n, &sieve)
}

/// The sum of all positive integers n not exceeding 100 000 000 such that
/// n + 1 is prime and n is counted.
pub fn answer() -> (sum: u64)
    ensures
        sum == generating_total(100_000_000),
{
    let sum = sum_divisors_to(100_000_000);
    proof {
        lemma_total_within(100_000_000);
        assert((100_000_000 + 1) * (100_000_000 + 1) <= u64::MAX) by (nonlinear_arith);
    }
    sum as u64
}

} // verus!
