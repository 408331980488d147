//! Counting divisors: with n = p₁^c₁ · … · pₖ^cₖ the number of divisors of
//! n is (c₁ + 1) · … · (cₖ + 1).

use vstd::prelude::*;
use vstd::relations::injective_on;
use vstd::set_lib::{lemma_map_size, lemma_set_disjoint_lens};
use crate::factors::{
    divides, lemma_divides_multiple, lemma_divides_quotient, lemma_divides_through,
    lemma_prime_divides_prime, lemma_prime_divides_product,
};
use crate::math::{lemma_power_grows, power};
use crate::primes::{is_factorisation, is_prime, product_of};

verus! {

/// How many of the numbers from 1 to `upto` divide `m`.
pub open spec fn divisors_upto(m: nat, upto: nat) -> nat
    decreases upto,
{
    if upto == 0 {
        0
    } else {
        divisors_upto(m, (upto - 1) as nat) + if m % upto == 0 {
            1nat
        } else {
            0nat
        }
    }
}

/// The number of divisors of `n`.
pub open spec fn divisor_count_of(n: nat) -> nat {
    divisors_upto(n, n)
}

/// The divisors of `m` up to `upto`.
pub open spec fn divisors_below(m: nat, upto: nat) -> Set<nat> {
    Set::new(|d: nat| 1 <= d <= upto && m % d == 0)
}

/// The divisors of `n`.
pub open spec fn divisor_set(n: nat) -> Set<nat> {
    divisors_below(n, n)
}

/// The product of the exponents, each raised by one.
pub open spec fn exponent_product(factors: Seq<(usize, usize)>) -> nat
    decreases factors.len(),
{
    if factors.len() == 0 {
        1
    } else {
        exponent_product(factors.drop_last()) * (factors.last().1 + 1) as nat
    }
}

/// The divisors up to a bound are finitely many, and as many as are
/// counted.
pub proof fn lemma_divisors_below(m: nat, upto: nat)
    ensures
        divisors_below(m, upto).finite(),
        divisors_below(m, upto).len() == divisors_upto(m, upto),
    decreases upto,
{
    if upto == 0 {
        assert(divisors_below(m, upto) =~= Set::<nat>::empty());
    } else {
        lemma_divisors_below(m, (upto - 1) as nat);
        let before = divisors_below(m, (upto - 1) as nat);
        if m % upto == 0 {
            assert(divisors_below(m, upto) =~= before.insert(upto));
        } else {
            assert(divisors_below(m, upto) =~= before);
        }
    }
}

/// A member of the set of divisors divides, and what divides a number from
/// one on is a member.
pub proof fn lemma_divisor_set(n: nat, d: nat)
    requires
        n >= 1,
    ensures
        divisor_set(n).contains(d) <==> divides(d, n),
{
    if divides(d, n) {
        lemma_divides_quotient(d, n);
    }
}

/// A prime that divides a power of a prime is that prime.
pub proof fn lemma_prime_divides_power(q: nat, p: nat, c: nat)
    requires
        is_prime(q),
        is_prime(p),
        divides(q, power(p, c)),
    ensures
        q == p,
    decreases c,
{
    if c == 0 {
        lemma_divides_quotient(q, 1);
    } else {
        lemma_prime_divides_product(q, power(p, (c - 1) as nat), p);
        if divides(q, p) {
            lemma_prime_divides_prime(q, p);
        } else {
            lemma_prime_divides_power(q, p, (c - 1) as nat);
        }
    }
}

/// A power of a prime that divides a product with a number which the prime
/// does not divide, divides the other factor.
pub proof fn lemma_power_divides_product(p: nat, c: nat, d: nat, k: nat)
    requires
        is_prime(p),
        k >= 1,
        !divides(p, k),
        divides(power(p, c), d * k),
    ensures
        divides(power(p, c), d),
    decreases c,
{
    lemma_power_grows(p, 0, c);
    if c == 0 {
        assert(d % 1 == 0);
    } else {
        let low = power(p, (c - 1) as nat);
        let high = power(p, c);
        lemma_power_grows(p, 0, (c - 1) as nat);
        assert(high == low * p);
        lemma_divides_multiple(p, low);
        assert(high == p * low) by (nonlinear_arith)
            requires
                high == low * p,
        ;
        assert(divides(p, high));
        lemma_divides_through(p, high, d * k);
        lemma_prime_divides_product(p, d, k);
        assert(divides(p, d));
        lemma_divides_quotient(p, d);
        let rest = d / p;
        lemma_divides_quotient(high, d * k);
        let j = (d * k) / high;
        assert(rest * k == low * j) by (nonlinear_arith)
            requires
                d == p * rest,
                d * k == high * j,
                high == low * p,
                p >= 2,
        ;
        lemma_divides_multiple(low, j);
        lemma_power_divides_product(p, (c - 1) as nat, rest, k);
        lemma_divides_quotient(low, rest);
        let e = rest / low;
        assert(d == high * e) by (nonlinear_arith)
            requires
                d == p * rest,
                rest == low * e,
                high == low * p,
        ;
        lemma_divides_multiple(high, e);
    }
}

/// A number times one more power of a prime that does not divide it has
/// the divisors of the number times one power less, and as many again as
/// the number itself has.
pub proof fn lemma_one_more_power(m: nat, p: nat, c: nat)
    requires
        is_prime(p),
        m >= 1,
        !divides(p, m),
        c >= 1,
    ensures
        divisor_set(m * power(p, c)).len() == divisor_set(m * power(p, (c - 1) as nat)).len()
            + divisor_set(m).len(),
        m * power(p, c) >= 1,
{
    let low = power(p, (c - 1) as nat);
    let high = power(p, c);
    lemma_power_grows(p, 0, c);
    lemma_power_grows(p, 0, (c - 1) as nat);
    assert(high == low * p);
    let small = m * low;
    let big = m * high;
    assert(big == small * p) by (nonlinear_arith)
        requires
            big == m * high,
            small == m * low,
            high == low * p,
    ;
    assert(small >= 1 && big >= 1) by (nonlinear_arith)
        requires
            small == m * low,
            big == small * p,
            m >= 1,
            low >= 1,
            p >= 2,
    ;
    lemma_divisors_below(big, big);
    lemma_divisors_below(small, small);
    lemma_divisors_below(m, m);
    let old = divisor_set(small);
    let base = divisor_set(m);
    let scale = |e: nat| high * e;
    let new = base.map(scale);
    assert(injective_on(scale, base)) by {
        assert forall|x1: nat, x2: nat|
            base.contains(x1) && base.contains(x2) && #[trigger] scale(x1) == #[trigger] scale(
                x2,
            ) implies x1 == x2 by {
            assert(x1 == x2) by (nonlinear_arith)
                requires
                    high * x1 == high * x2,
                    high >= 1,
            ;
        }
    }
    lemma_map_size(base, new, scale);
    // the new divisors are divisors, and none of the old ones
    assert forall|d: nat| new.contains(d) implies divisor_set(big).contains(d) && !old.contains(
        d,
    ) by {
        let e = choose|e: nat| base.contains(e) && d == scale(e);
        lemma_divisor_set(m, e);
        lemma_divides_quotient(e, m);
        let k = m / e;
        assert(big == d * k) by (nonlinear_arith)
            requires
                big == m * high,
                m == e * k,
                d == high * e,
        ;
        assert(d >= 1) by (nonlinear_arith)
            requires
                d == high * e,
                high >= 1,
                e >= 1,
        ;
        lemma_divides_multiple(d, k);
        lemma_divisor_set(big, d);
        if old.contains(d) {
            lemma_divisor_set(small, d);
            lemma_divides_quotient(d, small);
            let j = small / d;
            assert(m == p * (e * j)) by (nonlinear_arith)
                requires
                    small == m * low,
                    small == d * j,
                    d == high * e,
                    high == low * p,
                    low >= 1,
            ;
            lemma_divides_multiple(p, e * j);
        }
    }
    // the old divisors are divisors
    assert forall|d: nat| old.contains(d) implies divisor_set(big).contains(d) by {
        lemma_divisor_set(small, d);
        lemma_divides_multiple(small, p);
        lemma_divides_through(d, small, big);
        lemma_divisor_set(big, d);
    }
    // every divisor is old or new
    assert forall|d: nat| divisor_set(big).contains(d) implies old.contains(d) || new.contains(
        d,
    ) by {
        lemma_divisor_set(big, d);
        lemma_divides_quotient(d, big);
        let k = big / d;
        if divides(p, k) {
            lemma_divides_quotient(p, k);
            let j = k / p;
            assert(small == d * j) by (nonlinear_arith)
                requires
                    big == small * p,
                    big == d * k,
                    k == p * j,
                    p >= 2,
            ;
            lemma_divides_multiple(d, j);
            lemma_divisor_set(small, d);
        } else {
            assert(k >= 1);
            assert(d * k == high * m) by (nonlinear_arith)
                requires
                    big == d * k,
                    big == m * high,
            ;
            lemma_divides_multiple(high, m);
            lemma_power_divides_product(p, c, d, k);
            lemma_divides_quotient(high, d);
            let e = d / high;
            assert(m == e * k) by (nonlinear_arith)
                requires
                    d * k == high * m,
                    d == high * e,
                    high >= 1,
            ;
            assert(e >= 1) by (nonlinear_arith)
                requires
                    m == e * k,
                    m >= 1,
                    e >= 0,
            ;
            lemma_divides_multiple(e, k);
            lemma_divisor_set(m, e);
            assert(base.contains(e) && d == scale(e));
        }
    }
    assert(divisor_set(big) =~= old + new);
    assert(old.disjoint(new));
    lemma_set_disjoint_lens(old, new);
}

/// A number times a power of a prime that does not divide it has as many
/// divisors as the number, times the exponent raised by one.
pub proof fn lemma_times_power(m: nat, p: nat, c: nat)
    requires
        is_prime(p),
        m >= 1,
        !divides(p, m),
    ensures
        divisor_set(m * power(p, c)).len() == divisor_set(m).len() * (c + 1),
    decreases c,
{
    if c == 0 {
        assert(m * power(p, 0) == m) by (nonlinear_arith)
            requires
                power(p, 0) == 1,
        ;
        assert(divisor_set(m).len() * 1 == divisor_set(m).len());
    } else {
        lemma_times_power(m, p, (c - 1) as nat);
        lemma_one_more_power(m, p, c);
        let t = divisor_set(m).len();
        assert(t * c + t == t * (c + 1)) by (nonlinear_arith);
    }
}

/// A prime that divides the product of prime powers is one of the primes.
pub proof fn lemma_prime_in_product(factors: Seq<(usize, usize)>, q: nat)
    requires
        forall|i: int| 0 <= i < factors.len() ==> is_prime((#[trigger] factors[i]).0 as nat),
        is_prime(q),
        divides(q, product_of(factors)),
    ensures
        exists|i: int| 0 <= i < factors.len() && (#[trigger] factors[i]).0 == q,
    decreases factors.len(),
{
    if factors.len() == 0 {
        lemma_divides_quotient(q, 1);
    } else {
        let front = factors.drop_last();
        let last = factors.last();
        assert(factors[factors.len() - 1] == last);
        lemma_prime_divides_product(q, product_of(front), power(last.0 as nat, last.1 as nat));
        if divides(q, product_of(front)) {
            assert forall|i: int| 0 <= i < front.len() implies is_prime(
                (#[trigger] front[i]).0 as nat,
            ) by {
                assert(front[i] == factors[i]);
            }
            lemma_prime_in_product(front, q);
            let i = choose|i: int| 0 <= i < front.len() && (#[trigger] front[i]).0 == q;
            assert(factors[i].0 == q);
        } else {
            lemma_prime_divides_power(q, last.0 as nat, last.1 as nat);
        }
    }
}

/// The product of prime powers is at least one.
pub proof fn lemma_product_positive(factors: Seq<(usize, usize)>)
    requires
        forall|i: int| 0 <= i < factors.len() ==> is_prime((#[trigger] factors[i]).0 as nat),
    ensures
        product_of(factors) >= 1,
    decreases factors.len(),
{
    if factors.len() > 0 {
        let front = factors.drop_last();
        assert forall|i: int| 0 <= i < front.len() implies is_prime(
            (#[trigger] front[i]).0 as nat,
        ) by {
            assert(front[i] == factors[i]);
        }
        lemma_product_positive(front);
        assert(is_prime(factors[factors.len() - 1].0 as nat));
        lemma_power_grows(factors.last().0 as nat, 0, factors.last().1 as nat);
        let a = product_of(front);
        let b = power(factors.last().0 as nat, factors.last().1 as nat);
        assert(a * b >= 1) by (nonlinear_arith)
            requires
                a >= 1,
                b >= 1,
        ;
    }
}

/// The prime factors of `n` with their exponents, in ascending order.
pub open spec fn factors_of(n: nat) -> Seq<(usize, usize)> {
    choose|f: Seq<(usize, usize)>| is_factorisation(f, n)
}

/// All but the last of the prime powers of a factorisation are the
/// factorisation of their product, which the last prime does not divide.
pub proof fn lemma_front_factorisation(f: Seq<(usize, usize)>, n: nat)
    requires
        is_factorisation(f, n),
        f.len() > 0,
    ensures
        is_factorisation(f.drop_last(), product_of(f.drop_last())),
        product_of(f.drop_last()) >= 1,
        !divides(f.last().0 as nat, product_of(f.drop_last())),
        is_prime(f.last().0 as nat),
        f.last().1 >= 1,
        n == product_of(f.drop_last()) * power(f.last().0 as nat, f.last().1 as nat),
{
    let front = f.drop_last();
    assert(f[f.len() - 1] == f.last());
    assert forall|i: int| 0 <= i < front.len() implies is_prime((#[trigger] front[i]).0 as nat)
        && front[i].1 >= 1 by {
        assert(front[i] == f[i]);
    }
    assert forall|i: int, j: int| 0 <= i < j < front.len() implies front[i].0 < front[j].0 by {
        assert(front[i] == f[i] && front[j] == f[j]);
    }
    lemma_product_positive(front);
    if divides(f.last().0 as nat, product_of(front)) {
        lemma_prime_in_product(front, f.last().0 as nat);
        let i = choose|i: int| 0 <= i < front.len() && (#[trigger] front[i]).0 == f.last().0;
        assert(f[i].0 < f[f.len() - 1].0);
    }
}

/// The greatest prime of a factorisation is not above the greatest prime
/// of another factorisation of the same number.
pub proof fn lemma_last_prime_within(f: Seq<(usize, usize)>, g: Seq<(usize, usize)>, n: nat)
    requires
        is_factorisation(f, n),
        is_factorisation(g, n),
        f.len() > 0,
    ensures
        g.len() > 0,
        f.last().0 <= g.last().0,
{
    lemma_front_factorisation(f, n);
    let p = f.last().0 as nat;
    let c = f.last().1 as nat;
    let a = product_of(f.drop_last());
    lemma_power_grows(p, 1, c);
    assert(power(p, 1) == p) by {
        reveal_with_fuel(power, 2);
    }
    let rest = power(p, (c - 1) as nat);
    assert(n == p * (a * rest)) by (nonlinear_arith)
        requires
            n == a * (rest * p),
    ;
    lemma_divides_multiple(p, a * rest);
    lemma_prime_in_product(g, p);
    let i = choose|i: int| 0 <= i < g.len() && (#[trigger] g[i]).0 == p;
    if i < g.len() - 1 {
        assert(g[i].0 < g[g.len() - 1].0);
    }
}

/// A higher power of a number from two on is greater.
pub proof fn lemma_power_rises(b: nat, i: nat, e: nat)
    requires
        b >= 2,
        i < e,
    ensures
        power(b, i) < power(b, e),
{
    lemma_power_grows(b, 0, i);
    lemma_power_grows(b, i + 1, e);
    let a = power(b, i);
    assert(a < a * b) by (nonlinear_arith)
        requires
            a >= 1,
            b >= 2,
    ;
}

/// The exponent of the last prime in one factorisation is not above its
/// exponent in another that ends with the same prime.
pub proof fn lemma_last_exponent_within(f: Seq<(usize, usize)>, g: Seq<(usize, usize)>, n: nat)
    requires
        is_factorisation(f, n),
        is_factorisation(g, n),
        f.len() > 0,
        g.len() > 0,
        f.last().0 == g.last().0,
    ensures
        f.last().1 <= g.last().1,
{
    lemma_front_factorisation(f, n);
    lemma_front_factorisation(g, n);
    let p = f.last().0 as nat;
    let c = f.last().1 as nat;
    let d = g.last().1 as nat;
    let a = product_of(f.drop_last());
    let b = product_of(g.drop_last());
    lemma_power_grows(p, 0, c);
    lemma_power_grows(p, 0, d);
    assert(n == power(p, c) * a) by (nonlinear_arith)
        requires
            n == a * power(p, c),
    ;
    lemma_divides_multiple(power(p, c), a);
    assert(n == power(p, d) * b) by (nonlinear_arith)
        requires
            n == b * power(p, d),
    ;
    lemma_power_divides_product(p, c, power(p, d), b);
    lemma_divides_quotient(power(p, c), power(p, d));
    if c > d {
        lemma_power_rises(p, d, c);
    }
}

/// A number has one factorisation into powers of ascending primes.
pub proof fn lemma_one_factorisation(f: Seq<(usize, usize)>, g: Seq<(usize, usize)>, n: nat)
    requires
        is_factorisation(f, n),
        is_factorisation(g, n),
    ensures
        f == g,
    decreases f.len(),
{
    if f.len() == 0 {
        if g.len() > 0 {
            lemma_last_prime_within(g, f, n);
        }
        assert(f =~= g);
    } else {
        lemma_last_prime_within(f, g, n);
        lemma_last_prime_within(g, f, n);
        lemma_last_exponent_within(f, g, n);
        lemma_last_exponent_within(g, f, n);
        lemma_front_factorisation(f, n);
        lemma_front_factorisation(g, n);
        let a = product_of(f.drop_last());
        let b = product_of(g.drop_last());
        let high = power(f.last().0 as nat, f.last().1 as nat);
        lemma_power_grows(f.last().0 as nat, 0, f.last().1 as nat);
        assert(a == b) by (nonlinear_arith)
            requires
                a * high == b * high,
                high >= 1,
        ;
        lemma_one_factorisation(f.drop_last(), g.drop_last(), a);
        assert(f.last() == g.last());
        assert(f =~= f.drop_last().push(f.last()));
        assert(g =~= g.drop_last().push(g.last()));
    }
}

/// Whatever lists the prime factors of `n` in ascending order with their
/// exponents lists the prime factors of `n`.
pub proof fn lemma_factors_of(f: Seq<(usize, usize)>, n: nat)
    requires
        is_factorisation(f, n),
    ensures
        factors_of(n) == f,
        is_factorisation(factors_of(n), n),
{
    lemma_one_factorisation(factors_of(n), f, n);
}

/// A number has as many divisors as the product of the exponents of its
/// prime factors, each raised by one.
pub proof fn lemma_divisor_count(factors: Seq<(usize, usize)>, n: nat)
    requires
        is_factorisation(factors, n),
    ensures
        exponent_product(factors) == divisor_count_of(n),
    decreases factors.len(),
{
    lemma_divisors_below(n, n);
    if factors.len() == 0 {
        assert(n == 1);
        assert(divisors_upto(1, 1) == 1) by {
            reveal_with_fuel(divisors_upto, 2);
        }
    } else {
        let front = factors.drop_last();
        let last = factors.last();
        assert(factors[factors.len() - 1] == last);
        let m = product_of(front);
        let p = last.0 as nat;
        let c = last.1 as nat;
        assert forall|i: int| 0 <= i < front.len() implies is_prime((#[trigger] front[i]).0 as nat)
            && front[i].1 >= 1 by {
            assert(front[i] == factors[i]);
        }
        assert forall|i: int, j: int| 0 <= i < j < front.len() implies front[i].0 < front[j].0 by {
            assert(front[i] == factors[i]);
            assert(front[j] == factors[j]);
        }
        assert(is_factorisation(front, m));
        lemma_divisor_count(front, m);
        lemma_product_positive(front);
        lemma_divisors_below(m, m);
        if divides(p, m) {
            lemma_prime_in_product(front, p);
            let i = choose|i: int| 0 <= i < front.len() && (#[trigger] front[i]).0 == p;
            assert(factors[i].0 < factors[factors.len() - 1].0);
        }
        lemma_times_power(m, p, c);
    }
}

} // verus!
