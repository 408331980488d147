//! Divisibility and prime factors: what the solutions need to know about
//! them, proved from the definitions.

use vstd::prelude::*;
use vstd::arithmetic::div_mod::{
    lemma_fundamental_div_mod, lemma_fundamental_div_mod_converse, lemma_mod_bound,
    lemma_mul_mod_noop_general, lemma_small_mod,
};
use crate::primes::is_prime;

verus! {

/// `d` divides `n`.
pub open spec fn divides(d: nat, n: nat) -> bool {
    d > 0 && n % d == 0
}

/// `p` is the largest prime factor of `n`.
pub open spec fn is_largest_prime_factor(n: nat, p: nat) -> bool {
    &&& is_prime(p)
    &&& divides(p, n)
    &&& forall|q: nat| is_prime(q) && #[trigger] divides(q, n) ==> q <= p
}

/// A multiple of `d` is divisible by `d`, and what `d` divides is a
/// multiple of it.
pub proof fn lemma_divides_multiple(d: nat, k: nat)
    requires
        d > 0,
    ensures
        divides(d, d * k),
        (d * k) / d == k,
{
    assert(d * k == k * d + 0) by (nonlinear_arith);
    lemma_fundamental_div_mod_converse((d * k) as int, d as int, k as int, 0);
}

/// What `d` divides is `d` times the quotient.
pub proof fn lemma_divides_quotient(d: nat, n: nat)
    requires
        divides(d, n),
    ensures
        n == d * (n / d),
        n > 0 ==> n / d >= 1 && d <= n,
{
    lemma_fundamental_div_mod(n as int, d as int);
    let k = n / d;
    if n > 0 {
        assert(k >= 1) by (nonlinear_arith)
            requires
                n == d * k,
                n > 0,
                d > 0,
                k >= 0,
        ;
        assert(d <= d * k) by (nonlinear_arith)
            requires
                k >= 1,
                d > 0,
        ;
    }
}

/// What divides a divisor divides the number.
pub proof fn lemma_divides_through(a: nat, b: nat, c: nat)
    requires
        divides(a, b),
        divides(b, c),
    ensures
        divides(a, c),
{
    lemma_divides_quotient(a, b);
    lemma_divides_quotient(b, c);
    let j = b / a;
    let k = c / b;
    assert(c == a * (j * k)) by (nonlinear_arith)
        requires
            b == a * j,
            c == b * k,
    ;
    lemma_divides_multiple(a, j * k);
}

/// Every number from two on has a prime factor.
pub proof fn lemma_prime_factor(n: nat)
    requires
        n >= 2,
    ensures
        exists|p: nat| is_prime(p) && #[trigger] divides(p, n),
    decreases n,
{
    if is_prime(n) {
        vstd::arithmetic::div_mod::lemma_mod_self_0(n as int);
        assert(divides(n, n));
    } else {
        let d = choose|d: nat| 1 < d < n && #[trigger] (n % d) == 0;
        lemma_prime_factor(d);
        let p = choose|p: nat| is_prime(p) && #[trigger] divides(p, d);
        assert(divides(d, n));
        lemma_divides_through(p, d, n);
        assert(divides(p, n));
    }
}

/// A prime that divides a product divides one of the factors.
pub proof fn lemma_prime_divides_product(p: nat, a: nat, b: nat)
    requires
        is_prime(p),
        divides(p, a * b),
    ensures
        divides(p, a) || divides(p, b),
    decreases a,
{
    if a % p != 0 {
        lemma_mod_bound(a as int, p as int);
        let r = a % p;
        lemma_mul_mod_noop_general(a as int, b as int, p as int);
        assert((r * b) % p == 0);
        if a >= p {
            lemma_small_mod(r, p);
            lemma_prime_divides_product(p, r, b);
        } else if a == 1 {
            assert(1 * b == b);
        } else {
            // 1 < a < p: the remainder of p by a is smaller than a and not zero
            assert(p % a != 0);
            lemma_mod_bound(p as int, a as int);
            let s = p % a;
            let q = p / a;
            lemma_fundamental_div_mod(p as int, a as int);
            assert((s * b) % p == 0) by {
                let ab = a * b;
                lemma_divides_quotient(p, ab);
                let k = ab / p;
                assert(s * b == p * b - q * ab) by (nonlinear_arith)
                    requires
                        p == a * q + s,
                        ab == a * b,
                ;
                assert(s * b == p * (b - q * k)) by (nonlinear_arith)
                    requires
                        s * b == p * b - q * ab,
                        ab == p * k,
                ;
                assert(b - q * k >= 0) by (nonlinear_arith)
                    requires
                        s * b == p * (b - q * k),
                        s >= 0,
                        b >= 0,
                        p >= 2,
                ;
                lemma_divides_multiple(p, (b - q * k) as nat);
            }
            lemma_small_mod(s, p);
            lemma_prime_divides_product(p, s, b);
        }
    }
}

/// A prime that divides a prime is that prime.
pub proof fn lemma_prime_divides_prime(p: nat, q: nat)
    requires
        is_prime(p),
        is_prime(q),
        divides(p, q),
    ensures
        p == q,
{
    lemma_divides_quotient(p, q);
    if p < q {
        assert(q % p != 0);
    }
}

} // verus!
