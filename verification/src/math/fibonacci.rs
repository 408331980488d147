//! Fibonacci numbers: 0, 1, 1, 2, 3, 5, 8, …

use vstd::prelude::*;

verus! {

/// The n-th Fibonacci number, counting from `fib_number(0)` = 0.
pub open spec fn fib_number(n: nat) -> nat
    decreases n,
{
    if n == 0 {
        0
    } else if n == 1 {
        1
    } else {
        fib_number((n - 1) as nat) + fib_number((n - 2) as nat)
    }
}

/// The Fibonacci numbers do not fall.
pub proof fn lemma_fib_increases(i: nat, j: nat)
    requires
        i <= j,
    ensures
        fib_number(i) <= fib_number(j),
    decreases j,
{
    if i < j {
        if j >= 2 {
            lemma_fib_increases(i, (j - 1) as nat);
        }
    }
}

/// The n-th Fibonacci number, by the recurrence.
pub fn fib(n: usize) -> (f: usize)
    requires
        fib_number(n as nat) <= usize::MAX,
    ensures
        f == fib_number(n as nat),
    decreases n,
{
    if n == 0 {
        return 0;
    }
    if n == 1 {
        return 1;
    }
    proof {
        lemma_fib_increases((n - 1) as nat, n as nat);
        lemma_fib_increases((n - 2) as nat, n as nat);
    }
    fib(n - 1) + fib(n - 2)
}

/// The n-th Fibonacci number, counting up from the first two.
pub fn fibonacci(n: usize) -> (f: usize)
    requires
        fib_number(n as nat) <= usize::MAX,
    ensures
        f == fib_number(n as nat),
{
    if n == 0 {
        return 0;
    }
    if n == 1 {
        return 1;
    }
    let mut x: (usize, usize) = (0, 1);
    let mut i: usize = 1;
    while i < n
        invariant
            1 <= i <= n,
            x.0 == fib_number((i - 1) as nat),
            x.1 == fib_number(i as nat),
            fib_number(n as nat) <= usize::MAX,
        decreases n - i,
    {
        proof {
            lemma_fib_increases((i + 1) as nat, n as nat);
        }
        x = (x.1, x.0 + x.1);
        i += 1;
    }
    x.1
}

/// The first `n` Fibonacci numbers.
pub fn fibonacci_first(n: usize) -> (v: Vec<usize>)
    requires
        n >= 1 ==> fib_number((n - 1) as nat) <= usize::MAX,
    ensures
        v.len() == n,
        forall|i: int| 0 <= i < n ==> v[i] == fib_number(i as nat),
{
    let mut v: Vec<usize> = Vec::new();
    let mut i: usize = 0;
    while i < n
        invariant
            i <= n,
            v.len() == i,
            n >= 1 ==> fib_number((n - 1) as nat) <= usize::MAX,
            forall|k: int| 0 <= k < i ==> v[k] == fib_number(k as nat),
        decreases n - i,
    {
        if i < 2 {
            v.push(i);
        } else {
            proof {
                lemma_fib_increases(i as nat, (n - 1) as nat);
            }
            let next = v[i - 1] + v[i - 2];
            v.push(next);
        }
        i += 1;
    }
    v
}

/// The Fibonacci numbers up to `n`, from 0 on. For `n` = 1 the list ends
/// with the first 1.
pub fn fibonacci_upto(n: usize) -> (v: Vec<usize>)
    ensures
        forall|i: int| 0 <= i < v.len() ==> v[i] == fib_number(i as nat),
        n == 0 ==> v.len() == 1,
        n == 1 ==> v.len() == 2,
        n >= 2 ==> v.len() >= 2 && v[v.len() - 1] <= n < fib_number(v.len() as nat),
{
    let mut v: Vec<usize> = Vec::new();
    v.push(0);
    if n == 0 {
        return v;
    }
    v.push(1);
    if n == 1 {
        return v;
    }
    loop
        invariant
            v.len() >= 2,
            n >= 2,
            forall|i: int| 0 <= i < v.len() ==> v[i] == fib_number(i as nat),
            v[v.len() - 1] <= n,
        ensures
            v.len() >= 2,
            forall|i: int| 0 <= i < v.len() ==> v[i] == fib_number(i as nat),
            v[v.len() - 1] <= n < fib_number(v.len() as nat),
        decreases n - v[v.len() - 1] + if v.len() == 2 {
                1int
            } else {
                0int
            },
    {
        let i = v.len();
        let next = v[i - 1].checked_add(v[i - 2]);
        match next {
            Some(x) => {
                if x > n {
                    break ;
                }
                proof {
                    if i > 2 {
                        lemma_fib_increases(1, (i - 2) as nat);
                    }
                }
                v.push(x);
            },
            None => {
                break ;
            },
        }
    }
    v
}

/// A walk along the Fibonacci numbers: it holds two neighbours and steps
/// to the next.
pub struct Fib {
    x: (usize, usize),
}

impl Fib {
    /// The two numbers the walk stands on.
    pub closed spec fn view(&self) -> (usize, usize) {
        self.x
    }

    /// The walk at its start, standing on 0 and 1.
    pub fn new() -> (walk: Fib)
        ensures
            walk@ == (0usize, 1usize),
    {
        Fib { x: (0, 1) }
    }

    /// The two numbers the walk stands on.
    pub fn pair(&self) -> (x: (usize, usize))
        ensures
            x == self@,
    {
        self.x
    }

    /// Steps on and hands out the number stepped onto: the sum of the two
    /// that the walk stood on.
    pub fn next(&mut self) -> (item: Option<usize>)
        requires
            old(self)@.0 + old(self)@.1 <= usize::MAX,
        ensures
            item == Some((old(self)@.0 + old(self)@.1) as usize),
            final(self)@ == (old(self)@.1, (old(self)@.0 + old(self)@.1) as usize),
    {
        let next = self.x.0 + self.x.1;
        self.x = (self.x.1, next);
        Some(next)
    }
}

/// On two neighbouring Fibonacci numbers, a step hands out the one after
/// them and leaves the walk on the next two neighbours.
pub proof fn lemma_walk_step(k: nat, before: (usize, usize), after: (usize, usize), item: usize)
    requires
        before.0 == fib_number(k),
        before.1 == fib_number(k + 1),
        item == before.0 + before.1,
        after == (before.1, item),
    ensures
        item == fib_number(k + 2),
        after.0 == fib_number(k + 1),
        after.1 == fib_number(k + 2),
{
}

/// A walk that hands out 1, 2, 3, 5, …
pub fn iter() -> (walk: Fib)
    ensures
        walk@ == (0usize, 1usize),
{
    Fib::new()
}

/// A walk that hands out 1, 1, 2, 3, 5, …
pub fn iter2() -> (walk: Fib)
    ensures
        walk@ == (1usize, 0usize),
{
    Fib { x: (1, 0) }
}

} // verus!
