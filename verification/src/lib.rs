//! Solutions to a collection of number puzzles, with the assignment-problem
//! solver at its heart. Every function carries a contract that Verus proves.

pub mod binomial;
pub mod divisors;
pub mod factors;
pub mod lattice;
pub mod math;
pub mod primes;
pub mod problem001;
pub mod problem003;
pub mod problem004;
pub mod problem005;
pub mod problem006;
pub mod problem107;
pub mod problem108;
pub mod problem113;
pub mod problem119;
pub mod problem123;
pub mod problem179;
pub mod problem203;
pub mod problem345;
pub mod problem357;
pub mod problem757;
