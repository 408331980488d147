use euler::problem357::{
    divisors, divisors_are_prime, divisors_min, divisors_recursive, expand, sum_divisors_to,
    unique_divisors, unique_divisors_recursive,
};

#[test]
fn problem357_non_bouncy_test_2() {
    assert_eq!(sum_divisors_to(100), 401);
}

#[test]
fn sums_up_to_small_bounds() {
    assert_eq!(sum_divisors_to(0), 0);
    assert_eq!(sum_divisors_to(1), 1);
    assert_eq!(sum_divisors_to(2), 3);
    assert_eq!(sum_divisors_to(6), 9);
    assert_eq!(sum_divisors_to(30), 71);
}

#[test]
fn products_with_the_last_factor_come_first() {
    let mut factors = vec![2, 2, 3];
    assert_eq!(divisors_recursive(&mut factors), vec![12, 6, 6, 3, 4, 2, 2, 1]);
    assert!(factors.is_empty());
    let mut none: Vec<usize> = vec![];
    assert_eq!(divisors_recursive(&mut none), vec![1]);
}

#[test]
fn unique_products_are_a_set() {
    let mut factors = vec![2, 2, 3, 3];
    let set = unique_divisors_recursive(&mut factors);
    let mut all: Vec<usize> = set.into_iter().collect();
    all.sort();
    assert_eq!(all, vec![1, 2, 3, 4, 6, 9, 12, 18, 36]);
}

#[test]
fn factors_are_written_out() {
    assert_eq!(expand(&vec![(2, 2), (3, 1)]), vec![2, 2, 3]);
    assert_eq!(expand(&vec![]), Vec::<usize>::new());
}

#[test]
fn divisors_come_from_the_sieve() {
    let sieve = primal::Sieve::new(100);
    assert_eq!(divisors(12, &sieve), vec![12, 6, 6, 3, 4, 2, 2, 1]);
    assert_eq!(divisors(1, &sieve), vec![1]);
    assert_eq!(divisors(97, &sieve), vec![97, 1]);
}

#[test]
fn small_divisors_stop_at_the_root() {
    let sieve = primal::Sieve::new(100);
    assert_eq!(divisors_min(12, 3, &sieve), vec![3, 2, 2, 1]);
    assert_eq!(divisors_min(30, 5, &sieve), vec![5, 3, 2, 1]);
}

#[test]
fn unique_divisors_are_the_divisors() {
    let sieve = primal::Sieve::new(100);
    let mut all: Vec<usize> = unique_divisors(36, &sieve).into_iter().collect();
    all.sort();
    assert_eq!(all, vec![1, 2, 3, 4, 6, 9, 12, 18, 36]);
}

#[test]
fn counted_numbers_have_prime_sums() {
    let sieve = primal::Sieve::new(100);
    let counted: Vec<usize> = (1..=30).filter(|&n| divisors_are_prime(n, &sieve)).collect();
    assert_eq!(counted, vec![1, 2, 3, 5, 6, 7, 10, 11, 13, 17, 19, 22, 23, 29, 30]);
    assert!(!divisors_are_prime(4, &sieve));
    assert!(!divisors_are_prime(8, &sieve));
    assert!(!divisors_are_prime(18, &sieve));
}
