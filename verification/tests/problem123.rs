use euler::problem123::{option1, remainder_exceeds};

#[test]
fn prime_square_remainders_test1() {
    assert_eq!(option1(1, 10_u64.pow(9)), 7037);
}

#[test]
fn first_remainders() {
    // n = 1: 2 * 1 * 2 = 4; n = 3: 2 * 3 * 5 = 30; n = 5: 2 * 5 * 11 = 110.
    assert_eq!(option1(1, 3), 1);
    assert_eq!(option1(1, 4), 3);
    assert_eq!(option1(1, 30), 5);
    assert_eq!(option1(3, 0), 3);
    // from an even start only even n are seen: n = 2: 2 * 2 * 3 = 12.
    assert_eq!(option1(2, 11), 2);
    assert_eq!(option1(2, 12), 4);
}

#[test]
fn remainder_is_twice_the_product() {
    assert!(remainder_exceeds(3, 5, 29));
    assert!(!remainder_exceeds(3, 5, 30));
    assert!(remainder_exceeds(usize::MAX, usize::MAX, u64::MAX));
}

#[test]
fn answer_of_problem_123() {
    assert_eq!(euler::problem123::answer(), 21035);
}
