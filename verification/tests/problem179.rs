use euler::problem179::{count_from_factors, option1};

#[test]
fn divisor_count_test1() {
    assert_eq!(option1(25), 3);
}

#[test]
fn neighbours_with_equal_counts() {
    // 2 and 3 are the first pair, 14 and 15 the second.
    assert_eq!(option1(1), 0);
    assert_eq!(option1(2), 1);
    assert_eq!(option1(13), 1);
    assert_eq!(option1(14), 2);
}

#[test]
fn count_is_the_product_of_raised_exponents() {
    assert_eq!(count_from_factors(&vec![(2, 2), (3, 1)]), 6);
    assert_eq!(count_from_factors(&vec![]), 1);
    assert_eq!(count_from_factors(&vec![(7, 4)]), 5);
}
