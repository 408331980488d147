use euler::problem005::{
    answer, checked_lcm, fold_lcm, option1, option2, option2a, option3, option3a, sample,
};

#[test]
fn problem005_test_sample() {
    assert_eq!(option1(10), 2520);
}

#[test]
fn test_sample_opt2() {
    assert_eq!(option2a(), 2520);
}

#[test]
fn test_sample_opt3() {
    assert_eq!(option3a(), 2520);
}

#[test]
fn below_three_the_number_itself() {
    assert_eq!(option1(0), 0);
    assert_eq!(option1(1), 1);
    assert_eq!(option1(2), 2);
    assert_eq!(option1(3), 6);
}

#[test]
fn answer_of_problem_5() {
    assert_eq!(answer(), 232792560);
    assert_eq!(option2(), 232792560);
    assert_eq!(option3(), 232792560);
    assert_eq!(option1(20), 232792560);
    assert_eq!(sample(), 2520);
}

#[test]
fn lowest_common_multiple_is_not_the_first_argument() {
    assert_eq!(checked_lcm(4, 6), Some(12));
    assert_eq!(checked_lcm(7, 3), Some(21));
    assert_eq!(checked_lcm(2, 4), Some(4));
}

#[test]
fn lowest_common_multiple_that_does_not_fit() {
    assert_eq!(checked_lcm(usize::MAX, usize::MAX - 1), None);
    assert_eq!(fold_lcm(usize::MAX, &vec![2]), None);
    assert_eq!(option1(100), 0);
}
