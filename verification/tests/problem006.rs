use euler::problem006::{answer, option1, sample, sum_1_to};

#[test]
fn problem006_test_sample() {
    assert_eq!(sample(), 2640);
}

#[test]
fn sum_of_the_first_numbers() {
    assert_eq!(sum_1_to(0), 0);
    assert_eq!(sum_1_to(5), 15);
    assert_eq!(sum_1_to(6), 21);
}

#[test]
fn difference_for_small_counts() {
    assert_eq!(option1(0), 0);
    assert_eq!(option1(1), 0);
    assert_eq!(option1(2), 4);
    assert_eq!(option1(3), 22);
}

#[test]
fn answer_of_problem_6() {
    assert_eq!(answer(), 25164150);
}
