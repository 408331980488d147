use euler::problem001::{answer, option1, option2, option3, option4, sum_by_steps};

#[test]
fn test_loop() {
    assert_eq!(option1(10), 23);
}

#[test]
fn test_1_iterator() {
    assert_eq!(option2(10), 23);
}

#[test]
fn test_2_iterators() {
    assert_eq!(option3(10), 23);
}

#[test]
fn test_3_iterators() {
    assert_eq!(option4(10), 23);
}

#[test]
fn all_four_agree_on_small_bounds() {
    for n in 0..200u32 {
        let expected: u32 = (1..n).filter(|i| i % 3 == 0 || i % 5 == 0).sum();
        assert_eq!(option1(n), expected);
        assert_eq!(option2(n as u64), expected as u64);
        assert_eq!(option3(n as i32), expected as i32);
        assert_eq!(option4(n as u64), expected as u64);
    }
}

#[test]
fn negative_bound_sums_to_nothing() {
    assert_eq!(option3(-7), 0);
}

#[test]
fn steps_stop_below_the_bound() {
    assert_eq!(sum_by_steps(3, 10), 18);
    assert_eq!(sum_by_steps(5, 10), 5);
    assert_eq!(sum_by_steps(5, 11), 15);
    assert_eq!(sum_by_steps(15, 10), 0);
    assert_eq!(sum_by_steps(7, 7), 0);
    assert_eq!(sum_by_steps(7, 8), 7);
}

#[test]
fn answer_of_problem_1() {
    assert_eq!(answer(), 233168);
}
