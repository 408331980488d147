use euler::problem119::{answer, option1, sum_of_digits};

#[test]
fn sum_of_digits_test1() {
    assert_eq!(sum_of_digits(4), 4);
}

#[test]
fn sum_of_digits_test2() {
    assert_eq!(sum_of_digits(78), 15);
}

#[test]
fn sum_of_digits_test3() {
    assert_eq!(sum_of_digits(102000), 3);
}

#[test]
fn option1_test1() {
    assert_eq!(option1(2), 512);
}

#[test]
fn option1_test2() {
    assert_eq!(option1(10), 614656);
}

#[test]
fn out_of_range_places_give_zero() {
    assert_eq!(option1(0), 0);
    assert_eq!(option1(31), 0);
}

#[test]
fn first_place_is_the_square_of_nine() {
    assert_eq!(option1(1), 81);
}

#[test]
fn answer_of_problem_119() {
    assert_eq!(answer(), 248155780267521);
}
