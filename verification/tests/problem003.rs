use euler::problem003::{answer, largest_dividing, option1, option2, strip, strip_all};

#[test]
fn gpf_of_6() {
    assert_eq!(option1(6), 3)
}

#[test]
fn gpf_of_11() {
    assert_eq!(option1(11), 11)
}

#[test]
fn gpf_of_27() {
    assert_eq!(option1(27), 3)
}

#[test]
fn gpf_of_13195() {
    assert_eq!(option1(13195), 29)
}

#[test]
fn gpf_of_6a() {
    assert_eq!(option2(6), 3)
}

#[test]
fn gpf_of_11a() {
    assert_eq!(option2(11), 11)
}

#[test]
fn gpf_of_27a() {
    assert_eq!(option2(27), 3)
}

#[test]
fn gpf_of_13195a() {
    assert_eq!(option2(13195), 29)
}

#[test]
fn largest_dividing_takes_the_last_that_divides() {
    assert_eq!(largest_dividing(&vec![2, 3, 5, 7], 30), 5);
    assert_eq!(largest_dividing(&vec![2, 3, 5, 7], 11), 11);
    assert_eq!(largest_dividing(&vec![], 12), 12);
}

#[test]
fn strip_divides_while_the_rest_is_above() {
    assert_eq!(strip(24, 2), 3);
    assert_eq!(strip(8, 2), 2);
    assert_eq!(strip(9, 2), 9);
    assert_eq!(strip_all(&vec![2, 3, 5], 360), 5);
    assert_eq!(strip_all(&vec![2, 3, 5], 64), 2);
}

#[test]
fn answer_of_problem_3() {
    assert_eq!(answer(), 6857);
}
