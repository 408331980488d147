use euler::problem108::{diophantine_solutions, option1, record_highs};

#[test]
fn problem108_test_sample() {
    assert_eq!(diophantine_solutions(4), 3);
}

#[test]
fn solutions_of_small_numbers() {
    assert_eq!(diophantine_solutions(0), 0);
    assert_eq!(diophantine_solutions(1), 1);
    assert_eq!(diophantine_solutions(6), 5);
    assert_eq!(diophantine_solutions(1260), 113);
}

#[test]
fn first_in_steps_of_ten_above_a_goal() {
    assert_eq!(option1(10, 10), 30);
    assert_eq!(option1(4, 2), 4);
}

#[test]
fn search_past_the_limit_finds_nothing() {
    assert_eq!(option1(4_294_967_296, 0), 0);
}

#[test]
fn new_highs_in_steps_of_ten() {
    assert_eq!(record_highs(4, 34), vec![(4, 3), (14, 5), (24, 11)]);
    assert_eq!(record_highs(4, 3), vec![]);
    assert_eq!(record_highs(7, 7), vec![(7, 2)]);
}

#[test]
fn highs_end_with_the_first_count_above_a_thousand() {
    let list = record_highs(180180, 180200);
    assert_eq!(list, vec![(180180, 1013)]);
}
