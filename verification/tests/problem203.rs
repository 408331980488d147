use euler::problem203::{
    free_of_squares, pascal_rows, sum_free_of_squares, sum_square_free_pascal,
};

#[test]
fn square_free_pascal_test() {
    assert_eq!(sum_square_free_pascal(8), 105);
}

#[test]
fn first_rows_hold_only_ones() {
    assert_eq!(sum_square_free_pascal(0), 1);
    assert_eq!(sum_square_free_pascal(1), 1);
    assert_eq!(sum_square_free_pascal(2), 1);
    assert_eq!(sum_square_free_pascal(3), 3);
    assert_eq!(sum_square_free_pascal(5), 12);
}

#[test]
fn squares_of_listed_primes_are_found() {
    let primes = vec![2, 3, 5, 7];
    assert!(free_of_squares(1, &primes));
    assert!(free_of_squares(30, &primes));
    assert!(!free_of_squares(4, &primes));
    assert!(!free_of_squares(20, &primes));
    assert!(!free_of_squares(98, &primes));
    assert!(free_of_squares(121, &primes));
}

#[test]
fn sum_depends_on_the_primes_given() {
    // without any prime every number counts as free of squares
    assert_eq!(sum_free_of_squares(8, &vec![]), 129);
    assert_eq!(sum_free_of_squares(8, &vec![2, 3, 5]), 105);
}

#[test]
fn answer_of_problem_203() {
    assert_eq!(euler::problem203::answer(), 34029210557338);
}

#[test]
fn rows_of_the_triangle() {
    let rows = pascal_rows(5);
    let expected: Vec<Vec<u64>> =
        vec![vec![1], vec![1, 1], vec![1, 2, 1], vec![1, 3, 3, 1], vec![1, 4, 6, 4, 1]];
    assert_eq!(rows, expected);
    assert_eq!(pascal_rows(51)[50][25], 126410606437752);
    assert!(pascal_rows(0).is_empty());
}
