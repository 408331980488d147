use euler::problem004::{
    answer, create_palindrome, is_divisible_by_2digits, is_divisible_by_3digits,
    number_of_digits, reverse_number, sample,
};

#[test]
fn test_number_of_digits_1() {
    assert_eq!(number_of_digits(0), 1);
}

#[test]
fn test_number_of_digits_6() {
    assert_eq!(number_of_digits(12345678), 8);
}

#[test]
fn test_reverse_number() {
    assert_eq!(reverse_number(12345678), 87654321);
}

#[test]
fn test_is_divisible_by_2digits() {
    assert!(is_divisible_by_2digits(9009));
}

#[test]
fn test_is_not_divisible_by_2digits() {
    assert!(!is_divisible_by_2digits(9119));
}

#[test]
fn test_is_divisible_by_3digits() {
    assert!(is_divisible_by_3digits(856800));
}

#[test]
fn test_is_not_divisible_by_3digits() {
    assert!(!is_divisible_by_3digits(997799));
}

#[test]
fn test_palindrome() {
    assert_eq!(create_palindrome(987), 987_789);
}

#[test]
fn problem004_test_sample() {
    assert_eq!(sample(), 9009);
}

#[test]
fn ten_counts_as_one_digit() {
    assert_eq!(number_of_digits(9), 1);
    assert_eq!(number_of_digits(10), 1);
    assert_eq!(number_of_digits(11), 2);
    assert_eq!(number_of_digits(100), 2);
    assert_eq!(number_of_digits(110), 3);
}

#[test]
fn reverse_keeps_single_digits() {
    assert_eq!(reverse_number(7), 7);
    assert_eq!(reverse_number(678), 876);
    assert_eq!(reverse_number(120), 21);
}

#[test]
fn zero_counts_as_divisible() {
    assert!(is_divisible_by_2digits(0));
}

#[test]
fn answer_of_problem_4() {
    assert_eq!(answer(), 906609);
}
