use euler::math::fibonacci::{fib, fibonacci, fibonacci_first, fibonacci_upto, iter, iter2, Fib};
use euler::math::{div_rem, isqrt, polytopic_number, power_set};

#[test]
fn polytopic_number_test() {
    assert_eq!(polytopic_number(2, 4), 10);
}

#[test]
fn polytopic_numbers_of_low_dimension() {
    assert_eq!(polytopic_number(1, 7), 7);
    assert_eq!(polytopic_number(3, 4), 20);
    assert_eq!(polytopic_number(4, 5), 70);
}

#[test]
fn isqrt_rounds_down() {
    assert_eq!(isqrt(0), 0);
    assert_eq!(isqrt(1), 1);
    assert_eq!(isqrt(15), 3);
    assert_eq!(isqrt(16), 4);
    assert_eq!(isqrt(17), 4);
    assert_eq!(isqrt(9009), 94);
    assert_eq!(isqrt(600_851_475_143), 775_146);
    assert_eq!(isqrt(usize::MAX), 4_294_967_295);
}

#[test]
fn div_rem_gives_quotient_and_remainder() {
    assert_eq!(div_rem(17, 5), (3, 2));
    assert_eq!(div_rem(4, 9), (0, 4));
}

#[test]
fn power_set_lists_later_items_first() {
    let sets = power_set(&['a', 'b', 'c'], 0);
    let expected: Vec<Vec<char>> = vec![
        vec![],
        vec!['c'],
        vec!['b'],
        vec!['c', 'b'],
        vec!['a'],
        vec!['c', 'a'],
        vec!['b', 'a'],
        vec!['c', 'b', 'a'],
    ];
    assert_eq!(sets, expected);
}

#[test]
fn power_set_from_the_end_is_the_empty_set_alone() {
    let sets = power_set(&[1, 2], 2);
    let expected: Vec<Vec<i32>> = vec![vec![]];
    assert_eq!(sets, expected);
}

#[test]
fn fib_by_both_methods() {
    assert_eq!(fib(0), 0);
    assert_eq!(fib(1), 1);
    assert_eq!(fib(6), 8);
    assert_eq!(fibonacci(0), 0);
    assert_eq!(fibonacci(1), 1);
    assert_eq!(fibonacci(6), 8);
    assert_eq!(fibonacci(90), 2_880_067_194_370_816_120);
}

#[test]
fn fibonacci_first_ten() {
    assert_eq!(fibonacci_first(10), vec![0, 1, 1, 2, 3, 5, 8, 13, 21, 34]);
    assert_eq!(fibonacci_first(0), Vec::<usize>::new());
    assert_eq!(fibonacci_first(1), vec![0]);
}

#[test]
fn fibonacci_upto_a_bound() {
    assert_eq!(fibonacci_upto(0), vec![0]);
    assert_eq!(fibonacci_upto(1), vec![0, 1]);
    assert_eq!(fibonacci_upto(2), vec![0, 1, 1, 2]);
    assert_eq!(fibonacci_upto(100), vec![0, 1, 1, 2, 3, 5, 8, 13, 21, 34, 55, 89]);
    assert_eq!(fibonacci_upto(usize::MAX).len(), 94);
}

#[test]
fn walks_hand_out_the_sequence() {
    let mut a = iter();
    let firsts: Vec<usize> = (0..5).map(|_| a.next().unwrap()).collect();
    assert_eq!(firsts, vec![1, 2, 3, 5, 8]);
    let mut b = iter2();
    let seconds: Vec<usize> = (0..6).map(|_| b.next().unwrap()).collect();
    assert_eq!(seconds, vec![1, 1, 2, 3, 5, 8]);
    let mut c = Fib::new();
    assert_eq!(c.next(), Some(1));
}
