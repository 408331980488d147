use euler::problem113::non_bouncy;

#[test]
fn problem113_non_bouncy_test_2() {
    assert_eq!(non_bouncy(2), 99);
}

#[test]
fn non_bouncy_test_6() {
    assert_eq!(non_bouncy(6), 12951);
}

#[test]
fn non_bouncy_test_10() {
    assert_eq!(non_bouncy(10), 277032);
}

#[test]
fn non_bouncy_below_ten_and_below_a_thousand() {
    assert_eq!(non_bouncy(1), 9);
    assert_eq!(non_bouncy(3), 474);
}

#[test]
fn answer_of_problem_113() {
    assert_eq!(non_bouncy(100), 51161058134250);
    assert_eq!(euler::problem113::answer(), 51161058134250);
}

#[test]
fn the_count_has_a_closed_form() {
    // C(e + 10, 10) + C(e + 9, 9) - 2 - 10 e
    fn binomial(n: u128, k: u128) -> u128 {
        let mut value: u128 = 1;
        for i in 0..k {
            value = value * (n - i) / (i + 1);
        }
        value
    }
    for e in 1..=40u128 {
        let closed = binomial(e + 10, 10) + binomial(e + 9, 9) - 2 - 10 * e;
        assert_eq!(non_bouncy(e as usize) as u128, closed);
    }
}

#[test]
fn the_count_counts_the_numbers_that_do_not_bounce() {
    fn bounces(x: u64) -> bool {
        let digits: Vec<u64> = x.to_string().bytes().map(|b| (b - b'0') as u64).collect();
        let rises = digits.windows(2).any(|w| w[0] < w[1]);
        let falls = digits.windows(2).any(|w| w[0] > w[1]);
        rises && falls
    }
    let mut count: u64 = 0;
    let mut limit: u64 = 1;
    for e in 1..=5usize {
        for x in limit.max(1)..limit * 10 {
            if !bounces(x) {
                count += 1;
            }
        }
        limit *= 10;
        assert_eq!(non_bouncy(e), count);
    }
}
