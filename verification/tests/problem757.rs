use euler::problem757::stealthy_number_count;

#[test]
fn test_10e2() {
    assert_eq!(stealthy_number_count(2), 8);
}

#[test]
fn test_10e3() {
    assert_eq!(stealthy_number_count(3), 39);
}

#[test]
fn test_10e4() {
    assert_eq!(stealthy_number_count(4), 174);
}

#[test]
fn test_10e6() {
    assert_eq!(stealthy_number_count(6), 2851);
}

#[test]
fn below_four_there_is_no_stealthy_number() {
    assert_eq!(stealthy_number_count(0), 0);
}

#[test]
fn up_to_ten_only_four_is_stealthy() {
    assert_eq!(stealthy_number_count(1), 1);
}
