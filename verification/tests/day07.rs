use advent_puzzles::day07::{
    can_be_made, digits_count, part_one, part_two, power_of_ten, Equation,
};

const EXAMPLE: &str = "190: 10 19
3267: 81 40 27
83: 17 5
156: 15 6
7290: 6 8 6 15
161011: 16 10 13
192: 17 8 14
21037: 9 7 18 13
292: 11 6 16 20
";

#[test]
fn day07_test_part_one() {
    let result = part_one(EXAMPLE);
    assert_eq!(result, Some(3749));
}

#[test]
fn day07_test_part_two() {
    let result = part_two(EXAMPLE);
    assert_eq!(result, Some(11387));
}

#[test]
fn day07_one_equation() {
    let e = Equation { test_value: 292, numbers: vec![11, 6, 16, 20] };
    assert_eq!(can_be_made(&e, false), Some(true));
    let e = Equation { test_value: 156, numbers: vec![15, 6] };
    assert_eq!(can_be_made(&e, false), Some(false));
    assert_eq!(can_be_made(&e, true), Some(true));
    let e = Equation { test_value: 5, numbers: vec![] };
    assert_eq!(can_be_made(&e, false), None);
    let e = Equation { test_value: 5, numbers: vec![5] };
    assert_eq!(can_be_made(&e, false), Some(true));
    // a result greater than the test value is dropped, also where a zero follows
    let e = Equation { test_value: 0, numbers: vec![3, 4, 0] };
    assert_eq!(can_be_made(&e, false), Some(false));
    let e = Equation { test_value: 7, numbers: vec![3, 4, 0] };
    assert_eq!(can_be_made(&e, false), Some(true));
    // a product that does not fit
    let e = Equation { test_value: u64::MAX, numbers: vec![u64::MAX, 2] };
    assert_eq!(can_be_made(&e, false), None);
}

#[test]
fn day07_digits_and_powers_of_ten() {
    assert_eq!(digits_count(0), 1);
    assert_eq!(digits_count(9), 1);
    assert_eq!(digits_count(10), 2);
    assert_eq!(digits_count(1234), 4);
    assert_eq!(digits_count(u64::MAX), 20);
    assert_eq!(power_of_ten(0), Some(1));
    assert_eq!(power_of_ten(4), Some(10000));
    assert_eq!(power_of_ten(19), Some(10_000_000_000_000_000_000));
    assert_eq!(power_of_ten(20), None);
}

#[test]
fn day07_joining_a_number_of_twenty_digits() {
    let e = Equation {
        test_value: 10_000_000_000_000_000_000,
        numbers: vec![0, 10_000_000_000_000_000_000],
    };
    assert_eq!(can_be_made(&e, false), Some(true));
    // ten to the power of twenty does not fit
    assert_eq!(can_be_made(&e, true), None);
}

#[test]
fn day07_later_equation_stands() {
    assert_eq!(part_one("10: 5 5\n10: 3 3\n"), Some(0));
    assert_eq!(part_one("10: 3 3\n10: 5 5\n"), Some(10));
}

#[test]
fn day07_malformed() {
    assert_eq!(part_one("10 5 5\n"), None);
    assert_eq!(part_one("10:\n"), None);
    assert_eq!(part_one("x: 0\n"), Some(0));
    assert_eq!(part_one(""), Some(0));
}

#[test]
fn day07_result_over_the_test_value_is_dropped() {
    // (3 + 3) * 0 + 5 is 5, but 6 on the way is over 5
    assert_eq!(part_one("5: 3 3 0 5\n"), Some(0));
    // 7 * 0 + 6 is 6: the first number is never dropped
    assert_eq!(part_one("6: 7 0 6\n"), Some(6));
}
