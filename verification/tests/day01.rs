use advent_puzzles::day01::{part_one, part_two, sort};

const EXAMPLE: &str = "3   4
4   3
2   5
1   3
3   9
3   3
";

#[test]
fn day01_test_part_one() {
    let result = part_one(EXAMPLE);
    assert_eq!(result, Some(11));
}

#[test]
fn day01_test_part_two() {
    let result = part_two(EXAMPLE);
    assert_eq!(result, Some(31));
}

#[test]
fn day01_sort() {
    assert_eq!(sort(&vec![3, 1, 2, 1, 0, 7]), vec![0, 1, 1, 2, 3, 7]);
    assert_eq!(sort(&vec![]), Vec::<u32>::new());
    assert_eq!(sort(&vec![u32::MAX, 0]), vec![0, u32::MAX]);
}

#[test]
fn day01_empty_text() {
    assert_eq!(part_one(""), Some(0));
    assert_eq!(part_two(""), Some(0));
}

#[test]
fn day01_line_without_two_numbers() {
    assert_eq!(part_one("1 2\n3\n"), None);
    assert_eq!(part_one("1 2\n\n3 4\n"), None);
    assert_eq!(part_one("1 x\n"), None);
    assert_eq!(part_two("1 2\n3\n"), None);
}

#[test]
fn day01_more_than_two_numbers_to_a_line() {
    assert_eq!(part_one("1 5 9\n"), Some(4));
}

#[test]
fn day01_sum_too_large() {
    assert_eq!(part_two("4294967295 4294967295\n4294967295 1\n"), None);
    assert_eq!(part_two("4294967295 4294967295\n1 2\n"), Some(4294967295));
    // taken as numbers with a sign, 2147483648 is negative: the distance to 0 does not fit
    assert_eq!(part_one("2147483648 0\n"), None);
    assert_eq!(part_one("2147483647 0\n"), Some(2147483647));
}
