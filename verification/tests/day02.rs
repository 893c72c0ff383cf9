use advent_puzzles::day02::{is_safe, part_one, part_two};

const EXAMPLE: &str = "7 6 4 2 1
1 2 7 8 9
9 7 6 2 1
1 3 2 4 5
8 6 4 4 1
1 3 6 7 9
";

#[test]
fn day02_test_part_one() {
    let result = part_one(EXAMPLE);
    assert_eq!(result, Some(2));
}

#[test]
fn day02_test_part_two() {
    let result = part_two(EXAMPLE);
    assert_eq!(result, Some(4));
}

#[test]
fn day02_is_safe() {
    assert_eq!(is_safe(&vec![7, 6, 4, 2, 1]), Some(true));
    assert_eq!(is_safe(&vec![1, 2, 7, 8, 9]), Some(false));
    assert_eq!(is_safe(&vec![8, 6, 4, 4, 1]), Some(false));
    assert_eq!(is_safe(&vec![1, 3, 2]), Some(false));
    assert_eq!(is_safe(&vec![5]), Some(true));
    assert_eq!(is_safe(&vec![]), Some(true));
    assert_eq!(is_safe(&vec![1, 4]), Some(true));
    assert_eq!(is_safe(&vec![1, 5]), Some(false));
    // the step from 0 to 2147483648, taken with a sign, does not fit
    assert_eq!(is_safe(&vec![0, 2147483648]), None);
}

#[test]
fn day02_empty_lines_count_as_safe() {
    assert_eq!(part_one("\n\n"), Some(2));
    assert_eq!(part_one(""), Some(0));
}

#[test]
fn day02_words_that_are_no_numbers_are_left_out() {
    assert_eq!(part_one("1 x 2 y 3\n"), Some(1));
}

#[test]
fn day02_one_level_taken_out() {
    assert_eq!(part_two("9 1 2 3\n"), Some(1));
    assert_eq!(part_two("1 2 3 9\n"), Some(1));
    assert_eq!(part_two("1 9 2 3\n"), Some(1));
    assert_eq!(part_two("1 9 2 9\n"), Some(0));
}
