use advent_puzzles::day11::{blink_stone, count_stones, part_one, part_two};
use std::collections::HashMap;

#[test]
fn day11_test_part_one() {
    let result = part_one("125 17\n");
    assert_eq!(result, Some(55312));
}

#[test]
fn day11_test_part_two() {
    let result = part_two("125 17\n");
    assert_eq!(result, Some(65601038650482));
}

#[test]
fn day11_blink() {
    assert_eq!(blink_stone(b"0", false), Some(vec![1]));
    assert_eq!(blink_stone(b"1", false), Some(vec![2024]));
    assert_eq!(blink_stone(b"1000", false), Some(vec![10, 0]));
    assert_eq!(blink_stone(b"253000", true), Some(vec![253, 0]));
    assert_eq!(blink_stone(b"00", true), Some(vec![0, 0]));
    assert_eq!(blink_stone(b"abc", true), None);
    assert_eq!(blink_stone(b"ab", false), None);
    assert_eq!(blink_stone(b"+7", false), None);
    assert_eq!(blink_stone(b"+17", false), Some(vec![17 * 2024]));
    // halves of ten digits fit in 64 bits, not in 32
    assert_eq!(blink_stone(b"99999999990000000001", true), Some(vec![9999999999, 1]));
    assert_eq!(blink_stone(b"99999999990000000001", false), None);
    // a product that does not fit
    assert_eq!(blink_stone(b"9999999999999999999", true), None);
}

#[test]
fn day11_counts() {
    assert_eq!(count_stones(125, 0, true, &mut HashMap::new()), Some(1));
    assert_eq!(count_stones(125, 6, true, &mut HashMap::new()), Some(7));
    assert_eq!(count_stones(17, 6, true, &mut HashMap::new()), Some(15));
    assert_eq!(count_stones(17, 6, false, &mut HashMap::new()), Some(15));
    assert_eq!(count_stones(0, 1, true, &mut HashMap::new()), Some(1));
    assert_eq!(count_stones(99, 1, true, &mut HashMap::new()), Some(2));
    // a product that does not fit
    assert_eq!(count_stones(9999999999999999999, 1, true, &mut HashMap::new()), None);
}

#[test]
fn day11_no_stones() {
    assert_eq!(part_one("  \n"), Some(0));
    assert_eq!(part_two(""), Some(0));
}

#[test]
fn day11_not_a_number() {
    assert_eq!(part_one("12 x3"), None);
    assert_eq!(part_two("12 x3"), None);
}

#[test]
fn day11_table_is_kept() {
    let mut memo: HashMap<u128, usize> = HashMap::new();
    let first = count_stones(125, 25, true, &mut memo).unwrap();
    let filled = memo.len();
    assert!(filled > 0);
    // the second time nothing new is worked out
    assert_eq!(count_stones(125, 25, true, &mut memo), Some(first));
    assert_eq!(memo.len(), filled);
    let second = count_stones(17, 25, true, &mut memo).unwrap();
    assert_eq!(first + second, 55312);
}
