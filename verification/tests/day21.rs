use advent_puzzles::day21::{keypad_combinations, part_one, part_two, recursive_keypad};
use std::collections::HashMap;

const EXAMPLE: &str = "029A
980A
179A
456A
379A
";

#[test]
fn day21_test_part_one() {
    let result = part_one(EXAMPLE);
    assert_eq!(result, Some(126384));
}

#[test]
fn day21_test_part_two() {
    let result = part_two(EXAMPLE);
    assert_eq!(result, Some(154115708116294));
}

#[test]
fn day21_one_code() {
    assert_eq!(part_one("029A\n"), Some(68 * 29));
    assert_eq!(part_one("379A\n"), Some(64 * 379));
}

#[test]
fn day21_ways_between_keys() {
    // the two orders are one way, and stand once
    assert_eq!(keypad_combinations(b'A', b'0'), vec![b"<A".to_vec()]);
    assert_eq!(keypad_combinations(b'A', b'7'), vec![b"^^^<<A".to_vec()]);
    // past the hole only one way leads
    assert_eq!(keypad_combinations(b'A', b'1'), vec![b"^<<A".to_vec()]);
    assert_eq!(keypad_combinations(b'7', b'A'), vec![b">>vvvA".to_vec()]);
    assert_eq!(keypad_combinations(b'<', b'^'), vec![b">^A".to_vec()]);
    assert_eq!(keypad_combinations(b'2', b'9'), vec![b"^^>A".to_vec(), b">^^A".to_vec()]);
    // `A` is on both keypads
    assert_eq!(keypad_combinations(b'A', b'A'), vec![b"A".to_vec()]);
    // no keypad has both
    assert!(keypad_combinations(b'^', b'7').is_empty());
    assert!(keypad_combinations(b'x', b'7').is_empty());
}

#[test]
fn day21_key_that_is_on_no_keypad() {
    assert_eq!(part_one("02xA\n"), None);
    assert_eq!(part_two("0<A\n"), None);
}

#[test]
fn day21_code_without_a_number() {
    assert_eq!(part_one("A\n"), Some(0));
    assert_eq!(part_one(""), Some(0));
}

#[test]
fn day21_keys_to_press() {
    assert_eq!(recursive_keypad(&mut HashMap::new(), &b"029A".to_vec(), 0), Some(4));
    assert_eq!(recursive_keypad(&mut HashMap::new(), &b"029A".to_vec(), 1), Some(12));
    assert_eq!(recursive_keypad(&mut HashMap::new(), &b"029A".to_vec(), 2), Some(28));
    assert_eq!(recursive_keypad(&mut HashMap::new(), &b"029A".to_vec(), 3), Some(68));
    assert_eq!(recursive_keypad(&mut HashMap::new(), &b"".to_vec(), 3), Some(0));
    assert_eq!(recursive_keypad(&mut HashMap::new(), &b"0x".to_vec(), 3), None);
}

#[test]
fn day21_table_of_costs_is_kept() {
    let mut memo: HashMap<u128, usize> = HashMap::new();
    assert_eq!(recursive_keypad(&mut memo, &b"029A".to_vec(), 3), Some(68));
    let filled = memo.len();
    assert!(filled > 0);
    // the second time nothing new is worked out
    assert_eq!(recursive_keypad(&mut memo, &b"029A".to_vec(), 3), Some(68));
    assert_eq!(memo.len(), filled);
    assert_eq!(recursive_keypad(&mut memo, &b"980A".to_vec(), 3), Some(60));
}
