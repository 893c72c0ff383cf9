use advent_puzzles::day22::{part_one, part_two, run_number, secret_sequence, sequence_pricing};
use std::collections::HashMap;

#[test]
fn day22_test_part_one() {
    let result = part_one("1\n10\n100\n2024\n");
    assert_eq!(result, Some(37327623));
}

#[test]
fn day22_test_part_two() {
    let result = part_two("1\n10\n100\n2024\n");
    assert_eq!(result, Some(24));
}

#[test]
fn day22_other_buyers() {
    assert_eq!(part_two("1\n2\n3\n2024\n"), Some(23));
}

#[test]
fn day22_secret_numbers() {
    assert_eq!(secret_sequence(123, 0), 123);
    assert_eq!(secret_sequence(123, 1), 15887950);
    assert_eq!(secret_sequence(123, 2), 16495136);
    assert_eq!(secret_sequence(123, 10), 5908254);
    assert_eq!(secret_sequence(1, 2000), 8685429);
    assert_eq!(secret_sequence(2024, 2000), 8667524);
}

#[test]
fn day22_pricing_of_one_buyer() {
    let mut sums: HashMap<u32, u32> = HashMap::new();
    assert!(sequence_pricing(123, 2000, &mut sums));
    // the run -1, -1, 0, 2 first comes up with the price 6, and earns no
    // more when it comes up again
    let at = run_number((-1, -1, 0, 2)).unwrap();
    assert_eq!(sums.get(&at), Some(&6));
    let earned: u32 = sums.values().sum();
    let runs = sums.len();
    assert!(runs > 1000 && runs <= 1997);
    assert!(earned as usize <= 9 * runs);
    assert!(sums.keys().all(|k| *k < 130321));
    // an entry that cannot be raised
    let mut full: HashMap<u32, u32> = HashMap::new();
    full.insert(at, u32::MAX);
    assert!(!sequence_pricing(123, 2000, &mut full));
    // more prices than can be held
    let mut sums: HashMap<u32, u32> = HashMap::new();
    assert!(!sequence_pricing(123, usize::MAX, &mut sums));
}

#[test]
fn day22_run_numbers() {
    assert_eq!(run_number((-9, -9, -9, -9)), Some(0));
    assert_eq!(run_number((9, 9, 9, 9)), Some(130320));
    assert_eq!(run_number((0, 0, 0, 1)), Some(((9 * 19 + 9) * 19 + 9) * 19 + 10));
    assert_eq!(run_number((10, 0, 0, 0)), None);
    assert_eq!(run_number((0, 0, -10, 0)), None);
}

#[test]
fn day22_no_buyers_and_bad_lines() {
    assert_eq!(part_one(""), Some(0));
    assert_eq!(part_two(""), Some(0));
    assert_eq!(part_one("12\nabc\n"), None);
    assert_eq!(part_two("12\n\n13\n"), None);
}

#[test]
fn day22_pricing_of_nine_steps() {
    // the prices are 3, 0, 6, 5, 4, 4, 6, 4, 4, 2
    let mut sums: HashMap<u32, u32> = HashMap::new();
    assert!(sequence_pricing(123, 9, &mut sums));
    let mut expected: HashMap<u32, u32> = HashMap::new();
    expected.insert(run_number((-3, 6, -1, -1)).unwrap(), 4);
    expected.insert(run_number((6, -1, -1, 0)).unwrap(), 4);
    expected.insert(run_number((-1, -1, 0, 2)).unwrap(), 6);
    expected.insert(run_number((-1, 0, 2, -2)).unwrap(), 4);
    expected.insert(run_number((0, 2, -2, 0)).unwrap(), 4);
    expected.insert(run_number((2, -2, 0, -2)).unwrap(), 2);
    assert_eq!(sums, expected);
    // a second buyer with the same prices doubles the sums
    assert!(sequence_pricing(123, 9, &mut sums));
    assert_eq!(sums.len(), 6);
    assert_eq!(sums.get(&run_number((-1, -1, 0, 2)).unwrap()), Some(&12));
    // fewer than four changes make no run
    let mut none: HashMap<u32, u32> = HashMap::new();
    assert!(sequence_pricing(123, 3, &mut none));
    assert!(none.is_empty());
    // a run that comes up at the price 0 has an entry all the same
    let mut zero: HashMap<u32, u32> = HashMap::new();
    assert!(sequence_pricing(123, 2000, &mut zero));
    assert!(zero.values().any(|v| *v == 0));
}
