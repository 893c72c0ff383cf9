use advent_puzzles::day09::{part_one, part_two};

#[test]
fn day09_test_part_one() {
    let result = part_one("2333133121414131402");
    assert_eq!(result, Some(1928));
}

#[test]
fn day09_test_part_two() {
    let result = part_two("2333133121414131402");
    assert_eq!(result, Some(2858));
}

#[test]
fn day09_small_disk() {
    // 0..111....22222 becomes 022111222
    assert_eq!(part_one("12345"), Some(1 * 2 + 2 * 2 + 3 + 4 + 5 + 6 * 2 + 7 * 2 + 8 * 2));
    // no file fits anywhere to the left
    assert_eq!(part_two("12345"), Some(3 + 4 + 5 + (10 + 11 + 12 + 13 + 14) * 2));
}

#[test]
fn day09_byte_that_is_no_digit() {
    assert_eq!(part_one("2333133121414131402\n"), None);
    assert_eq!(part_one("12\n"), None);
    assert_eq!(part_one("1x"), None);
    // in the second part it counts as 0
    assert_eq!(part_two("2333133121414131402\n"), Some(2858));
}

#[test]
fn day09_empty_map() {
    assert_eq!(part_one(""), Some(0));
    assert_eq!(part_two(""), Some(0));
}

#[test]
fn day09_file_without_blocks() {
    // the second file has no blocks: it cannot be moved
    assert_eq!(part_two("1101"), None);
    assert_eq!(part_one("1101"), Some(0));
}
