use advent_puzzles::day10::{climb, hike, in_bounds, part_one, part_two};

const EXAMPLE: &str = "89010123
78121874
87430965
96549874
45678903
32019012
01329801
10456732
";

#[test]
fn day10_test_part_one() {
    let result = part_one(EXAMPLE);
    assert_eq!(result, Some(36));
}

#[test]
fn day10_rating_of_example() {
    assert_eq!(part_two(EXAMPLE), Some(81));
}

#[test]
fn day10_small_maps() {
    let one = "0123\n1234\n8765\n9876\n";
    assert_eq!(part_one(one), Some(1));
    assert_eq!(part_two(one), Some(16));
    let fork = "...0...\n...1...\n...2...\n6543456\n7.....7\n8.....8\n9.....9\n";
    assert_eq!(part_one(fork), Some(2));
    assert_eq!(part_two(fork), Some(2));
}

#[test]
fn day10_neighbours() {
    assert_eq!(hike(3, 4, 0), Some((2, 4)));
    assert_eq!(hike(3, 4, 1), Some((4, 4)));
    assert_eq!(hike(3, 4, 2), Some((3, 3)));
    assert_eq!(hike(3, 4, 3), Some((3, 5)));
    assert_eq!(hike(0, 4, 0), None);
    assert_eq!(hike(3, 0, 2), None);
    assert!(in_bounds(0, 0, 1, 1));
    assert!(!in_bounds(0, 1, 1, 1));
}

#[test]
fn day10_climb_from_the_middle() {
    let map: Vec<Vec<u8>> = vec![b"789".to_vec(), b"6.9".to_vec()];
    let mut found = Vec::new();
    assert!(climb(&map, 2, 3, 1, 0, 6, &mut found));
    assert_eq!(found, vec![(0, 2)]);
}

#[test]
fn day10_empty_and_ragged() {
    assert_eq!(part_one(""), None);
    assert_eq!(part_two(""), None);
    assert_eq!(part_one("0123\n1\n"), None);
}
