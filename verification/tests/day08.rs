use advent_puzzles::day08::{part_one, part_two};

const EXAMPLE: &str = "............
........0...
.....0......
.......0....
....0.......
......A.....
............
............
........A...
.........A..
............
............
";

#[test]
fn day08_test_part_one() {
    let result = part_one(EXAMPLE);
    assert_eq!(result, Some(14));
}

#[test]
fn day08_test_part_two() {
    let result = part_two(EXAMPLE);
    assert_eq!(result, Some(34));
}

#[test]
fn day08_one_pair() {
    let map = "..........\n..........\n..........\n....a.....\n..........\n.....a....\n..........\n..........\n..........\n..........\n";
    assert_eq!(part_one(map), Some(2));
    // along the line: (1, 3), (3, 4), (5, 5), (7, 6), (9, 7)
    assert_eq!(part_two(map), Some(5));
}

#[test]
fn day08_three_in_a_row() {
    let map = "T.........\n...T......\n.T........\n..........\n..........\n..........\n..........\n..........\n..........\n..........\n";
    assert_eq!(part_two(map), Some(9));
}

#[test]
fn day08_lonely_antenna_and_empty_map() {
    assert_eq!(part_one("..a..\n.....\n"), Some(0));
    assert_eq!(part_two("..a..\n.....\n"), Some(0));
    assert_eq!(part_one(""), None);
    assert_eq!(part_two(""), None);
}

#[test]
fn day08_short_row() {
    assert_eq!(part_one(".....\n..\n"), None);
}
