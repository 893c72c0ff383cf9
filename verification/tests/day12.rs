use advent_puzzles::day12::{count_sides, explore_region, in_bounds, part_one, part_two, Region};

const EXAMPLE: &str = "RRRRIICCFF
RRRRIICCCF
VVRRRCCFFF
VVRCCCJFFF
VVVVCJJCFE
VVIVCCJJEE
VVIIICJJEE
MIIIIIJJEE
MIIISIJEEE
MMMISSJEEE
";

#[test]
fn day12_test_part_one() {
    let result = part_one(EXAMPLE);
    assert_eq!(result, Some(1930));
}

#[test]
fn day12_test_part_two() {
    let result = part_two(EXAMPLE);
    assert_eq!(result, Some(1206));
}

#[test]
fn day12_small_gardens() {
    let small = "AAAA\nBBCD\nBBCC\nEEEC\n";
    assert_eq!(part_one(small), Some(140));
    assert_eq!(part_two(small), Some(80));
    let holes = "OOOOO\nOXOXO\nOOOOO\nOXOXO\nOOOOO\n";
    assert_eq!(part_one(holes), Some(772));
    assert_eq!(part_two(holes), Some(436));
    let e = "EEEEE\nEXXXX\nEEEEE\nEXXXX\nEEEEE\n";
    assert_eq!(part_two(e), Some(236));
    let touching = "AAAAAA\nAAABBA\nAAABBA\nABBAAA\nABBAAA\nAAAAAA\n";
    assert_eq!(part_two(touching), Some(368));
}

#[test]
fn day12_empty_and_ragged() {
    assert_eq!(part_one(""), None);
    assert_eq!(part_two(""), None);
    assert_eq!(part_one("AA\nA\n"), None);
}

#[test]
fn day12_one_region() {
    let map: Vec<Vec<u8>> = vec![b"AAB".to_vec(), b"ABB".to_vec()];
    let start = Region { plant: b'A', positions: vec![(0, 0)], area: 1, perimeter: 0 };
    let region = explore_region(start, &map, 2, 3).unwrap();
    assert_eq!(region.area, 3);
    assert_eq!(region.perimeter, 8);
    assert_eq!(region.positions.len(), 3);
    assert_eq!(count_sides(&region), Some(6));
    assert!(in_bounds(1, 2, 2, 3));
    assert!(!in_bounds(2, 0, 2, 3));
}
