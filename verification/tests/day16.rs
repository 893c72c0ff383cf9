use advent_puzzles::day16::{
    next_position, part_one, part_two, possible_paths, turn_left, turn_right, Direction, Path,
};

const EXAMPLE: &str = "###############
#.......#....E#
#.#.###.#.###.#
#.....#.#...#.#
#.###.#####.#.#
#.#.#.......#.#
#.#.#####.###.#
#...........#.#
###.#.#####.#.#
#...#.....#.#.#
#.#.#.###.#.#.#
#.....#...#.#.#
#.###.#.#.#.#.#
#S..#.....#...#
###############
";

#[test]
fn day16_test_part_one() {
    let result = part_one(EXAMPLE);
    assert_eq!(result, Some(7036));
}

#[test]
fn day16_test_part_two() {
    let result = part_two(EXAMPLE);
    assert_eq!(result, Some(45));
}

#[test]
fn day16_straight_corridor() {
    assert_eq!(part_one("#####\n#S.E#\n#####\n"), Some(2));
    assert_eq!(part_two("#####\n#S.E#\n#####\n"), Some(3));
}

#[test]
fn day16_one_turn() {
    let maze = "####\n#E.#\n##.#\n#S.#\n####\n";
    // east, then a turn north and two steps, then a turn west
    assert_eq!(part_one(maze), Some(1 + 1001 + 1 + 1001));
    assert_eq!(part_two(maze), Some(5));
}

#[test]
fn day16_no_way() {
    assert_eq!(part_one("#####\n#S#E#\n#####\n"), None);
    assert_eq!(part_two("#####\n#S#E#\n#####\n"), None);
}

#[test]
fn day16_empty_text() {
    assert_eq!(part_one(""), None);
}

#[test]
fn day16_walk_off_the_map() {
    assert_eq!(part_one("S.\n"), None);
}

#[test]
fn day16_directions() {
    assert!(matches!(turn_left(Direction::Up), Direction::Left));
    assert!(matches!(turn_left(Direction::Left), Direction::Down));
    assert!(matches!(turn_right(Direction::Up), Direction::Right));
    assert!(matches!(turn_right(Direction::Left), Direction::Up));
    assert_eq!(next_position((3, 4), Direction::Up), Some((2, 4)));
    assert_eq!(next_position((3, 4), Direction::Right), Some((3, 5)));
    assert_eq!(next_position((0, 4), Direction::Up), None);
    assert_eq!(next_position((3, 0), Direction::Left), None);
}

#[test]
fn day16_possible_paths() {
    let grid: Vec<Vec<u8>> =
        vec![b"#####".to_vec(), b"#.E.#".to_vec(), b"#.S##".to_vec(), b"#####".to_vec()];
    let path =
        Path { direction: Direction::Right, score: 7, finish: false, positions: vec![(2, 2)] };
    let mut out = Vec::new();
    assert!(possible_paths(&grid, &path, &mut out));
    assert_eq!(out.len(), 1);
    assert_eq!(out[0].score, 1008);
    assert!(out[0].finish);
    assert_eq!(out[0].positions, vec![(2, 2), (1, 2)]);
    assert!(matches!(out[0].direction, Direction::Up));
}
