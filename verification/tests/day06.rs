use advent_puzzles::day06::{find_start, guard_movement, part_one, part_two, rotate_clockwise};

const EXAMPLE: &str = "....#.....
.........#
..........
..#.......
.......#..
..........
.#..^.....
........#.
#.........
......#...
";

#[test]
fn day06_example() {
    assert_eq!(part_one(EXAMPLE), Some(41));
    assert_eq!(part_two(EXAMPLE), Some(6));
}

#[test]
fn day06_empty_text() {
    assert_eq!(part_one(""), Some(1));
    assert_eq!(part_two(""), Some(0));
}

#[test]
fn day06_guard_that_never_leaves() {
    let map = ".#..\n...#\n#^..\n..#.\n";
    assert_eq!(part_one(map), None);
}

#[test]
fn day06_walled_in() {
    let map = ".#.\n#^#\n.#.\n";
    assert_eq!(part_one(map), None);
    let grid: Vec<Vec<u8>> = map.lines().map(|l| l.as_bytes().to_vec()).collect();
    let (path, looped) = guard_movement(&grid, (1, 1), 0, true).unwrap();
    assert!(looped);
    assert_eq!(path, vec![(1, 1, 0)]);
}

#[test]
fn day06_straight_out() {
    assert_eq!(part_one("...\n...\n.^.\n"), Some(3));
    // an obstacle on the way up turns the guard to the right and out
    assert_eq!(part_two("...\n...\n.^.\n"), Some(0));
}

#[test]
fn day06_short_row() {
    assert_eq!(part_one("....\n.\n.^..\n"), None);
}

#[test]
fn day06_start_and_turns() {
    let grid: Vec<Vec<u8>> = EXAMPLE.lines().map(|l| l.as_bytes().to_vec()).collect();
    assert_eq!(find_start(&grid), Some((6, 4)));
    let none: Vec<Vec<u8>> = vec![b"..".to_vec()];
    assert_eq!(find_start(&none), Some((0, 0)));
    assert_eq!(rotate_clockwise(0), 1);
    assert_eq!(rotate_clockwise(3), 0);
    let (path, looped) = guard_movement(&grid, (6, 4), 0, true).unwrap();
    assert!(!looped);
    assert_eq!(path[0], (6, 4, 0));
    assert_eq!(path[5], (1, 4, 0));
    assert_eq!(path[6], (1, 5, 1));
    assert_eq!(*path.last().unwrap(), (9, 7, 2));
}

#[test]
fn day06_direction_and_loop_tracking() {
    let grid: Vec<Vec<u8>> = vec![b"...".to_vec(), b".^.".to_vec(), b"...".to_vec()];
    assert_eq!(guard_movement(&grid, (1, 1), 0, false), Some((vec![(1, 1, 0), (0, 1, 0)], false)));
    assert_eq!(guard_movement(&grid, (1, 1), 1, false), Some((vec![(1, 1, 1), (1, 2, 1)], false)));
    assert_eq!(guard_movement(&grid, (1, 1), 2, true), Some((vec![(1, 1, 2), (2, 1, 2)], false)));
    assert_eq!(guard_movement(&grid, (1, 1), 3, true), Some((vec![(1, 1, 3), (1, 0, 3)], false)));
    // no way to face
    assert!(guard_movement(&grid, (1, 1), 4, true).is_none());
    // a walk for ever is only given where loops are tracked
    let map = ".#.\n#^#\n.#.\n";
    let walled: Vec<Vec<u8>> = map.lines().map(|l| l.as_bytes().to_vec()).collect();
    assert!(guard_movement(&walled, (1, 1), 0, false).is_none());
    assert_eq!(guard_movement(&walled, (1, 1), 0, true), Some((vec![(1, 1, 0)], true)));
}
