use advent_puzzles::day15::{part_one, part_two};

const SMALL: &str = "########
#..O.O.#
##@.O..#
#...O..#
#.#.O..#
#...O..#
#......#
########

<^^>>>vv<v>>v<<
";

#[test]
fn day15_small_warehouse() {
    assert_eq!(part_one(SMALL), Some(2028));
}

#[test]
fn day15_wide_push_of_two_columns() {
    let input = "#######
#...#.#
#.....#
#..OO@#
#..O..#
#.....#
#######

<vv<<^^<<^^
";
    assert_eq!(part_two(input), Some(105 + 207 + 306));
}

#[test]
fn day15_rejects_a_text_without_moves_section() {
    assert_eq!(part_one("####\n#@.#\n####\n"), None);
    assert_eq!(part_two("####\n#@.#\n####\n"), None);
}

#[test]
fn day15_rejects_an_unknown_move() {
    assert_eq!(part_one("####\n#@.#\n####\n\n>x\n"), None);
}

#[test]
fn day15_rejects_a_move_off_the_map() {
    assert_eq!(part_one("@.\n\n<\n"), None);
    assert_eq!(part_one("@.\n\n>\n"), Some(0));
}

const LARGER: &str = "##########
#..O..O.O#
#......O.#
#.OO..O.O#
#..O@..O.#
#O#..O...#
#O..O..O.#
#.OO.O.OO#
#....O...#
##########

<vv>^<v^>v>^vv^v>v<>v^v<v<^vv<<<^><<><>>v<vvv<>^v^>^<<<><<v<<<v^vv^v>^
vvv<<^>^v^^><<>>><>^<<><^vv^^<>vvv<>><^^v>^>vv<>v<<<<v<^v>^<^^>>>^<v<v
><>vv>v^v^<>><>>>><^^>vv>v<^^^>>v^v^<^^>v^^>v^<^v>v<>>v^v^<v>v^^<^^vv<
<<v<^>>^^^^>>>v^<>vvv^><v<<<>^^^vv^<vvv>^>v<^^^^v<>^>vvvv><>>v^<<^^^^^
^><^><>>><>^^<<^^v>>><^<v>^<vv>>v>>>^v><>^v><<<<v>>v<v<v>vvv>^<><<>^><
^>><>^v<><^vvv<^^<><v<<<<<><^v<<<><<<^^<v<^^^><^>>^<v^><<<^>>^v<v^v<v^
>^>>^v>vv>^<<^v<>><<><<v<<v><>v<^vv<<<>^^v^>^^>>><<^v>>v^v><^^>>^<>vv^
<><^^>^^^<><vvvvv^v<v<<>^v<v>v<<^><<><<><<<^^<<<^<<>><<><^^^>^^<>^>v<>
^^>vv<^v^v<vv>^<><v<^v>^^^>>>^^vvv^>vvv<>>>^<^>>>>>^<<^v>^vvv<>^<><<v>
v^^>>><<^^<>>^v^<v^vv<>v^<<>^<^v^v><^<<<><<^<v><v<>vv>>v><v^<vv<>v^<<^
";

#[test]
fn day15_test_part_one() {
    let result = part_one(LARGER);
    assert_eq!(result, Some(10092));
}

#[test]
fn day15_test_part_two() {
    let result = part_two(LARGER);
    assert_eq!(result, Some(9021));
}
