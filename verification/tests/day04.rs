use advent_puzzles::day04::{part_one, part_two, read_slant};

const EXAMPLE: &str = "MMMSXXMASM
MSAMXMSMSA
AMXSXMAAMM
MSAMASMSMX
XMASAMXAMM
XXAMMXXAMA
SMSMSASXSS
SAXAMASAAA
MAMMMXMMMM
MXMXAXMASX
";

#[test]
fn day04_test_part_one() {
    let result = part_one(EXAMPLE);
    assert_eq!(result, Some(18));
}

#[test]
fn day04_test_part_two() {
    let result = part_two(EXAMPLE);
    assert_eq!(result, Some(9));
}

#[test]
fn day04_each_direction_once() {
    assert_eq!(part_one("XMAS\n"), Some(1));
    assert_eq!(part_one("SAMX\n"), Some(1));
    assert_eq!(part_one("X\nM\nA\nS\n"), Some(1));
    assert_eq!(part_one("X...\n.M..\n..A.\n...S\n"), Some(1));
    assert_eq!(part_one("...X\n..M.\n.A..\nS...\n"), Some(1));
    assert_eq!(part_one("XMASAMX\n"), Some(2));
}

#[test]
fn day04_empty() {
    assert_eq!(part_one(""), None);
    assert_eq!(part_two(""), None);
    assert_eq!(part_one("\n"), None);
}

#[test]
fn day04_short_row() {
    assert_eq!(part_one("XMAS\nXM\n"), None);
    // the cross is looked for inside the border only
    assert_eq!(part_two("XMAS\nXM\n"), Some(0));
    // a short row does no harm where the places looked at are there
    assert_eq!(part_two("M.S\n.A\nM.S\n"), Some(1));
    assert_eq!(part_two("M.S.\n.A..\nM\n"), None);
}

#[test]
fn day04_single_cross() {
    assert_eq!(part_two("M.S\n.A.\nM.S\n"), Some(1));
    assert_eq!(part_two("M.M\n.A.\nS.S\n"), Some(1));
    assert_eq!(part_two("M.S\n.A.\nS.M\n"), Some(0));
}

#[test]
fn day04_lines_of_letters() {
    let grid: Vec<Vec<u8>> = vec![b"abc".to_vec(), b"def".to_vec(), b"ghi".to_vec()];
    assert_eq!(read_slant(&grid, 3, 3, 0, 1, 0), Some(b"beh".to_vec()));
    assert_eq!(read_slant(&grid, 3, 3, 0, 0, 1), Some(b"aei".to_vec()));
    assert_eq!(read_slant(&grid, 3, 3, 1, 0, 1), Some(b"dh".to_vec()));
    assert_eq!(read_slant(&grid, 3, 3, 0, 2, -1), Some(b"ceg".to_vec()));
    assert_eq!(read_slant(&grid, 3, 3, 2, 2, -1), Some(b"i".to_vec()));
    assert_eq!(read_slant(&grid, 3, 3, 3, 0, 1), Some(Vec::new()));
    let ragged: Vec<Vec<u8>> = vec![b"abc".to_vec(), b"d".to_vec()];
    assert_eq!(read_slant(&ragged, 2, 3, 0, 0, 1), None);
    assert_eq!(read_slant(&ragged, 2, 3, 0, 0, 0), Some(b"ad".to_vec()));
}
