use advent_puzzles::day20::{create_space_map_with_positions, part_one, part_two};

const EXAMPLE: &str = "###############
#...#...#.....#
#.#.#.#.#.###.#
#S#...#.#.#...#
#######.#.#.###
#######.#.#...#
#######.#.###.#
###..E#...#...#
###.#######.###
#...###...#...#
#.#####.#.###.#
#.#...#.#.#...#
#.#.#.#.#.#.###
#...#...#...###
###############
";

#[test]
fn day20_test_part_one() {
    let result = part_one(EXAMPLE);
    assert_eq!(result, Some(0));
}

#[test]
fn day20_test_part_two() {
    let result = part_two(EXAMPLE);
    assert_eq!(result, Some(0));
}

/// A track that goes up and down between walls, like the teeth of a comb,
/// from the start at the bottom left: a cheat through the wall between two
/// teeth lands far ahead on the track.
fn comb(height: usize, teeth: usize) -> String {
    let width = 2 * teeth + 1;
    let mut rows: Vec<Vec<u8>> = vec![vec![b'#'; width]; height + 2];
    for t in 0..teeth {
        let c = 2 * t + 1;
        for r in 1..=height {
            rows[r][c] = b'.';
        }
        if t + 1 < teeth {
            // the link to the next tooth: at the top for even teeth, at the bottom for odd
            let r = if t % 2 == 0 { 1 } else { height };
            rows[r][c + 1] = b'.';
        }
    }
    rows[height][1] = b'S';
    let last = 2 * (teeth - 1) + 1;
    let end_row = if (teeth - 1) % 2 == 0 { 1 } else { height };
    rows[end_row][last] = b'E';
    let mut s = String::new();
    for r in rows {
        s.push_str(std::str::from_utf8(&r).unwrap());
        s.push('\n');
    }
    s
}

#[test]
fn day20_comb_track() {
    // 30 teeth, 60 high. Between two teeth that are linked at the top, the
    // cheat at row r saves 2 * (r - 1) steps: at least 100 in the rows 51 to
    // 60. Between two that are linked at the bottom it saves 2 * (60 - r): at
    // least 100 in the rows 1 to 10. There are 29 pairs of neighbours.
    let text = comb(60, 30);
    let one = part_one(&text).unwrap();
    assert_eq!(one, 290);
    let two = part_two(&text).unwrap();
    assert!(two >= one);
}

#[test]
fn day20_track_that_runs_out_of_the_square() {
    // the step down is only taken in the first `columns - 1` rows
    assert_eq!(part_one(&comb(60, 2)), None);
}

#[test]
fn day20_no_start() {
    assert_eq!(part_one("#####\n#..E#\n#####\n"), None);
    assert_eq!(part_two("#####\n#..E#\n#####\n"), None);
}

#[test]
fn day20_field() {
    let lines: Vec<Vec<u8>> = vec![b"####".to_vec(), b"#SE#".to_vec(), b"####".to_vec()];
    let grid = create_space_map_with_positions(&lines, 3, 4).unwrap();
    assert_eq!(grid.cols, 4);
    assert_eq!(grid.start, Some(5));
    assert_eq!(grid.end, Some(6));
    assert_eq!(grid.space.iter().filter(|b| **b).count(), 2);
    assert_eq!(grid.next_move(5), Some(Some(6)));
    assert_eq!(grid.cheat(5), Some([None, None, None, None]));
}
