use advent_puzzles::day25::{add_vectors, is_filled, part_one, part_two};

const EXAMPLE: &str = "#####
.####
.####
.####
.#.#.
.#...
.....

#####
##.##
.#.##
...##
...#.
...#.
.....

.....
#....
#....
#...#
#.#.#
#.###
#####

.....
.....
#.#..
###..
###.#
###.#
#####

.....
.....
.....
#....
#.#..
#.#.#
#####
";

#[test]
fn day25_example() {
    assert_eq!(part_one(EXAMPLE), Some(3));
}

#[test]
fn day25_test_part_two() {
    let result = part_two(EXAMPLE);
    assert_eq!(result, None);
}

#[test]
fn day25_heights() {
    let lock: Vec<Vec<u8>> =
        "#####\n.####\n.####\n.####\n.#.#.\n.#...\n.....".lines().map(|l| l.as_bytes().to_vec()).collect();
    assert_eq!(is_filled(&lock), Some(vec![0, 5, 3, 4, 3]));
    let key: Vec<Vec<u8>> =
        ".....\n#....\n#....\n#...#\n#.#.#\n#.###\n#####".lines().map(|l| l.as_bytes().to_vec()).collect();
    assert_eq!(is_filled(&key), Some(vec![5, 0, 2, 1, 3]));
    // a short line shortens the count
    let short: Vec<Vec<u8>> = vec![b"###".to_vec(), b"#####".to_vec()];
    assert_eq!(is_filled(&short), Some(vec![1, 1, 1]));
    assert_eq!(is_filled(&vec![]), Some(vec![0, 0, 0, 0, 0]));
}

#[test]
fn day25_add_vectors() {
    assert_eq!(add_vectors(&vec![1, 2, 3], &vec![10, 20, 30]), Some(vec![11, 22, 33]));
    assert_eq!(add_vectors(&vec![1, 2, 3], &vec![10]), Some(vec![11]));
    assert_eq!(add_vectors(&vec![200], &vec![56]), None);
    assert_eq!(add_vectors(&vec![200], &vec![55]), Some(vec![255]));
}

#[test]
fn day25_empty_schematic() {
    assert_eq!(part_one(""), None);
    assert_eq!(part_one("#####\n.....\n\n"), None);
}
