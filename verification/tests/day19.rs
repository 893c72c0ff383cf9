use advent_puzzles::day19::{count_designs, design_possible, part_one, part_two};

fn count(patterns: &Vec<Vec<u8>>, design: &Vec<u8>) -> Option<u64> {
    let mut memo = vec![None; design.len() + 1];
    count_designs(patterns, design, 0, &mut memo)
}

fn possible(patterns: &Vec<Vec<u8>>, design: &Vec<u8>) -> bool {
    let mut memo = vec![None; design.len() + 1];
    design_possible(patterns, design, 0, &mut memo)
}


const EXAMPLE: &str = "r, wr, b, g, bwu, rb, gb, br

brwrr
bggr
gbbr
rrbgbr
ubwu
bwurrg
brgr
bbrgwb
";

#[test]
fn day19_test_part_one() {
    let result = part_one(EXAMPLE);
    assert_eq!(result, Some(6));
}

#[test]
fn day19_test_part_two() {
    let result = part_two(EXAMPLE);
    assert_eq!(result, Some(16));
}

fn patterns() -> Vec<Vec<u8>> {
    ["r", "wr", "b", "g", "bwu", "rb", "gb", "br"].iter().map(|p| p.as_bytes().to_vec()).collect()
}

#[test]
fn day19_single_designs() {
    let p = patterns();
    assert_eq!(count(&p, &b"brwrr".to_vec()), Some(2));
    assert_eq!(count(&p, &b"gbbr".to_vec()), Some(4));
    assert_eq!(count(&p, &b"rrbgbr".to_vec()), Some(6));
    assert_eq!(count(&p, &b"ubwu".to_vec()), Some(0));
    assert_eq!(count(&p, &b"".to_vec()), Some(1));
    assert!(possible(&p, &b"bwurrg".to_vec()));
    assert!(!possible(&p, &b"bbrgwb".to_vec()));
}

#[test]
fn day19_pattern_named_twice_counts_twice() {
    let p = vec![b"a".to_vec(), b"a".to_vec()];
    assert_eq!(count(&p, &b"aaa".to_vec()), Some(8));
}

#[test]
fn day19_more_ways_than_fit() {
    let p = vec![b"a".to_vec(), b"a".to_vec()];
    let design = vec![b'a'; 64];
    assert_eq!(count(&p, &design), None);
    assert!(possible(&p, &design));
    let design = vec![b'a'; 63];
    assert_eq!(count(&p, &design), Some(1 << 63));
}

#[test]
fn day19_no_designs_section() {
    assert_eq!(part_one("r, b\n"), None);
    assert_eq!(part_two("r, b\n"), None);
    assert_eq!(part_one("r, b\n\n"), Some(0));
}

#[test]
fn day19_tables_are_filled() {
    let p: Vec<Vec<u8>> = vec![b"a".to_vec(), b"aa".to_vec(), b"b".to_vec()];
    let design = b"aaab".to_vec();
    let mut memo = vec![None; 5];
    assert_eq!(count_designs(&p, &design, 1, &mut memo), Some(2));
    assert_eq!(memo, vec![None, Some(2), Some(1), Some(1), Some(1)]);
    assert_eq!(count_designs(&p, &design, 0, &mut memo), Some(3));
    assert_eq!(memo[0], Some(3));
    assert_eq!(count_designs(&p, &design, 4, &mut memo), Some(1));
    let design = b"aac".to_vec();
    let mut flags = vec![None; 4];
    assert!(!design_possible(&p, &design, 0, &mut flags));
    assert_eq!(flags, vec![Some(false), Some(false), Some(false), None]);
    assert!(design_possible(&p, &design, 3, &mut flags));
}
