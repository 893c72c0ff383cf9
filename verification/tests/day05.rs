use advent_puzzles::day05::{has_rule, is_in_order, part_one, part_two, put_in_order};

const EXAMPLE: &str = "47|53
97|13
97|61
97|47
75|29
61|13
75|53
29|13
97|29
53|29
61|53
97|53
61|29
47|13
75|47
97|75
47|61
75|61
47|29
75|13
53|13

75,47,61,53,29
97,61,53,29,13
75,29,13
75,97,47,61,53
61,13,29
97,13,75,29,47
";

#[test]
fn day05_test_part_one() {
    let result = part_one(EXAMPLE);
    assert_eq!(result, Some(143));
}

#[test]
fn day05_test_part_two() {
    let result = part_two(EXAMPLE);
    assert_eq!(result, Some(123));
}

#[test]
fn day05_order() {
    let rules = vec![(1, 2), (2, 3), (1, 3)];
    assert!(has_rule(&rules, 1, 2));
    assert!(!has_rule(&rules, 2, 1));
    assert!(is_in_order(&rules, &vec![1, 2, 3]));
    assert!(is_in_order(&rules, &vec![1, 7, 3]));
    assert!(!is_in_order(&rules, &vec![3, 1]));
    assert!(is_in_order(&rules, &vec![]));
    assert_eq!(put_in_order(&rules, &vec![3, 2, 1]), Some(vec![1, 2, 3]));
    assert_eq!(put_in_order(&rules, &vec![2, 3, 1]), Some(vec![1, 2, 3]));
    // a page that no rule names cannot be put in its place
    assert_eq!(put_in_order(&rules, &vec![3, 9, 1]), None);
}

#[test]
fn day05_malformed() {
    assert_eq!(part_one("1|2\n"), None);
    assert_eq!(part_one("1|2\n\n1,x\n"), None);
    assert_eq!(part_one("1-2\n\n1,2\n"), None);
    assert_eq!(part_one("1|2\n\n1,2\n\n"), None);
}

#[test]
fn day05_spaces_round_pages() {
    assert_eq!(part_one("1|2\n\n1, 5 ,2\n"), Some(5));
    assert_eq!(part_two("1|2\n5|1\n5|2\n\n2, 5 ,1\n"), Some(1));
}
