use advent_puzzles::day03::{add_products, part_one, part_two};

#[test]
fn day03_test_part_one() {
    let result =
        part_one("xmul(2,4)%&mul[3,7]!@^do_not_mul(5,5)+mul(32,64]then(mul(11,8)mul(8,5))\n");
    assert_eq!(result, Some(161));
}

#[test]
fn day03_test_part_two() {
    let result =
        part_two("xmul(2,4)&mul[3,7]!^don't()_mul(5,5)+mul(32,64](mul(11,8)undo()?mul(8,5))\n");
    assert_eq!(result, Some(48));
}

#[test]
fn day03_switched_off_to_the_end() {
    assert_eq!(part_two("mul(2,3)don't()mul(5,5)\nmul(7,7)"), Some(6));
    assert_eq!(part_two("mul(2,3)don't()mul(5,5)do()mul(1,9)don't()mul(2,2)"), Some(15));
}

#[test]
fn day03_line_feeds_are_taken_out_first() {
    assert_eq!(part_one("mu\nl(2,3)"), Some(0));
    assert_eq!(part_two("mu\nl(2,3)"), Some(6));
}

#[test]
fn day03_number_too_large_is_passed_over() {
    assert_eq!(part_one("mul(4294967296,1)mul(3,3)"), Some(9));
    assert_eq!(part_one("mul(4294967295,1)"), Some(4294967295));
}

#[test]
fn day03_product_or_sum_too_large() {
    assert_eq!(part_one("mul(65536,65536)"), None);
    assert_eq!(part_one("mul(4294967295,1)mul(1,1)"), None);
}

#[test]
fn day03_nothing_to_multiply() {
    assert_eq!(part_one(""), Some(0));
    assert_eq!(part_one("mul (1,2) mul(1, 2)"), Some(0));
}

#[test]
fn day03_add_products_of_given_matches() {
    let text = b"mul(12,3)..mul(2,2)";
    let found = vec![
        vec![Some((0, 9)), Some((4, 6)), Some((7, 8))],
        vec![Some((11, 19)), Some((15, 16)), Some((17, 18))],
    ];
    assert_eq!(add_products(text, &found), Some(40));
    // a group that took no part
    let found = vec![vec![Some((0, 9)), None, Some((7, 8))]];
    assert_eq!(add_products(text, &found), None);
    // a span outside the text
    let found = vec![vec![Some((0, 9)), Some((4, 60)), Some((7, 8))]];
    assert_eq!(add_products(text, &found), None);
}
