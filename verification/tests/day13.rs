use advent_puzzles::day13::{
    count_tokens, find_solutions_cramer, parse_machine_inputs, part_one, part_two, Machine,
};

const EXAMPLE: &str = "Button A: X+94, Y+34
Button B: X+22, Y+67
Prize: X=8400, Y=5400

Button A: X+26, Y+66
Button B: X+67, Y+21
Prize: X=12748, Y=12176

Button A: X+17, Y+86
Button B: X+84, Y+37
Prize: X=7870, Y=6450

Button A: X+69, Y+23
Button B: X+27, Y+71
Prize: X=18641, Y=10279
";

#[test]
fn day13_test_part_one() {
    let result = part_one(EXAMPLE);
    assert_eq!(result, Some(480));
}

#[test]
fn day13_test_part_two() {
    let result = part_two(EXAMPLE);
    assert_eq!(result, Some(875318608908));
}

#[test]
fn day13_parses_the_machines() {
    let machines = parse_machine_inputs(EXAMPLE.as_bytes(), false).unwrap();
    assert_eq!(machines.len(), 4);
    assert_eq!(machines[0].button_a, (94, 34));
    assert_eq!(machines[0].button_b, (22, 67));
    assert_eq!(machines[0].prize, (8400, 5400));
    let far = parse_machine_inputs(EXAMPLE.as_bytes(), true).unwrap();
    assert_eq!(far[3].prize, (10000000018641, 10000000010279));
}

#[test]
fn day13_block_without_numbers_is_passed_over() {
    let input = "Button A: X+1, Y+0\nButton B: X+0, Y+1\nPrize: X=2, Y=3\n\nhello\n";
    assert_eq!(part_one(input), Some(2 * 3 + 3));
}

#[test]
fn day13_block_with_a_missing_line_has_no_answer() {
    let input = "Button A: X+1, Y+0\nButton B: X+0, Y+1\n";
    assert_eq!(part_one(input), None);
    assert_eq!(part_one(""), None);
}

#[test]
fn day13_cramer() {
    let m = Machine { button_a: (94, 34), button_b: (22, 67), prize: (8400, 5400) };
    assert_eq!(find_solutions_cramer(&m), Some(vec![(80, 40)]));
    let m = Machine { button_a: (26, 66), button_b: (67, 21), prize: (12748, 12176) };
    assert_eq!(find_solutions_cramer(&m), Some(vec![]));
    // parallel buttons
    let m = Machine { button_a: (1, 1), button_b: (2, 2), prize: (3, 3) };
    assert_eq!(find_solutions_cramer(&m), Some(vec![]));
    // a press count of zero does not count as a way
    let m = Machine { button_a: (1, 0), button_b: (0, 1), prize: (0, 5) };
    assert_eq!(find_solutions_cramer(&m), Some(vec![]));
    // negative determinant
    let m = Machine { button_a: (0, 1), button_b: (1, 0), prize: (5, 7) };
    assert_eq!(find_solutions_cramer(&m), Some(vec![(7, 5)]));
    // a product that does not fit
    let m = Machine { button_a: (i128::MAX, 1), button_b: (1, 2), prize: (1, 1) };
    assert_eq!(find_solutions_cramer(&m), None);
}

#[test]
fn day13_count_tokens() {
    assert_eq!(count_tokens(&vec![]), Some(0));
    assert_eq!(count_tokens(&vec![(80, 40)]), Some(280));
    assert_eq!(count_tokens(&vec![(80, 40), (1, 2), (3, 0)]), Some(5));
    assert_eq!(count_tokens(&vec![(i128::MAX, 0)]), None);
}
