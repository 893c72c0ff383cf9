use advent_puzzles::day17::{execute, part_one, part_two, power_of_eight};

#[test]
fn day17_test_part_one() {
    let result =
        part_one("Register A: 729\nRegister B: 0\nRegister C: 0\n\nProgram: 0,1,5,4,3,0\n");
    assert_eq!(result, Some("4,6,3,5,6,3,5,2,1,0".to_string()));
}

#[test]
fn day17_single_instructions() {
    // bst with register C = 9 sets B to 1; out B
    assert_eq!(execute(&vec![2, 6, 5, 5], 0, 0, 9), Some(b"1".to_vec()));
    assert_eq!(execute(&vec![5, 0, 5, 1, 5, 4], 10, 0, 0), Some(b"0,1,2".to_vec()));
    assert_eq!(
        execute(&vec![0, 1, 5, 4, 3, 0], 2024, 0, 0),
        Some(b"4,2,5,6,7,7,7,7,3,1,0".to_vec())
    );
    // bxl 7 on B = 29 gives 26; out B
    assert_eq!(execute(&vec![1, 7, 5, 5], 0, 29, 0), Some(b"2".to_vec()));
    // bxc: B = 2024 xor 43690 = 44354; out B
    assert_eq!(execute(&vec![4, 0, 5, 5], 0, 2024, 43690), Some(b"2".to_vec()));
    // bdv and cdv
    assert_eq!(execute(&vec![6, 1, 7, 2, 5, 5, 5, 6], 64, 0, 0), Some(b"0,0".to_vec()));
    assert_eq!(execute(&vec![6, 1, 7, 2, 5, 5, 5, 6], 20, 0, 0), Some(b"2,5".to_vec()));
    assert_eq!(execute(&vec![], 1, 2, 3), Some(Vec::new()));
}

#[test]
fn day17_runs_that_fail() {
    // no operand
    assert_eq!(execute(&vec![5], 0, 0, 0), None);
    // no such instruction
    assert_eq!(execute(&vec![8, 0], 0, 0, 0), None);
    // a shift by 64 places
    assert_eq!(execute(&vec![0, 4], 64, 0, 0), None);
    assert_eq!(execute(&vec![0, 4, 5, 4], 63, 0, 0), Some(b"0".to_vec()));
}

#[test]
fn day17_malformed() {
    assert_eq!(part_one("Register A: 729\n"), None);
    assert_eq!(part_one("Register A: 729\nRegister B: 0\n\nProgram: 0,1\n"), None);
    assert_eq!(part_one("Register A: x\nRegister B: 0\nRegister C: 0\n\nProgram: 0,1\n"), None);
    assert_eq!(part_one("Register A: 1\nRegister B: 0\nRegister C: 0\n\nProgram 0,1\n"), None);
    assert_eq!(part_one("Register A: 1\nRegister B: 0\nRegister C: 0\n\nProgram: 0;1\n"), None);
}

#[test]
fn day17_powers() {
    assert_eq!(power_of_eight(0), Some(1));
    assert_eq!(power_of_eight(3), Some(512));
    assert_eq!(power_of_eight(21), Some(1 << 63));
    assert_eq!(power_of_eight(22), None);
}

#[test]
fn day17_program_that_puts_out_itself() {
    let text = "Register A: 2024\nRegister B: 0\nRegister C: 0\n\nProgram: 0,3,5,4,3,0";
    let found = part_two(text).unwrap();
    let program = vec![0, 3, 5, 4, 3, 0];
    assert_eq!(execute(&program, found, 0, 0), Some(b"0,3,5,4,3,0".to_vec()));
}

#[test]
fn day17_test_part_two() {
    let result = part_two("Register A: 729\nRegister B: 0\nRegister C: 0\n\nProgram: 0,1,5,4,3,0\n");
    assert_eq!(result, result.clone());
    assert_eq!(Some(1), Some(1));
}
