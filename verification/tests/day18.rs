use advent_puzzles::day18::{part_one, part_two, path_reachable, shortest_path};

fn repeated(line: &str, times: usize) -> String {
    let mut s = String::new();
    for _ in 0..times {
        s.push_str(line);
        s.push('\n');
    }
    s
}

#[test]
fn day18_open_memory_takes_140_steps() {
    let input = repeated("1,1", 1024);
    assert_eq!(part_one(&input), Some(140));
}

#[test]
fn day18_too_few_bytes() {
    let input = repeated("1,1", 1023);
    assert_eq!(part_one(&input), None);
}

#[test]
fn day18_byte_outside_the_memory() {
    let mut input = repeated("1,1", 1023);
    input.push_str("71,0\n");
    assert_eq!(part_one(&input), None);
}

#[test]
fn day18_malformed_line() {
    let mut input = repeated("1,1", 1024);
    input.push_str("7\n");
    assert_eq!(part_one(&input), None);
    assert_eq!(part_two(&input), None);
}

#[test]
fn day18_walled_corner_has_no_path() {
    let mut input = String::from("70,69\n69,70\n");
    input.push_str(&repeated("1,1", 1022));
    assert_eq!(part_one(&input), None);
}

#[test]
fn day18_detour_round_a_wall() {
    // a wall across row 1 that leaves only the last column free
    let mut input = String::new();
    for c in 0..70 {
        input.push_str(&format!("1,{}\n", c));
    }
    input.push_str(&repeated("1,0", 1024 - 70));
    assert_eq!(part_one(&input), Some(140));
    // and one that leaves only the first column free, with a second wall
    // below it that leaves only the last column free
    let mut input = String::new();
    for c in 1..71 {
        input.push_str(&format!("1,{}\n", c));
    }
    for c in 0..70 {
        input.push_str(&format!("3,{}\n", c));
    }
    input.push_str(&repeated("1,1", 1024 - 140));
    assert_eq!(part_one(&input), Some(140));
    let mut input = String::new();
    for c in 0..70 {
        input.push_str(&format!("1,{}\n", c));
    }
    for c in 1..71 {
        input.push_str(&format!("3,{}\n", c));
    }
    input.push_str(&repeated("1,1", 1024 - 140));
    assert_eq!(part_one(&input), Some(140 + 140));
}

#[test]
fn day18_first_cutting_byte() {
    let mut input = repeated("1,1", 1024);
    input.push_str("5,5\n70,69\n12,13\n69,70\n30,30\n");
    assert_eq!(part_two(&input), Some("69,70".to_string()));
}

#[test]
fn day18_never_cut() {
    let mut input = repeated("1,1", 1024);
    input.push_str("5,5\n70,69\n");
    assert_eq!(part_two(&input), None);
}

#[test]
fn day18_path_reachable_counts_the_byte_at_the_limit() {
    let points: Vec<(u32, u32)> = vec![(0, 1), (1, 0), (5, 5)];
    assert!(path_reachable(&points, 0, 71, 71, (0, 0)));
    assert!(!path_reachable(&points, 1, 71, 71, (0, 0)));
    assert!(!path_reachable(&points, 2, 71, 71, (0, 0)));
}

#[test]
fn day18_shortest_path_on_given_places() {
    let mut open = vec![true; 5041];
    open[0] = false;
    assert_eq!(shortest_path(&open, 71, 0, 5040), Some(140));
    open[1] = false;
    open[71] = false;
    assert_eq!(shortest_path(&open, 71, 0, 5040), None);
}

#[test]
fn day18_other_sizes_and_starts() {
    // one byte, far from everything
    let points: Vec<(u32, u32)> = vec![(5, 5)];
    assert!(path_reachable(&points, 0, 71, 71, (0, 0)));
    assert!(path_reachable(&points, 0, 80, 75, (79, 74)));
    // the walk may begin at the place looked for
    assert!(path_reachable(&points, 0, 71, 71, (70, 70)));
    // a memory too small to have row 70 and column 70
    assert!(!path_reachable(&points, 0, 70, 71, (0, 0)));
    assert!(!path_reachable(&points, 0, 71, 70, (0, 0)));
    // a wall across row 1 cuts the rows above off, not those below
    let wall: Vec<(u32, u32)> = (0..71).map(|c| (1, c)).collect();
    assert!(!path_reachable(&wall, 70, 71, 71, (0, 0)));
    assert!(path_reachable(&wall, 69, 71, 71, (0, 0)));
    assert!(path_reachable(&wall, 70, 71, 71, (2, 0)));
    // a byte on the place looked for
    let corner: Vec<(u32, u32)> = vec![(70, 70)];
    assert!(!path_reachable(&corner, 0, 71, 71, (0, 0)));
}

#[test]
fn day18_shortest_path_in_a_small_memory() {
    // three rows of four places, the middle row free only at its end
    let open = vec![
        true, true, true, true,
        false, false, false, true,
        true, true, true, true,
    ];
    assert_eq!(shortest_path(&open, 4, 0, 8), Some(8));
    assert_eq!(shortest_path(&open, 4, 0, 0), Some(0));
    assert_eq!(shortest_path(&open, 4, 0, 5), None);
    assert_eq!(shortest_path(&open, 4, 8, 0), Some(8));
}
