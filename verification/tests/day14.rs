use advent_puzzles::day14::{
    find_best_time_for_pattern, parse_input, part_one, part_two, positions_at_time,
    quadrant_operation, render_grid, robot_from_groups, weigh, Robot,
};

#[test]
fn day14_parse() {
    let robots = parse_input(b"p=0,4 v=3,-3\nnothing here\nxx p=-6,3 v=-1,-3 yy\n").unwrap();
    assert_eq!(robots.len(), 2);
    assert_eq!(robots[0].start_position, (0, 4));
    assert_eq!(robots[0].velocity, (3, -3));
    assert_eq!(robots[1].start_position, (-6, 3));
    assert_eq!(robots[1].velocity, (-1, -3));
    assert!(parse_input(b"p=99999999999,4 v=3,-3\n").is_none());
}

#[test]
fn day14_positions_wrap_round() {
    let robots = vec![
        Robot { start_position: (2, 4), velocity: (2, -3) },
        Robot { start_position: (100, 102), velocity: (1, 1) },
        Robot { start_position: (0, 0), velocity: (-1, -1) },
    ];
    assert_eq!(positions_at_time(&robots, 0), Some(vec![(2, 4), (100, 102), (0, 0)]));
    assert_eq!(positions_at_time(&robots, 1), Some(vec![(4, 1), (0, 0), (100, 102)]));
    assert_eq!(positions_at_time(&robots, 2), Some(vec![(6, 101), (1, 1), (99, 101)]));
    let fast = vec![Robot { start_position: (0, 0), velocity: (i32::MAX, 0) }];
    assert_eq!(positions_at_time(&fast, 2), None);
}

#[test]
fn day14_quadrants() {
    let positions = vec![(0, 0), (49, 50), (51, 0), (0, 52), (100, 102), (60, 60), (50, 10), (10, 51)];
    assert_eq!(quadrant_operation(&positions), Some(2 * 1 * 1 * 2));
    assert_eq!(quadrant_operation(&vec![]), Some(0));
}

#[test]
fn day14_part_one() {
    // after 100 seconds: (1, 1), (99, 1), (1, 101), (98, 100), one on the
    // middle column, and (1, 1) once more
    let text = "p=1,1 v=0,0\np=99,1 v=0,0\np=1,101 v=0,0\np=98,100 v=101,103\np=50,7 v=0,0\np=0,1 v=-1,0\n";
    assert_eq!(part_one(text), Some(2));
    assert_eq!(part_one(""), Some(0));
}

#[test]
fn day14_drawing() {
    let d = render_grid(&vec![(1, 0), (2, 1), (1, 0)], 3, 2).unwrap();
    assert_eq!(d, b".#.\n..#\n".to_vec());
    assert!(render_grid(&vec![(3, 0)], 3, 2).is_none());
}

/// Robots that stand in a block at second 7 and are scattered at every other second.
fn block_at_seven() -> Vec<Robot> {
    let mut robots = Vec::new();
    let mut seed: u64 = 12345;
    for i in 0..400i32 {
        seed = seed.wrapping_mul(6364136223846793005).wrapping_add(1442695040888963407);
        let vx = ((seed >> 33) % 99) as i32 + 1;
        seed = seed.wrapping_mul(6364136223846793005).wrapping_add(1442695040888963407);
        let vy = ((seed >> 33) % 101) as i32 + 1;
        let x = 30 + i % 20;
        let y = 40 + i / 20;
        robots.push(Robot {
            start_position: ((x - 7 * vx).rem_euclid(101), (y - 7 * vy).rem_euclid(103)),
            velocity: (vx, vy),
        });
    }
    robots
}

#[test]
fn day14_picture() {
    let robots = block_at_seven();
    assert_eq!(find_best_time_for_pattern(&robots, 40), Some(7));
}

#[test]
fn day14_robots_at_rest_draw_the_same_every_second() {
    assert_eq!(part_two("p=1,1 v=0,0\np=5,5 v=0,0\n"), Some(10000));
}

#[test]
fn day14_robot_from_the_groups_of_a_match() {
    let line = b"p=0,4 v=3,-3".to_vec();
    let groups = vec![Some((0, 12)), Some((2, 3)), Some((4, 5)), Some((8, 9)), Some((10, 12))];
    let robot = robot_from_groups(&line, &groups).unwrap();
    assert_eq!(robot.start_position, (0, 4));
    assert_eq!(robot.velocity, (3, -3));
    // a group that took no part, a span outside the line, too few groups
    let groups = vec![Some((0, 12)), Some((2, 3)), None, Some((8, 9)), Some((10, 12))];
    assert!(robot_from_groups(&line, &groups).is_none());
    let groups = vec![Some((0, 12)), Some((2, 3)), Some((4, 5)), Some((8, 9)), Some((10, 13))];
    assert!(robot_from_groups(&line, &groups).is_none());
    let groups = vec![Some((0, 12)), Some((2, 3)), Some((4, 5)), Some((8, 9))];
    assert!(robot_from_groups(&line, &groups).is_none());
    // a number that does not fit in 32 bits
    let line = b"p=2147483648,4 v=3,-3".to_vec();
    let groups = vec![Some((0, 21)), Some((2, 12)), Some((13, 14)), Some((17, 18)), Some((19, 21))];
    assert!(robot_from_groups(&line, &groups).is_none());
}

#[test]
fn day14_weighing_of_sizes() {
    assert_eq!(weigh(500, usize::MAX), 1);
    assert_eq!(weigh(500, 500), 0);
    assert_eq!(weigh(501, 500), 0);
    assert_eq!(weigh(499, 500), 1);
    assert_eq!(weigh(425, 500), 2);
    assert_eq!(weigh(426, 500), 1);
    assert_eq!(weigh(0, 1), 2);
}
