//! Robots move in straight lines over a floor of 101 by 103 tiles and come
//! back in on the other side when they leave it. The first part multiplies
//! the numbers of robots in the four quadrants after 100 seconds. The second
//! looks for the second at which the robots draw a picture: the drawing of
//! the floor that compresses best.
use vstd::prelude::*;
use vstd::string::StringSliceAdditionalSpecFns;
use crate::text::{views, lines_of, lines, as_i32, parse_i32, copy_range};
use crate::grid::{with_cell, put};
use crate::outside::{first_captures_of, first_captures, zlib_fast_size, compressed_size, Groups};

verus! {

/// The number of columns of the floor.
pub const WIDTH: usize = 101;

/// The number of rows of the floor.
pub const HEIGHT: usize = 103;

/// The last second that is looked at.
pub const MAX_TIME: i32 = 10000;

/// A robot: the tile where it starts, column and row, and the tiles it moves
/// each second.
#[derive(Clone, Copy, Debug)]
pub struct Robot {
    pub start_position: (i32, i32),
    pub velocity: (i32, i32),
}

/// The regular expression that a line describing a robot matches.
pub open spec fn robot_pattern() -> Seq<char> {
    "p=(-?\\d+),(-?\\d+) v=(-?\\d+),(-?\\d+)"@
}

/// The number that group `i` of a match spells.
pub open spec fn group_number(line: Seq<u8>, groups: Groups, i: int) -> Option<i32> {
    if 0 <= i < groups.len() {
        match groups[i] {
            Some(span) => if span.0 <= span.1 <= line.len() {
                as_i32(line.subrange(span.0 as int, span.1 as int))
            } else {
                None
            },
            None => None,
        }
    } else {
        None
    }
}

/// The robot that the groups of a match describe: place and velocity in
/// the groups 1 to 4. `None` where a group is missing or its number does not
/// fit in 32 bits.
pub open spec fn robot_from(line: Seq<u8>, groups: Groups) -> Option<Robot> {
    match (
        group_number(line, groups, 1),
        group_number(line, groups, 2),
        group_number(line, groups, 3),
        group_number(line, groups, 4),
    ) {
        (Some(px), Some(py), Some(vx), Some(vy)) => Some(
            Robot { start_position: (px, py), velocity: (vx, vy) },
        ),
        _ => None,
    }
}

/// The robot that a line describes. `Some(None)` where the line does not
/// match the pattern; `None` where a number of the line does not fit in 32 bits.
pub open spec fn robot_of(line: Seq<u8>) -> Option<Option<Robot>> {
    match first_captures_of(robot_pattern(), line) {
        None => None,
        Some(None) => Some(None),
        Some(Some(groups)) => match robot_from(line, groups) {
            Some(r) => Some(Some(r)),
            None => None,
        },
    }
}

/// The robots that the lines from the `i`-th on describe.
pub open spec fn robots_of(ls: Seq<Seq<u8>>, i: int) -> Option<Seq<Robot>>
    decreases ls.len() - i,
{
    if 0 <= i < ls.len() {
        match (robot_of(ls[i]), robots_of(ls, i + 1)) {
            (Some(r), Some(rest)) => Some(
                (match r {
                    Some(x) => seq![x],
                    None => seq![],
                }) + rest,
            ),
            _ => None,
        }
    } else {
        Some(seq![])
    }
}

/// The number fits in 32 bits with a sign.
pub open spec fn fits(x: int) -> bool {
    i32::MIN <= x <= i32::MAX
}

/// Where a coordinate that starts at `p` and changes by `v` each second is
/// after `t` seconds, on a floor of `size` tiles. `None` where the way there
/// does not fit in 32 bits.
pub open spec fn coordinate(p: i32, v: i32, t: i32, size: int) -> Option<usize> {
    if fits(v * t) && fits(p + v * t) {
        Some(((p + v * t) % size) as usize)
    } else {
        None
    }
}

/// The tile of a robot after `t` seconds: column and row.
pub open spec fn place(r: Robot, t: i32) -> Option<(usize, usize)> {
    match (
        coordinate(r.start_position.0, r.velocity.0, t, WIDTH as int),
        coordinate(r.start_position.1, r.velocity.1, t, HEIGHT as int),
    ) {
        (Some(x), Some(y)) => Some((x, y)),
        _ => None,
    }
}

/// The tiles of the robots from the `i`-th on after `t` seconds.
pub open spec fn places(robots: Seq<Robot>, t: i32, i: int) -> Option<Seq<(usize, usize)>>
    decreases robots.len() - i,
{
    if 0 <= i < robots.len() {
        match (place(robots[i], t), places(robots, t, i + 1)) {
            (Some(p), Some(rest)) => Some(seq![p] + rest),
            _ => None,
        }
    } else {
        Some(seq![])
    }
}

/// The quadrant of a tile: 0 upper left, 1 upper right, 2 lower left, 3
/// lower right; 4 for the tiles on the lines between them.
pub open spec fn quadrant(p: (usize, usize)) -> int {
    if p.0 < 50 && p.1 < 51 {
        0
    } else if p.0 > 50 && p.1 < 51 {
        1
    } else if p.0 < 50 && p.1 > 51 {
        2
    } else if p.0 > 50 && p.1 > 51 {
        3
    } else {
        4
    }
}

/// How many of the tiles from the `i`-th on lie in quadrant `q`.
pub open spec fn in_quadrant(positions: Seq<(usize, usize)>, q: int, i: int) -> nat
    decreases positions.len() - i,
{
    if 0 <= i < positions.len() {
        (if quadrant(positions[i]) == q {
            1nat
        } else {
            0nat
        }) + in_quadrant(positions, q, i + 1)
    } else {
        0
    }
}

/// The product of the numbers of tiles in the four quadrants. `None` where
/// it, or the product of the first two or three, does not fit in a machine word.
pub open spec fn safety(positions: Seq<(usize, usize)>) -> Option<usize> {
    let q1 = in_quadrant(positions, 0, 0);
    let q2 = in_quadrant(positions, 1, 0);
    let q3 = in_quadrant(positions, 2, 0);
    let q4 = in_quadrant(positions, 3, 0);
    if q1 * q2 > usize::MAX || q1 * q2 * q3 > usize::MAX || q1 * q2 * q3 * q4 > usize::MAX {
        None
    } else {
        Some((q1 * q2 * q3 * q4) as usize)
    }
}

/// The answer to the first part for the text `s`.
pub open spec fn answer_one(s: Seq<u8>) -> Option<usize> {
    match robots_of(lines_of(s), 0) {
        None => None,
        Some(robots) => match places(robots, 100, 0) {
            None => None,
            Some(p) => safety(p),
        },
    }
}

/// The floor with a `#` on each of the tiles from the `i`-th on. `None`
/// where a tile lies outside the floor.
pub open spec fn stamped(floor: Seq<Seq<u8>>, positions: Seq<(usize, usize)>, i: int) -> Option<
    Seq<Seq<u8>>,
>
    decreases positions.len() - i,
{
    if 0 <= i < positions.len() {
        match with_cell(floor, positions[i].1 as int, positions[i].0 as int, 35) {
            None => None,
            Some(f) => stamped(f, positions, i + 1),
        }
    } else {
        Some(floor)
    }
}

/// The rows from the `i`-th on, each with a line feed behind it.
pub open spec fn lined(rows: Seq<Seq<u8>>, i: int) -> Seq<u8>
    decreases rows.len() - i,
{
    if 0 <= i < rows.len() {
        rows[i] + seq![10u8] + lined(rows, i + 1)
    } else {
        seq![]
    }
}

/// The drawing of a floor of the given size with the robots on these
/// tiles: `.` for a free tile, `#` for a tile with robots.
pub open spec fn drawing(positions: Seq<(usize, usize)>, width: int, height: int) -> Option<
    Seq<u8>,
> {
    match stamped(
        Seq::new(height as nat, |r: int| Seq::new(width as nat, |c: int| 46u8)),
        positions,
        0,
    ) {
        None => None,
        Some(f) => Some(lined(f, 0)),
    }
}

/// What a drawing of the size `size` means for the search when the
/// smallest seen so far has the size `best_size`: 0 where it is not smaller,
/// 1 where it is smaller, 2 where it is smaller by 15 in 100 or more. Before
/// any drawing was seen, `best_size` is the largest number there is, and
/// nothing is smaller by 15 in 100.
pub open spec fn verdict(size: nat, best_size: usize) -> int {
    if size < best_size {
        if best_size != usize::MAX && size * 100 <= best_size * 85 {
            2
        } else {
            1
        }
    } else {
        0
    }
}

/// The search for the picture, from second `t` down to second 0: a drawing
/// smaller than the smallest seen so far is remembered, and the search ends
/// with it if it is smaller by 15 in 100. `best_size` is the size of the
/// smallest drawing seen, the largest number there is before any was seen;
/// `best_time` is its second.
pub open spec fn picture_time(robots: Seq<Robot>, t: int, best_size: usize, best_time: i32)
    -> Option<i32>
    decreases t + 1,
{
    if 0 <= t <= i32::MAX {
        match places(robots, t as i32, 0) {
            None => None,
            Some(p) => match drawing(p, WIDTH as int, HEIGHT as int) {
                None => None,
                Some(d) => match zlib_fast_size(d) {
                    None => None,
                    Some(size) => if verdict(size, best_size) == 2 {
                        Some(t as i32)
                    } else if verdict(size, best_size) == 1 {
                        picture_time(robots, t - 1, size as usize, t as i32)
                    } else {
                        picture_time(robots, t - 1, best_size, best_time)
                    },
                },
            },
        }
    } else {
        Some(best_time)
    }
}

/// The answer to the second part for the text `s`.
pub open spec fn answer_two(s: Seq<u8>) -> Option<u32> {
    match robots_of(lines_of(s), 0) {
        None => None,
        Some(robots) => match picture_time(robots, MAX_TIME as int, usize::MAX, 0) {
            Some(t) => if t >= 0 {
                Some(t as u32)
            } else {
                None
            },
            None => None,
        },
    }
}

fn read_group(line: &Vec<u8>, groups: &Vec<Option<(usize, usize)>>, i: usize) -> (out: Option<i32>)
    ensures
        out == group_number(line@, groups@, i as int),
{
    if i >= groups.len() {
        return None;
    }
    match groups[i] {
        Some((a, b)) => {
            if a <= b && b <= line.len() {
                let piece = copy_range(line.as_slice(), a, b);
                parse_i32(piece.as_slice())
            } else {
                None
            }
        },
        None => None,
    }
}

/// The robot that the groups of a match in `line` describe.
pub fn robot_from_groups(line: &Vec<u8>, groups: &Vec<Option<(usize, usize)>>) -> (out: Option<
    Robot,
>)
    ensures
        out == robot_from(line@, groups@),
{
    match (
        read_group(line, groups, 1),
        read_group(line, groups, 2),
        read_group(line, groups, 3),
        read_group(line, groups, 4),
    ) {
        (Some(px), Some(py), Some(vx), Some(vy)) => Some(
            Robot { start_position: (px, py), velocity: (vx, vy) },
        ),
        _ => None,
    }
}

/// What a drawing of the size `size` means for the search for the smallest.
pub fn weigh(size: usize, best_size: usize) -> (out: u8)
    ensures
        out == verdict(size as nat, best_size),
{
    if size < best_size {
        if best_size != usize::MAX && (size as u128) * 100 <= (best_size as u128) * 85 {
            2
        } else {
            1
        }
    } else {
        0
    }
}

fn parse_robot(line: &Vec<u8>) -> (out: Option<Option<Robot>>)
    ensures
        out == robot_of(line@),
{
    let groups = match first_captures("p=(-?\\d+),(-?\\d+) v=(-?\\d+),(-?\\d+)", line.as_slice()) {
        None => {
            return None;
        },
        Some(None) => {
            return Some(None);
        },
        Some(Some(g)) => g,
    };
    match robot_from_groups(line, &groups) {
        Some(r) => Some(Some(r)),
        None => None,
    }
}

/// Reads the robots that the text describes.
#[verifier::loop_isolation(false)]
pub fn parse_input(input: &[u8]) -> (out: Option<Vec<Robot>>)
    ensures
        match robots_of(lines_of(input@), 0) {
            Some(rs) => out is Some && out->0@ == rs,
            None => out is None,
        },
{
    let ls = lines(input);
    let ghost all = views(ls@);
    let mut robots: Vec<Robot> = Vec::new();
    let mut i: usize = 0;
    while i < ls.len()
        invariant
            0 <= i <= ls@.len(),
            match robots_of(all, i as int) {
                Some(rest) => robots_of(all, 0) == Some(robots@ + rest),
                None => robots_of(all, 0) is None,
            },
        decreases ls@.len() - i,
    {
        assert(all[i as int] == ls@[i as int]@);
        match parse_robot(&ls[i]) {
            None => {
                return None;
            },
            Some(r) => {
                let ghost before = robots@;
                match r {
                    Some(x) => {
                        robots.push(x);
                    },
                    None => {},
                }
                proof {
                    match robots_of(all, i + 1) {
                        Some(rest) => {
                            assert(robots@ + rest =~= before + ((match r {
                                Some(x) => seq![x],
                                None => seq![],
                            }) + rest));
                        },
                        None => {},
                    }
                }
            },
        }
        i += 1;
    }
    assert(robots@ + Seq::<Robot>::empty() =~= robots@);
    Some(robots)
}

fn wrap(p: i32, v: i32, t: i32, size: i64) -> (out: Option<usize>)
    requires
        size == 101 || size == 103,
    ensures
        out == coordinate(p, v, t, size as int),
{
    assert(i64::MIN <= (v as int) * (t as int) <= i64::MAX) by (nonlinear_arith)
        requires
            -0x8000_0000 <= v <= 0x7fff_ffff,
            -0x8000_0000 <= t <= 0x7fff_ffff,
    ;
    let step: i64 = (v as i64) * (t as i64);
    if step < -2147483648 || step > 2147483647 {
        return None;
    }
    let x: i64 = p as i64 + step;
    if x < -2147483648 || x > 2147483647 {
        return None;
    }
    let m = ((x % size) + size) % size;
    Some(m as usize)
}

/// The tiles of the robots after `t` seconds.
#[verifier::loop_isolation(false)]
pub fn positions_at_time(robots: &Vec<Robot>, t: i32) -> (out: Option<Vec<(usize, usize)>>)
    ensures
        match places(robots@, t, 0) {
            Some(p) => out is Some && out->0@ == p,
            None => out is None,
        },
{
    let mut out: Vec<(usize, usize)> = Vec::new();
    let mut i: usize = 0;
    while i < robots.len()
        invariant
            0 <= i <= robots@.len(),
            match places(robots@, t, i as int) {
                Some(rest) => places(robots@, t, 0) == Some(out@ + rest),
                None => places(robots@, t, 0) is None,
            },
        decreases robots@.len() - i,
    {
        let r = robots[i];
        let x = match wrap(r.start_position.0, r.velocity.0, t, 101) {
            Some(x) => x,
            None => {
                return None;
            },
        };
        let y = match wrap(r.start_position.1, r.velocity.1, t, 103) {
            Some(y) => y,
            None => {
                return None;
            },
        };
        proof {
            match places(robots@, t, i + 1) {
                Some(rest) => {
                    assert(out@.push((x, y)) + rest =~= out@ + (seq![(x, y)] + rest));
                },
                None => {},
            }
        }
        out.push((x, y));
        i += 1;
    }
    assert(out@ + Seq::<(usize, usize)>::empty() =~= out@);
    Some(out)
}

fn which_quadrant(p: (usize, usize)) -> (q: u8)
    ensures
        q == quadrant(p),
{
    if p.0 < 50 && p.1 < 51 {
        0
    } else if p.0 > 50 && p.1 < 51 {
        1
    } else if p.0 < 50 && p.1 > 51 {
        2
    } else if p.0 > 50 && p.1 > 51 {
        3
    } else {
        4
    }
}

proof fn lemma_in_quadrant_bound(positions: Seq<(usize, usize)>, q: int, i: int)
    requires
        0 <= i <= positions.len(),
    ensures
        in_quadrant(positions, q, i) <= positions.len() - i,
    decreases positions.len() - i,
{
    if i < positions.len() {
        lemma_in_quadrant_bound(positions, q, i + 1);
    }
}

/// The product of the numbers of robots in the four quadrants.
#[verifier::loop_isolation(false)]
pub fn quadrant_operation(positions: &Vec<(usize, usize)>) -> (out: Option<usize>)
    ensures
        out == safety(positions@),
{
    let ghost ps = positions@;
    let mut q1: usize = 0;
    let mut q2: usize = 0;
    let mut q3: usize = 0;
    let mut q4: usize = 0;
    let mut i: usize = positions.len();
    while i > 0
        invariant
            0 <= i <= ps.len(),
            q1 == in_quadrant(ps, 0, i as int),
            q2 == in_quadrant(ps, 1, i as int),
            q3 == in_quadrant(ps, 2, i as int),
            q4 == in_quadrant(ps, 3, i as int),
        decreases i,
    {
        proof {
            lemma_in_quadrant_bound(ps, 0, i as int);
            lemma_in_quadrant_bound(ps, 1, i as int);
            lemma_in_quadrant_bound(ps, 2, i as int);
            lemma_in_quadrant_bound(ps, 3, i as int);
        }
        i -= 1;
        let q = which_quadrant(positions[i]);
        if q == 0 {
            q1 += 1;
        } else if q == 1 {
            q2 += 1;
        } else if q == 2 {
            q3 += 1;
        } else if q == 3 {
            q4 += 1;
        }
    }
    let a = match q1.checked_mul(q2) {
        Some(a) => a,
        None => {
            return None;
        },
    };
    let b = match a.checked_mul(q3) {
        Some(b) => b,
        None => {
            return None;
        },
    };
    b.checked_mul(q4)
}

/// The product of the quadrants after 100 seconds.
pub fn part_one(input: &str) -> (out: Option<usize>)
    ensures
        out == answer_one(input.spec_bytes()),
{
    let robots = match parse_input(input.as_bytes()) {
        Some(r) => r,
        None => {
            return None;
        },
    };
    let final_positions = match positions_at_time(&robots, 100) {
        Some(p) => p,
        None => {
            return None;
        },
    };
    quadrant_operation(&final_positions)
}

/// Draws the floor with the robots on it.
#[verifier::loop_isolation(false)]
pub fn render_grid(positions: &Vec<(usize, usize)>, width: usize, height: usize) -> (out: Option<
    Vec<u8>,
>)
    ensures
        match drawing(positions@, width as int, height as int) {
            Some(d) => out is Some && out->0@ == d,
            None => out is None,
        },
{
    let mut grid: Vec<Vec<u8>> = Vec::new();
    let mut r: usize = 0;
    while r < height
        invariant
            0 <= r <= height,
            grid@.len() == r,
            forall|k: int|
                0 <= k < r ==> (#[trigger] grid@[k])@ == Seq::new(width as nat, |c: int| 46u8),
        decreases height - r,
    {
        let mut row: Vec<u8> = Vec::new();
        let mut c: usize = 0;
        while c < width
            invariant
                0 <= c <= width,
                row@.len() == c,
                forall|k: int| 0 <= k < c ==> row@[k] == 46,
            decreases width - c,
        {
            row.push(46u8);
            c += 1;
        }
        assert(row@ =~= Seq::new(width as nat, |c: int| 46u8));
        grid.push(row);
        r += 1;
    }
    let ghost blank = Seq::new(height as nat, |r: int| Seq::new(width as nat, |c: int| 46u8));
    assert(views(grid@) =~= blank);
    let ghost goal = stamped(blank, positions@, 0);
    let mut i: usize = 0;
    while i < positions.len()
        invariant
            0 <= i <= positions@.len(),
            stamped(views(grid@), positions@, i as int) == goal,
        decreases positions@.len() - i,
    {
        let (x, y) = positions[i];
        if !put(&mut grid, y, x, 35u8) {
            return None;
        }
        i += 1;
    }
    let ghost rows = views(grid@);
    let mut output: Vec<u8> = Vec::new();
    let mut k: usize = 0;
    while k < grid.len()
        invariant
            0 <= k <= grid@.len(),
            rows == views(grid@),
            output@ + lined(rows, k as int) == lined(rows, 0),
        decreases grid@.len() - k,
    {
        let ghost before = output@;
        let row = &grid[k];
        assert(rows[k as int] == row@);
        let mut j: usize = 0;
        while j < row.len()
            invariant
                0 <= j <= row@.len(),
                output@ == before + row@.take(j as int),
            decreases row@.len() - j,
        {
            output.push(row[j]);
            j += 1;
            assert(output@ =~= before + row@.take(j as int));
        }
        assert(row@.take(j as int) =~= row@);
        output.push(10u8);
        assert(output@ + lined(rows, k + 1) =~= before + (row@ + seq![10u8] + lined(rows, k + 1)));
        k += 1;
    }
    assert(output@ + Seq::<u8>::empty() =~= output@);
    Some(output)
}

/// Looks for the second, from `max_time` down, at which the drawing of the
/// floor compresses best.
#[verifier::loop_isolation(false)]
pub fn find_best_time_for_pattern(robots: &Vec<Robot>, max_time: i32) -> (out: Option<i32>)
    ensures
        out == picture_time(robots@, max_time as int, usize::MAX, 0),
{
    let mut best_time: i32 = 0;
    let mut best_size: usize = usize::MAX;
    let mut t: i32 = max_time;
    while t >= 0
        invariant
            -1 <= t || t == max_time,
            picture_time(robots@, t as int, best_size, best_time) == picture_time(
                robots@,
                max_time as int,
                usize::MAX,
                0,
            ),
        decreases t + 1,
    {
        let pos = match positions_at_time(robots, t) {
            Some(p) => p,
            None => {
                return None;
            },
        };
        let rendered = match render_grid(&pos, WIDTH, HEIGHT) {
            Some(r) => r,
            None => {
                return None;
            },
        };
        let size = match compressed_size(rendered.as_slice()) {
            Some(s) => s,
            None => {
                return None;
            },
        };
        let w = weigh(size, best_size);
        if w == 2 {
            return Some(t);
        }
        if w == 1 {
            best_size = size;
            best_time = t;
        }
        t -= 1;
    }
    Some(best_time)
}

/// The second at which the robots draw a picture.
pub fn part_two(input: &str) -> (out: Option<u32>)
    ensures
        out == answer_two(input.spec_bytes()),
{
    let robots = match parse_input(input.as_bytes()) {
        Some(r) => r,
        None => {
            return None;
        },
    };
    match find_best_time_for_pattern(&robots, MAX_TIME) {
        Some(t) => if t >= 0 {
            Some(t as u32)
        } else {
            None
        },
        None => None,
    }
}

/// A robot is on the floor at every second.
pub proof fn lemma_robot_stays_on_floor(r: Robot, t: i32)
    ensures
        place(r, t) matches Some(p) ==> p.0 < WIDTH && p.1 < HEIGHT,
{
}

} // verus!
