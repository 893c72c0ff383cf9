//! A robot pushes crates around a warehouse, first in a warehouse of plain
//! crates, then in one drawn twice as wide, where a crate takes two places and
//! may push two others at once.
//!
//! A move that would read or write outside the map ends the run without an
//! answer, and so does a byte among the moves that is no direction.
use vstd::prelude::*;
use vstd::string::StringSliceAdditionalSpecFns;
use crate::text::{views, lines_of, lines, split_once_seq, split_once, joined, join};
use crate::grid::{cell, with_cell, shifted, get, put, shift, get_rel, put_rel};

verus! {

/// The sign of a wall: `#`.
pub const WALL: u8 = 35;

/// The sign of a free place: `.`.
pub const EMPTY: u8 = 46;

/// The sign of the robot: `@`.
pub const ROBOT: u8 = 64;

/// The sign of a plain crate: `O`.
pub const CRATE: u8 = 79;

/// The sign of the left half of a wide crate: `[`.
pub const CRATE_LEFT: u8 = 91;

/// The sign of the right half of a wide crate: `]`.
pub const CRATE_RIGHT: u8 = 93;

/// The direction of a move.
#[derive(Clone, Copy, Debug)]
pub enum Heading {
    Up,
    Down,
    Left,
    Right,
}

impl Heading {
    /// The change of row of one step.
    pub open spec fn dr(self) -> int {
        match self {
            Heading::Up => -1,
            Heading::Down => 1,
            _ => 0,
        }
    }

    /// The change of column of one step.
    pub open spec fn dc(self) -> int {
        match self {
            Heading::Left => -1,
            Heading::Right => 1,
            _ => 0,
        }
    }

    /// The change of row of one step.
    pub fn row_step(self) -> (d: i8)
        ensures
            d == self.dr(),
    {
        match self {
            Heading::Up => -1,
            Heading::Down => 1,
            _ => 0,
        }
    }

    /// The change of column of one step.
    pub fn col_step(self) -> (d: i8)
        ensures
            d == self.dc(),
    {
        match self {
            Heading::Left => -1,
            Heading::Right => 1,
            _ => 0,
        }
    }
}

/// The direction that a byte of the list of moves stands for.
pub open spec fn heading_of(b: u8) -> Option<Heading> {
    if b == 94 {
        Some(Heading::Up)
    } else if b == 118 {
        Some(Heading::Down)
    } else if b == 60 {
        Some(Heading::Left)
    } else if b == 62 {
        Some(Heading::Right)
    } else {
        None
    }
}

/// The direction that a byte of the list of moves stands for.
pub fn read_heading(b: u8) -> (h: Option<Heading>)
    ensures
        h == heading_of(b),
{
    if b == 94 {
        Some(Heading::Up)
    } else if b == 118 {
        Some(Heading::Down)
    } else if b == 60 {
        Some(Heading::Left)
    } else if b == 62 {
        Some(Heading::Right)
    } else {
        None
    }
}

/// A warehouse: its map, and the place where the robot is taken to stand.
pub struct Floor {
    pub cells: Seq<Seq<u8>>,
    pub row: int,
    pub col: int,
}

/// The warehouse that a map and the robot's place make.
pub open spec fn floor_of(map: Seq<Vec<u8>>, pos: (usize, usize)) -> Floor {
    Floor { cells: views(map), row: pos.0 as int, col: pos.1 as int }
}

/// The robot leaves its place empty and stands at `(nr, nc)`.
pub open spec fn robot_moved(f: Floor, nr: int, nc: int) -> Option<Floor> {
    match with_cell(f.cells, f.row, f.col, EMPTY) {
        None => None,
        Some(g) => match with_cell(g, nr, nc, ROBOT) {
            None => None,
            Some(g2) => Some(Floor { cells: g2, row: nr, col: nc }),
        },
    }
}

/// Where the search for a free place ahead of the robot ends, on a map
/// taken to have `rows` rows and `cols` columns: the places at distance 1 up
/// to this limit, not included, are looked at.
pub open spec fn scan_limit(f: Floor, rows: int, cols: int, h: Heading) -> int {
    match h {
        Heading::Up => f.row + 1,
        Heading::Down => rows - f.row,
        Heading::Left => f.col + 1,
        Heading::Right => cols - f.col,
    }
}

/// Crates are written at distances 2, 3, .. ahead of the robot, one for each
/// of the `count` crates seen, from the `n`-th on.
pub open spec fn crates_placed(g: Seq<Seq<u8>>, r: int, c: int, h: Heading, n: int, count: int)
    -> Option<Seq<Seq<u8>>>
    decreases count - n,
{
    if n >= count {
        Some(g)
    } else {
        match with_cell(g, shifted(r, h.dr(), n + 2), shifted(c, h.dc(), n + 2), CRATE) {
            None => None,
            Some(g2) => crates_placed(g2, r, c, h, n + 1, count),
        }
    }
}

/// The robot pushes against something that is neither free nor a wall. The
/// places ahead are looked at in turn, from distance `k` on, `count` crates
/// having been seen so far: a wall or the end of the map leaves everything as
/// it is, a free place lets the crates seen and the robot advance by one.
pub open spec fn pushed(f: Floor, rows: int, cols: int, h: Heading, k: int, count: int) -> Option<
    Floor,
>
    decreases scan_limit(f, rows, cols, h) - k,
{
    if 1 <= k < scan_limit(f, rows, cols, h) {
        match cell(f.cells, shifted(f.row, h.dr(), k), shifted(f.col, h.dc(), k)) {
            None => None,
            Some(b) => if b == WALL {
                Some(f)
            } else if b == EMPTY {
                match crates_placed(f.cells, f.row, f.col, h, 0, count) {
                    None => None,
                    Some(g) => robot_moved(
                        Floor { cells: g, row: f.row, col: f.col },
                        f.row + h.dr(),
                        f.col + h.dc(),
                    ),
                }
            } else if b == CRATE {
                pushed(f, rows, cols, h, k + 1, count + 1)
            } else {
                pushed(f, rows, cols, h, k + 1, count)
            },
        }
    } else {
        Some(f)
    }
}

/// One move of the robot in the warehouse of plain crates. `None` where the
/// move would touch a place outside the map.
pub open spec fn step(f: Floor, rows: int, cols: int, h: Heading) -> Option<Floor> {
    match cell(f.cells, f.row + h.dr(), f.col + h.dc()) {
        None => None,
        Some(b) => if b == EMPTY {
            robot_moved(f, f.row + h.dr(), f.col + h.dc())
        } else if b == WALL {
            Some(f)
        } else {
            pushed(f, rows, cols, h, 1, 0)
        },
    }
}

/// All the moves in turn.
pub open spec fn run(f: Floor, rows: int, cols: int, moves: Seq<u8>) -> Option<Floor>
    decreases moves.len(),
{
    if moves.len() == 0 {
        Some(f)
    } else {
        match heading_of(moves[0]) {
            None => None,
            Some(h) => match step(f, rows, cols, h) {
                None => None,
                Some(f2) => run(f2, rows, cols, moves.drop_first()),
            },
        }
    }
}

/// The sum of `100 * r + c` over the places `c` of a row, from `from` on,
/// that hold `mark`.
pub open spec fn row_gps(row: Seq<u8>, r: int, mark: u8, from: int) -> nat
    decreases row.len() - from,
{
    if 0 <= from < row.len() {
        (if row[from] == mark && r >= 0 {
            (100 * r + from) as nat
        } else {
            0
        }) + row_gps(row, r, mark, from + 1)
    } else {
        0
    }
}

/// The sum of `100 * r + c` over the places of the map, from row `from` on,
/// that hold `mark`.
pub open spec fn gps(g: Seq<Seq<u8>>, mark: u8, from: int) -> nat
    decreases g.len() - from,
{
    if 0 <= from < g.len() {
        row_gps(g[from], from, mark, 0) + gps(g, mark, from + 1)
    } else {
        0
    }
}

/// The first column below `cols` of row `r`, from `c` on, that holds the
/// robot. `None` where the row ends before that.
pub open spec fn robot_in_row(g: Seq<Seq<u8>>, cols: int, r: int, c: int) -> Option<Option<int>>
    decreases cols - c,
{
    if c >= cols {
        Some(None)
    } else {
        match cell(g, r, c) {
            None => None,
            Some(b) => if b == ROBOT {
                Some(Some(c))
            } else {
                robot_in_row(g, cols, r, c + 1)
            },
        }
    }
}

/// The robot's place in the narrow warehouse: in the last row that shows a
/// robot, the first one. Without any, `start`.
pub open spec fn last_robot(g: Seq<Seq<u8>>, cols: int, r: int, start: (int, int)) -> Option<
    (int, int),
>
    decreases g.len() - r,
{
    if 0 <= r < g.len() {
        match robot_in_row(g, cols, r, 0) {
            None => None,
            Some(None) => last_robot(g, cols, r + 1, start),
            Some(Some(c)) => last_robot(g, cols, r + 1, (r, c)),
        }
    } else {
        Some(start)
    }
}

/// The answer to the first part for the text `s`.
pub open spec fn answer_one(s: Seq<u8>) -> Option<u32> {
    match split_once_seq(s, seq![10u8, 10u8]) {
        None => None,
        Some(halves) => {
            let cells = lines_of(halves.0);
            let moves = joined(lines_of(halves.1));
            if cells.len() == 0 {
                None
            } else {
                let cols = cells[0].len() as int;
                match last_robot(cells, cols, 0, (0, 0)) {
                    None => None,
                    Some(start) => match run(
                        Floor { cells: cells, row: start.0, col: start.1 },
                        cells.len() as int,
                        cols,
                        moves,
                    ) {
                        None => None,
                        Some(f) => if gps(f.cells, CRATE, 0) <= u32::MAX {
                            Some(gps(f.cells, CRATE, 0) as u32)
                        } else {
                            None
                        },
                    },
                }
            }
        },
    }
}

fn move_robot(map: &mut Vec<Vec<u8>>, pos: &mut (usize, usize), nr: usize, nc: usize) -> (ok:
    bool)
    ensures
        match robot_moved(floor_of(old(map)@, *old(pos)), nr as int, nc as int) {
            Some(f) => ok && floor_of(final(map)@, *final(pos)) == f,
            None => !ok,
        },
{
    if !put(map, pos.0, pos.1, EMPTY) {
        return false;
    }
    if !put(map, nr, nc, ROBOT) {
        return false;
    }
    *pos = (nr, nc);
    true
}

#[verifier::loop_isolation(false)]
fn place_crates(map: &mut Vec<Vec<u8>>, r: usize, c: usize, h: Heading, count: usize) -> (ok:
    bool)
    ensures
        match crates_placed(views(old(map)@), r as int, c as int, h, 0, count as int) {
            Some(g) => ok && views(final(map)@) == g,
            None => !ok,
        },
{
    let mut n: usize = 0;
    while n < count
        invariant
            0 <= n <= count,
            crates_placed(views(map@), r as int, c as int, h, n as int, count as int)
                == crates_placed(views(old(map)@), r as int, c as int, h, 0, count as int),
        decreases count - n,
    {
        let ghost g = views(map@);
        let len = map.len();
        let dist = match n.checked_add(2) {
            Some(d) => d,
            None => {
                assert(shifted(r as int, h.dr(), n + 2) != r as int || shifted(
                    c as int,
                    h.dc(),
                    n + 2,
                ) != c as int);
                assert(with_cell(
                    g,
                    shifted(r as int, h.dr(), n + 2),
                    shifted(c as int, h.dc(), n + 2),
                    CRATE,
                ) is None) by {
                    if 0 <= shifted(r as int, h.dr(), n + 2) < g.len() {
                        let vrow = map@[shifted(r as int, h.dr(), n + 2)];
                        assert(vrow.len() == vrow@.len());
                    }
                }
                return false;
            },
        };
        let nr = shift(r, h.row_step(), dist);
        let nc = shift(c, h.col_step(), dist);
        match (nr, nc) {
            (Some(nr), Some(nc)) => {
                if !put(map, nr, nc, CRATE) {
                    return false;
                }
            },
            _ => {
                assert(with_cell(
                    g,
                    shifted(r as int, h.dr(), n + 2),
                    shifted(c as int, h.dc(), n + 2),
                    CRATE,
                ) is None) by {
                    if 0 <= shifted(r as int, h.dr(), n + 2) < g.len() {
                        let vrow = map@[shifted(r as int, h.dr(), n + 2)];
                        assert(vrow.len() == vrow@.len());
                    }
                }
                return false;
            },
        }
        n += 1;
    }
    true
}

/// One move of the robot among plain crates. Says whether the move stayed
/// inside the map; if it did not, the map is left in no particular state.
#[verifier::loop_isolation(false)]
pub fn update_map(
    map: &mut Vec<Vec<u8>>,
    pos: &mut (usize, usize),
    h: Heading,
    rows: usize,
    cols: usize,
) -> (ok: bool)
    ensures
        match step(floor_of(old(map)@, *old(pos)), rows as int, cols as int, h) {
            Some(f) => ok && floor_of(final(map)@, *final(pos)) == f,
            None => !ok,
        },
{
    let ghost f0 = floor_of(map@, *pos);
    let (r0, c0) = (pos.0, pos.1);
    let next_r = shift(r0, h.row_step(), 1);
    let next_c = shift(c0, h.col_step(), 1);
    let (next_r, next_c) = match (next_r, next_c) {
        (Some(a), Some(b)) => (a, b),
        _ => {
            assert(cell(f0.cells, f0.row + h.dr(), f0.col + h.dc()) is None) by {
                assert(map.len() == map@.len());
                if 0 <= f0.row + h.dr() < f0.cells.len() {
                    let vrow = map@[f0.row + h.dr()];
                    assert(vrow.len() == vrow@.len());
                }
            }
            return false;
        },
    };
    let ahead = match get(map, next_r, next_c) {
        Some(b) => b,
        None => {
            return false;
        },
    };
    if ahead == EMPTY {
        return move_robot(map, pos, next_r, next_c);
    }
    if ahead == WALL {
        return true;
    }
    let mut k: usize = 1;
    let mut count: usize = 0;
    loop
        invariant
            1 <= k,
            count < k,
            *map == *old(map),
            *pos == *old(pos),
            r0 == pos.0,
            c0 == pos.1,
            f0 == floor_of(map@, *pos),
            next_r == f0.row + h.dr(),
            next_c == f0.col + h.dc(),
            pushed(f0, rows as int, cols as int, h, k as int, count as int) == pushed(f0, rows as int, cols as int, h, 1, 0),
        decreases scan_limit(f0, rows as int, cols as int, h) - k,
    {
        let in_range = match h {
            Heading::Up => k <= r0,
            Heading::Down => r0 < rows && k < rows - r0,
            Heading::Left => k <= c0,
            Heading::Right => c0 < cols && k < cols - c0,
        };
        if !in_range {
            return true;
        }
        let r = shift(r0, h.row_step(), k);
        let c = shift(c0, h.col_step(), k);
        let (r, c) = match (r, c) {
            (Some(a), Some(b)) => (a, b),
            _ => {
                assert(false);
                return false;
            },
        };
        match get(map, r, c) {
            None => {
                return false;
            },
            Some(b) => {
                if b == WALL {
                    return true;
                } else if b == EMPTY {
                    if !place_crates(map, r0, c0, h, count) {
                        return false;
                    }
                    return move_robot(map, pos, next_r, next_c);
                } else if b == CRATE {
                    count += 1;
                }
                if k == usize::MAX {
                    assert(pushed(f0, rows as int, cols as int, h, k + 1, count as int) == Some(f0));
                    return true;
                }
                k += 1;
            },
        }
    }
}

/// Makes all the moves in the warehouse of plain crates and returns the map
/// that results.
#[verifier::loop_isolation(false)]
pub fn movement(
    map: Vec<Vec<u8>>,
    movements: &Vec<u8>,
    start_position: (usize, usize),
    rows: usize,
    cols: usize,
) -> (out: Option<Vec<Vec<u8>>>)
    ensures
        match run(floor_of(map@, start_position), rows as int, cols as int, movements@) {
            Some(f) => out is Some && views(out->0@) == f.cells,
            None => out is None,
        },
{
    let ghost goal = run(floor_of(map@, start_position), rows as int, cols as int, movements@);
    let mut grid = map;
    let mut pos = start_position;
    let mut i: usize = 0;
    assert(movements@.skip(0) =~= movements@);
    while i < movements.len()
        invariant
            0 <= i <= movements@.len(),
            run(floor_of(grid@, pos), rows as int, cols as int, movements@.skip(i as int)) == goal,
        decreases movements@.len() - i,
    {
        assert(movements@.skip(i as int)[0] == movements@[i as int]);
        assert(movements@.skip(i as int).drop_first() =~= movements@.skip(i + 1));
        let h = match read_heading(movements[i]) {
            Some(h) => h,
            None => {
                return None;
            },
        };
        if !update_map(&mut grid, &mut pos, h, rows, cols) {
            return None;
        }
        i += 1;
    }
    Some(grid)
}

/// The sum of `100 * r + c` over the places that hold `mark`, if it fits.
#[verifier::loop_isolation(false)]
fn sum_gps(map: &Vec<Vec<u8>>, mark: u8) -> (out: Option<u32>)
    ensures
        out == if gps(views(map@), mark, 0) <= u32::MAX {
            Some(gps(views(map@), mark, 0) as u32)
        } else {
            None::<u32>
        },
{
    let ghost g = views(map@);
    let mut sum: u32 = 0;
    let mut r: usize = 0;
    while r < map.len()
        invariant
            0 <= r <= map@.len(),
            g == views(map@),
            sum + gps(g, mark, r as int) == gps(g, mark, 0),
        decreases map@.len() - r,
    {
        let row = &map[r];
        let ghost before = sum;
        let mut c: usize = 0;
        while c < row.len()
            invariant
                0 <= c <= row@.len(),
                row@ == g[r as int],
                0 <= r < g.len(),
                sum + row_gps(row@, r as int, mark, c as int) == before + row_gps(
                    row@,
                    r as int,
                    mark,
                    0,
                ),
                before + gps(g, mark, r as int) == gps(g, mark, 0),
            decreases row@.len() - c,
        {
            if row[c] == mark {
                let term: u128 = (r as u128) * 100 + (c as u128);
                if term > (u32::MAX - sum) as u128 {
                    return None;
                }
                sum = sum + term as u32;
            }
            c += 1;
        }
        r += 1;
    }
    Some(sum)
}

/// The sum of `100 * r + c` over the places of the plain crates, if it fits in 32 bits.
pub fn calculate_box_gps(map: &Vec<Vec<u8>>) -> (out: Option<u32>)
    ensures
        out == if gps(views(map@), CRATE, 0) <= u32::MAX {
            Some(gps(views(map@), CRATE, 0) as u32)
        } else {
            None::<u32>
        },
{
    sum_gps(map, CRATE)
}

#[verifier::loop_isolation(false)]
fn find_last_robot(map: &Vec<Vec<u8>>, cols: usize) -> (out: Option<(usize, usize)>)
    ensures
        match last_robot(views(map@), cols as int, 0, (0, 0)) {
            Some(p) => out == Some((p.0 as usize, p.1 as usize)) && 0 <= p.0 <= usize::MAX && 0
                <= p.1 <= usize::MAX,
            None => out is None,
        },
{
    let ghost g = views(map@);
    let mut start: (usize, usize) = (0, 0);
    let mut r: usize = 0;
    while r < map.len()
        invariant
            0 <= r <= map@.len(),
            g == views(map@),
            last_robot(g, cols as int, r as int, (start.0 as int, start.1 as int)) == last_robot(
                g,
                cols as int,
                0,
                (0, 0),
            ),
        decreases map@.len() - r,
    {
        let mut c: usize = 0;
        let mut found: Option<usize> = None;
        while c < cols && found.is_none()
            invariant
                0 <= c <= cols,
                0 <= r < map@.len(),
                g == views(map@),
                match found {
                    None => robot_in_row(g, cols as int, r as int, c as int) == robot_in_row(
                        g,
                        cols as int,
                        r as int,
                        0,
                    ),
                    Some(x) => robot_in_row(g, cols as int, r as int, 0) == Some(Some(x as int)),
                },
            decreases cols - c + (if found is None { 1int } else { 0int }),
        {
            match get(map, r, c) {
                None => {
                    return None;
                },
                Some(b) => {
                    if b == ROBOT {
                        found = Some(c);
                    } else {
                        c += 1;
                    }
                },
            }
        }
        match found {
            Some(x) => {
                start = (r, x);
            },
            None => {},
        }
        r += 1;
    }
    Some(start)
}

/// The sum of the crates' coordinates after the robot has made its moves in
/// the warehouse as drawn.
pub fn part_one(input: &str) -> (out: Option<u32>)
    ensures
        out == answer_one(input.spec_bytes()),
{
    let pat: Vec<u8> = vec![10u8, 10u8];
    let (top, bottom) = match split_once(input.as_bytes(), pat.as_slice()) {
        Some(p) => p,
        None => {
            return None;
        },
    };
    let move_lines = lines(bottom.as_slice());
    let movements = join(&move_lines);
    let map = lines(top.as_slice());
    if map.len() == 0 {
        return None;
    }
    let cols = map[0].len();
    assert(views(map@)[0] == map@[0]@);
    let start = match find_last_robot(&map, cols) {
        Some(p) => p,
        None => {
            return None;
        },
    };
    let rows = map.len();
    let finished = match movement(map, &movements, start, rows, cols) {
        Some(m) => m,
        None => {
            return None;
        },
    };
    calculate_box_gps(&finished)
}

/// What a place of the plain warehouse becomes in the wide one.
pub open spec fn widened_cell(b: u8) -> Seq<u8> {
    if b == WALL {
        seq![WALL, WALL]
    } else if b == CRATE {
        seq![CRATE_LEFT, CRATE_RIGHT]
    } else if b == EMPTY {
        seq![EMPTY, EMPTY]
    } else if b == ROBOT {
        seq![ROBOT, EMPTY]
    } else {
        seq![]
    }
}

/// A row of the plain warehouse drawn wide.
pub open spec fn widened_row(row: Seq<u8>) -> Seq<u8>
    decreases row.len(),
{
    if row.len() == 0 {
        seq![]
    } else {
        widened_cell(row[0]) + widened_row(row.drop_first())
    }
}

/// The wide warehouse drawn from the plain one.
pub open spec fn widened(g: Seq<Seq<u8>>) -> Seq<Seq<u8>> {
    Seq::new(g.len(), |i: int| widened_row(g[i]))
}

/// The robot's place in the wide warehouse: the first one in reading order.
/// Without any, the top left corner.
pub open spec fn first_robot(g: Seq<Seq<u8>>, cols: int, r: int) -> Option<(int, int)>
    decreases g.len() - r,
{
    if 0 <= r < g.len() {
        match robot_in_row(g, cols, r, 0) {
            None => None,
            Some(None) => first_robot(g, cols, r + 1),
            Some(Some(c)) => Some((r, c)),
        }
    } else {
        Some((0, 0))
    }
}

/// A wide crate: its row, the column of its left half and that of its right half.
pub type WideCrate = (int, int, int);

/// The wide crate, if any, that has a half one step ahead of `(r, c)`.
/// `None` where that place is outside the map, or where a right half stands
/// in the first column.
pub open spec fn crate_ahead(g: Seq<Seq<u8>>, r: int, c: int, h: Heading) -> Option<
    Option<WideCrate>,
> {
    let nr = shifted(r, h.dr(), 1);
    let nc = shifted(c, h.dc(), 1);
    match cell(g, nr, nc) {
        None => None,
        Some(b) => if b == CRATE_LEFT {
            Some(Some((nr, nc, nc + 1)))
        } else if b == CRATE_RIGHT {
            if nc >= 1 {
                Some(Some((nr, nc - 1, nc)))
            } else {
                None
            }
        } else {
            Some(None)
        },
    }
}

/// Whether one of the crates of `level`, from the `i`-th on, has a wall
/// ahead of one of its halves. The crates are looked at in turn, left half
/// first, up to the first wall; `None` where a place looked at is outside the map.
pub open spec fn wall_ahead(g: Seq<Seq<u8>>, level: Seq<WideCrate>, h: Heading, i: int) -> Option<
    bool,
>
    decreases level.len() - i,
{
    if 0 <= i < level.len() {
        let b = level[i];
        match cell(g, shifted(b.0, h.dr(), 1), shifted(b.1, h.dc(), 1)) {
            None => None,
            Some(x) => if x == WALL {
                Some(true)
            } else {
                match cell(g, shifted(b.0, h.dr(), 1), shifted(b.2, h.dc(), 1)) {
                    None => None,
                    Some(y) => if y == WALL {
                        Some(true)
                    } else {
                        wall_ahead(g, level, h, i + 1)
                    },
                }
            },
        }
    } else {
        Some(false)
    }
}

/// Both places ahead of the crate are free.
pub open spec fn free_ahead(g: Seq<Seq<u8>>, b: WideCrate, h: Heading) -> bool {
    &&& cell(g, shifted(b.0, h.dr(), 1), shifted(b.1, h.dc(), 1)) == Some(EMPTY)
    &&& cell(g, shifted(b.0, h.dr(), 1), shifted(b.2, h.dc(), 1)) == Some(EMPTY)
}

/// Both places ahead of every crate of the level are free.
pub open spec fn all_free(g: Seq<Seq<u8>>, level: Seq<WideCrate>, h: Heading) -> bool {
    forall|i: int| 0 <= i < level.len() ==> free_ahead(g, #[trigger] level[i], h)
}

/// The crate as a sequence of one, or the empty sequence.
pub open spec fn one_or_none(c: Option<WideCrate>) -> Seq<WideCrate> {
    match c {
        Some(b) => seq![b],
        None => seq![],
    }
}

/// The crates that stand ahead of the halves of the crates of `level`, from
/// the `i`-th on, in the order in which they are met.
pub open spec fn crates_ahead(g: Seq<Seq<u8>>, level: Seq<WideCrate>, h: Heading, i: int)
    -> Option<Seq<WideCrate>>
    decreases level.len() - i,
{
    if 0 <= i < level.len() {
        let b = level[i];
        match crate_ahead(g, b.0, b.1, h) {
            None => None,
            Some(x) => match crate_ahead(g, b.0, b.2, h) {
                None => None,
                Some(y) => match crates_ahead(g, level, h, i + 1) {
                    None => None,
                    Some(rest) => Some(one_or_none(x) + one_or_none(y) + rest),
                },
            },
        }
    } else {
        Some(seq![])
    }
}

/// The order of wide crates: by row, then by left column, then by right column.
pub open spec fn before(a: WideCrate, b: WideCrate) -> bool {
    a.0 < b.0 || (a.0 == b.0 && (a.1 < b.1 || (a.1 == b.1 && a.2 < b.2)))
}

/// `x` put in its place in the ascending sequence `s`, unless it is there already.
pub open spec fn inserted(s: Seq<WideCrate>, x: WideCrate) -> Seq<WideCrate>
    decreases s.len(),
{
    if s.len() == 0 {
        seq![x]
    } else if s.last() == x {
        s
    } else if before(s.last(), x) {
        s.push(x)
    } else {
        inserted(s.drop_last(), x).push(s.last())
    }
}

/// The crates of `s` in ascending order, each once.
pub open spec fn sorted_unique(s: Seq<WideCrate>) -> Seq<WideCrate>
    decreases s.len(),
{
    if s.len() == 0 {
        seq![]
    } else {
        inserted(sorted_unique(s.drop_last()), s.last())
    }
}

/// The crates that a push sets in motion, level by level, starting from
/// `chain`. `Some(None)` where a wall stands in the way, `None` where a
/// place outside the map is looked at.
pub open spec fn grown(g: Seq<Seq<u8>>, chain: Seq<Seq<WideCrate>>, h: Heading) -> Option<
    Option<Seq<Seq<WideCrate>>>,
>
    decreases usize::MAX - chain.len(),
{
    if chain.len() == 0 || chain.len() >= usize::MAX {
        None
    } else {
        let last = chain.last();
        match wall_ahead(g, last, h, 0) {
            None => None,
            Some(blocked) => if blocked {
                Some(None)
            } else if all_free(g, last, h) {
                Some(Some(chain))
            } else {
                match crates_ahead(g, last, h, 0) {
                    None => None,
                    Some(found) => {
                        let next = sorted_unique(found);
                        if next.len() == 0 || next == last {
                            Some(Some(chain))
                        } else {
                            grown(g, chain.push(next), h)
                        }
                    },
                }
            },
        }
    }
}

/// For each crate of `level`, from the `i`-th on, `a` is written `k` steps
/// ahead of its left half and `b` as far ahead of its right half.
pub open spec fn stamped_level(
    g: Seq<Seq<u8>>,
    level: Seq<WideCrate>,
    h: Heading,
    k: int,
    a: u8,
    b: u8,
    i: int,
) -> Option<Seq<Seq<u8>>>
    decreases level.len() - i,
{
    if 0 <= i < level.len() {
        let x = level[i];
        match with_cell(g, shifted(x.0, h.dr(), k), shifted(x.1, h.dc(), k), a) {
            None => None,
            Some(g1) => match with_cell(g1, shifted(x.0, h.dr(), k), shifted(x.2, h.dc(), k), b) {
                None => None,
                Some(g2) => stamped_level(g2, level, h, k, a, b, i + 1),
            },
        }
    } else {
        Some(g)
    }
}

/// The same for each level of `chain`, from the `j`-th on.
pub open spec fn stamped(
    g: Seq<Seq<u8>>,
    chain: Seq<Seq<WideCrate>>,
    h: Heading,
    k: int,
    a: u8,
    b: u8,
    j: int,
) -> Option<Seq<Seq<u8>>>
    decreases chain.len() - j,
{
    if 0 <= j < chain.len() {
        match stamped_level(g, chain[j], h, k, a, b, 0) {
            None => None,
            Some(g1) => stamped(g1, chain, h, k, a, b, j + 1),
        }
    } else {
        Some(g)
    }
}

/// One move of the robot in the wide warehouse. `None` where the move would
/// touch a place outside the map.
pub open spec fn wide_step(f: Floor, h: Heading) -> Option<Floor> {
    let nr = shifted(f.row, h.dr(), 1);
    let nc = shifted(f.col, h.dc(), 1);
    match cell(f.cells, nr, nc) {
        None => None,
        Some(b) => if b == EMPTY {
            robot_moved(f, nr, nc)
        } else if b == CRATE_LEFT || b == CRATE_RIGHT {
            match crate_ahead(f.cells, f.row, f.col, h) {
                Some(Some(first)) => match grown(f.cells, seq![seq![first]], h) {
                    None => None,
                    Some(None) => Some(f),
                    Some(Some(chain)) => match stamped(f.cells, chain, h, 0, EMPTY, EMPTY, 0) {
                        None => None,
                        Some(g1) => match stamped(g1, chain, h, 1, CRATE_LEFT, CRATE_RIGHT, 0) {
                            None => None,
                            Some(g2) => robot_moved(
                                Floor { cells: g2, row: f.row, col: f.col },
                                nr,
                                nc,
                            ),
                        },
                    },
                },
                _ => None,
            }
        } else {
            Some(f)
        },
    }
}

/// All the moves in turn, in the wide warehouse.
pub open spec fn wide_run(f: Floor, moves: Seq<u8>) -> Option<Floor>
    decreases moves.len(),
{
    if moves.len() == 0 {
        Some(f)
    } else {
        match heading_of(moves[0]) {
            None => None,
            Some(h) => match wide_step(f, h) {
                None => None,
                Some(f2) => wide_run(f2, moves.drop_first()),
            },
        }
    }
}

/// The answer to the second part for the text `s`.
pub open spec fn answer_two(s: Seq<u8>) -> Option<u32> {
    match split_once_seq(s, seq![10u8, 10u8]) {
        None => None,
        Some(halves) => {
            let cells = widened(lines_of(halves.0));
            let moves = joined(lines_of(halves.1));
            if cells.len() == 0 {
                None
            } else {
                match first_robot(cells, cells[0].len() as int, 0) {
                    None => None,
                    Some(start) => match wide_run(
                        Floor { cells: cells, row: start.0, col: start.1 },
                        moves,
                    ) {
                        None => None,
                        Some(f) => if gps(f.cells, CRATE_LEFT, 0) <= u32::MAX {
                            Some(gps(f.cells, CRATE_LEFT, 0) as u32)
                        } else {
                            None
                        },
                    },
                }
            }
        },
    }
}

/// A wide crate as the contracts see it.
pub open spec fn crate_view(b: (usize, usize, usize)) -> WideCrate {
    (b.0 as int, b.1 as int, b.2 as int)
}

/// A level of wide crates as the contracts see it.
pub open spec fn level_view(v: Seq<(usize, usize, usize)>) -> Seq<WideCrate> {
    Seq::new(v.len(), |i: int| crate_view(v[i]))
}

/// The levels of wide crates as the contracts see them.
pub open spec fn chain_view(ch: Seq<Vec<(usize, usize, usize)>>) -> Seq<Seq<WideCrate>> {
    Seq::new(ch.len(), |i: int| level_view(ch[i]@))
}

/// Draws the wide warehouse from the plain one.
#[verifier::loop_isolation(false)]
pub fn create_wide_map(original_map: &Vec<Vec<u8>>) -> (out: Vec<Vec<u8>>)
    ensures
        views(out@) == widened(views(original_map@)),
{
    let mut out: Vec<Vec<u8>> = Vec::new();
    let mut i: usize = 0;
    while i < original_map.len()
        invariant
            0 <= i <= original_map@.len(),
            out@.len() == i,
            forall|k: int| 0 <= k < i ==> (#[trigger] out@[k])@ == widened_row(original_map@[k]@),
        decreases original_map@.len() - i,
    {
        let row = &original_map[i];
        let mut wide: Vec<u8> = Vec::new();
        let mut j: usize = 0;
        assert(row@.skip(0) =~= row@);
        while j < row.len()
            invariant
                0 <= j <= row@.len(),
                wide@ + widened_row(row@.skip(j as int)) == widened_row(row@),
            decreases row@.len() - j,
        {
            let ghost before_push = wide@;
            let b = row[j];
            if b == WALL {
                wide.push(WALL);
                wide.push(WALL);
            } else if b == CRATE {
                wide.push(CRATE_LEFT);
                wide.push(CRATE_RIGHT);
            } else if b == EMPTY {
                wide.push(EMPTY);
                wide.push(EMPTY);
            } else if b == ROBOT {
                wide.push(ROBOT);
                wide.push(EMPTY);
            }
            proof {
                assert(row@.skip(j as int)[0] == b);
                assert(row@.skip(j as int).drop_first() =~= row@.skip(j + 1));
                assert(wide@ =~= before_push + widened_cell(b));
                assert(wide@ + widened_row(row@.skip(j + 1)) =~= before_push + widened_row(
                    row@.skip(j as int),
                ));
            }
            j += 1;
        }
        assert(wide@ + widened_row(row@.skip(j as int)) =~= wide@);
        out.push(wide);
        i += 1;
    }
    assert(views(out@) =~= widened(views(original_map@)));
    out
}

#[verifier::loop_isolation(false)]
fn find_first_robot(map: &Vec<Vec<u8>>, cols: usize) -> (out: Option<(usize, usize)>)
    ensures
        match first_robot(views(map@), cols as int, 0) {
            Some(p) => out == Some((p.0 as usize, p.1 as usize)) && 0 <= p.0 <= usize::MAX && 0
                <= p.1 <= usize::MAX,
            None => out is None,
        },
{
    let ghost g = views(map@);
    let mut r: usize = 0;
    while r < map.len()
        invariant
            0 <= r <= map@.len(),
            first_robot(g, cols as int, r as int) == first_robot(g, cols as int, 0),
        decreases map@.len() - r,
    {
        let mut c: usize = 0;
        while c < cols
            invariant
                0 <= c <= cols,
                robot_in_row(g, cols as int, r as int, c as int) == robot_in_row(
                    g,
                    cols as int,
                    r as int,
                    0,
                ),
            decreases cols - c,
        {
            match get(map, r, c) {
                None => {
                    return None;
                },
                Some(b) => {
                    if b == ROBOT {
                        return Some((r, c));
                    }
                    c += 1;
                },
            }
        }
        r += 1;
    }
    Some((0, 0))
}

fn find_crate(map: &Vec<Vec<u8>>, r: usize, c: usize, h: Heading) -> (out: Option<
    Option<(usize, usize, usize)>,
>)
    ensures
        match crate_ahead(views(map@), r as int, c as int, h) {
            None => out is None,
            Some(None) => out == Some(None::<(usize, usize, usize)>),
            Some(Some(b)) => out is Some && out->0 is Some && crate_view(out->0->0) == b,
        },
{
    let (nr, nc) = match (shift(r, h.row_step(), 1), shift(c, h.col_step(), 1)) {
        (Some(a), Some(b)) => (a, b),
        _ => {
            proof {
                let rr = shifted(r as int, h.dr(), 1);
                assert(map.len() == map@.len());
                if 0 <= rr < map@.len() {
                    assert(map@[rr].len() == map@[rr]@.len());
                }
            }
            return None;
        },
    };
    match get(map, nr, nc) {
        None => None,
        Some(b) => {
            if b == CRATE_LEFT {
                assert(map@[nr as int].len() == map@[nr as int]@.len());
                Some(Some((nr, nc, nc + 1)))
            } else if b == CRATE_RIGHT {
                if nc >= 1 {
                    Some(Some((nr, nc - 1, nc)))
                } else {
                    None
                }
            } else {
                Some(None)
            }
        },
    }
}

#[verifier::loop_isolation(false)]
fn blocked(map: &Vec<Vec<u8>>, level: &Vec<(usize, usize, usize)>, h: Heading) -> (out: Option<
    bool,
>)
    ensures
        out == wall_ahead(views(map@), level_view(level@), h, 0),
{
    let ghost g = views(map@);
    let ghost lv = level_view(level@);
    let mut i: usize = 0;
    while i < level.len()
        invariant
            0 <= i <= level@.len(),
            wall_ahead(g, lv, h, i as int) == wall_ahead(g, lv, h, 0),
        decreases level@.len() - i,
    {
        let b = level[i];
        assert(lv[i as int] == crate_view(b));
        match get_rel(map, b.0, b.1, h.row_step(), h.col_step(), 1) {
            None => {
                return None;
            },
            Some(x) => {
                if x == WALL {
                    return Some(true);
                }
            },
        }
        match get_rel(map, b.0, b.2, h.row_step(), h.col_step(), 1) {
            None => {
                return None;
            },
            Some(y) => {
                if y == WALL {
                    return Some(true);
                }
            },
        }
        i += 1;
    }
    Some(false)
}

#[verifier::loop_isolation(false)]
fn nothing_ahead(map: &Vec<Vec<u8>>, level: &Vec<(usize, usize, usize)>, h: Heading) -> (out: bool)
    ensures
        out == all_free(views(map@), level_view(level@), h),
{
    let ghost g = views(map@);
    let ghost lv = level_view(level@);
    let mut i: usize = 0;
    while i < level.len()
        invariant
            0 <= i <= level@.len(),
            forall|k: int| 0 <= k < i ==> free_ahead(g, #[trigger] lv[k], h),
        decreases level@.len() - i,
    {
        let b = level[i];
        assert(lv[i as int] == crate_view(b));
        let x = get_rel(map, b.0, b.1, h.row_step(), h.col_step(), 1);
        let y = get_rel(map, b.0, b.2, h.row_step(), h.col_step(), 1);
        let free = match (x, y) {
            (Some(p), Some(q)) => p == EMPTY && q == EMPTY,
            _ => false,
        };
        if !free {
            assert(!free_ahead(g, lv[i as int], h));
            return false;
        }
        i += 1;
    }
    true
}

#[verifier::loop_isolation(false)]
fn next_crates(map: &Vec<Vec<u8>>, level: &Vec<(usize, usize, usize)>, h: Heading) -> (out: Option<
    Vec<(usize, usize, usize)>,
>)
    ensures
        match crates_ahead(views(map@), level_view(level@), h, 0) {
            None => out is None,
            Some(found) => out is Some && level_view(out->0@) == found,
        },
{
    let ghost g = views(map@);
    let ghost lv = level_view(level@);
    let ghost goal = crates_ahead(g, lv, h, 0);
    let mut acc: Vec<(usize, usize, usize)> = Vec::new();
    let mut i: usize = 0;
    assert(level_view(acc@) =~= Seq::<WideCrate>::empty());
    while i < level.len()
        invariant
            0 <= i <= level@.len(),
            match crates_ahead(g, lv, h, i as int) {
                None => goal is None,
                Some(rest) => goal == Some(level_view(acc@) + rest),
            },
        decreases level@.len() - i,
    {
        let b = level[i];
        assert(lv[i as int] == crate_view(b));
        let ghost before_push = level_view(acc@);
        let x = match find_crate(map, b.0, b.1, h) {
            None => {
                return None;
            },
            Some(x) => x,
        };
        let y = match find_crate(map, b.0, b.2, h) {
            None => {
                return None;
            },
            Some(y) => y,
        };
        match x {
            Some(p) => {
                acc.push(p);
            },
            None => {},
        }
        let ghost mid = level_view(acc@);
        assert(mid =~= before_push + one_or_none(crate_ahead(g, b.0 as int, b.1 as int, h)->0));
        match y {
            Some(q) => {
                acc.push(q);
            },
            None => {},
        }
        assert(level_view(acc@) =~= mid + one_or_none(crate_ahead(g, b.0 as int, b.2 as int, h)->0));
        proof {
            match crates_ahead(g, lv, h, i + 1) {
                None => {},
                Some(rest) => {
                    assert(level_view(acc@) + rest =~= before_push + (one_or_none(
                        crate_ahead(g, b.0 as int, b.1 as int, h)->0,
                    ) + one_or_none(crate_ahead(g, b.0 as int, b.2 as int, h)->0) + rest));
                },
            }
        }
        i += 1;
    }
    assert(level_view(acc@) + Seq::<WideCrate>::empty() =~= level_view(acc@));
    Some(acc)
}

proof fn lemma_inserted(s: Seq<WideCrate>, x: WideCrate, p: int)
    requires
        0 <= p <= s.len(),
        forall|j: int| p <= j < s.len() ==> before(x, #[trigger] s[j]),
        p == 0 || !before(x, s[p - 1]),
    ensures
        inserted(s, x) == if p > 0 && s[p - 1] == x {
            s
        } else {
            s.insert(p, x)
        },
    decreases s.len(),
{
    if s.len() == 0 {
        assert(seq![x] =~= s.insert(p, x));
    } else if p == s.len() {
        if s.last() == x {
        } else {
            assert(before(s.last(), x));
            assert(s.push(x) =~= s.insert(p, x));
        }
    } else {
        assert(before(x, s.last()));
        let t = s.drop_last();
        lemma_inserted(t, x, p);
        if p > 0 && s[p - 1] == x {
            assert(t.push(s.last()) =~= s);
        } else {
            assert(t.insert(p, x).push(s.last()) =~= s.insert(p, x));
        }
    }
}

fn comes_before(a: (usize, usize, usize), b: (usize, usize, usize)) -> (r: bool)
    ensures
        r == before(crate_view(a), crate_view(b)),
{
    a.0 < b.0 || (a.0 == b.0 && (a.1 < b.1 || (a.1 == b.1 && a.2 < b.2)))
}

fn same_crate(a: (usize, usize, usize), b: (usize, usize, usize)) -> (r: bool)
    ensures
        r == (crate_view(a) == crate_view(b)),
{
    a.0 == b.0 && a.1 == b.1 && a.2 == b.2
}

/// The crates of `v` in ascending order, each once.
#[verifier::loop_isolation(false)]
fn sort_unique(v: &Vec<(usize, usize, usize)>) -> (out: Vec<(usize, usize, usize)>)
    ensures
        level_view(out@) == sorted_unique(level_view(v@)),
{
    let ghost all = level_view(v@);
    let mut out: Vec<(usize, usize, usize)> = Vec::new();
    let mut i: usize = 0;
    assert(all.take(0) =~= Seq::<WideCrate>::empty());
    assert(level_view(out@) =~= Seq::<WideCrate>::empty());
    while i < v.len()
        invariant
            0 <= i <= v@.len(),
            level_view(out@) == sorted_unique(all.take(i as int)),
        decreases v@.len() - i,
    {
        let x = v[i];
        let ghost s = level_view(out@);
        let mut p: usize = out.len();
        while p > 0 && comes_before(x, out[p - 1])
            invariant
                0 <= p <= out@.len(),
                s == level_view(out@),
                forall|j: int| p <= j < s.len() ==> before(crate_view(x), #[trigger] s[j]),
            decreases p,
        {
            p -= 1;
        }
        proof {
            lemma_inserted(s, crate_view(x), p as int);
            assert(all.take(i + 1).drop_last() =~= all.take(i as int));
            assert(all.take(i + 1).last() == crate_view(x));
        }
        if p > 0 && same_crate(out[p - 1], x) {
        } else {
            out.insert(p, x);
            assert(level_view(out@) =~= s.insert(p as int, crate_view(x)));
        }
        i += 1;
    }
    assert(all.take(i as int) =~= all);
    out
}

#[verifier::loop_isolation(false)]
fn same_level(a: &Vec<(usize, usize, usize)>, b: &Vec<(usize, usize, usize)>) -> (r: bool)
    ensures
        r == (level_view(a@) == level_view(b@)),
{
    if a.len() != b.len() {
        assert(level_view(a@).len() != level_view(b@).len());
        return false;
    }
    let mut i: usize = 0;
    while i < a.len()
        invariant
            0 <= i <= a@.len(),
            a@.len() == b@.len(),
            forall|k: int| 0 <= k < i ==> crate_view(a@[k]) == crate_view(b@[k]),
        decreases a@.len() - i,
    {
        if !same_crate(a[i], b[i]) {
            assert(level_view(a@)[i as int] != level_view(b@)[i as int]);
            return false;
        }
        i += 1;
    }
    assert(level_view(a@) =~= level_view(b@));
    true
}

proof fn lemma_chain_push(ch: Seq<Vec<(usize, usize, usize)>>, x: Vec<(usize, usize, usize)>)
    ensures
        chain_view(ch.push(x)) == chain_view(ch).push(level_view(x@)),
{
    assert(chain_view(ch.push(x)) =~= chain_view(ch).push(level_view(x@)));
}

/// Collects the crates that a push sets in motion.
#[verifier::loop_isolation(false)]
fn grow_chain(map: &Vec<Vec<u8>>, first: (usize, usize, usize), h: Heading) -> (out: Option<
    Option<Vec<Vec<(usize, usize, usize)>>>,
>)
    ensures
        match grown(views(map@), seq![seq![crate_view(first)]], h) {
            None => out is None,
            Some(None) => out is Some && out->0 is None,
            Some(Some(chain)) => out is Some && out->0 is Some && chain_view(out->0->0@) == chain,
        },
{
    let ghost g = views(map@);
    let ghost goal = grown(g, seq![seq![crate_view(first)]], h);
    let mut chain: Vec<Vec<(usize, usize, usize)>> = Vec::new();
    let mut level: Vec<(usize, usize, usize)> = Vec::new();
    level.push(first);
    assert(level_view(level@) =~= seq![crate_view(first)]);
    proof {
        lemma_chain_push(chain@, level);
        assert(chain_view(chain@) =~= Seq::<Seq<WideCrate>>::empty());
        assert(chain_view(chain@).push(level_view(level@)) =~= seq![seq![crate_view(first)]]);
    }
    chain.push(level);
    loop
        invariant
            chain@.len() >= 1,
            grown(g, chain_view(chain@), h) == goal,
        decreases usize::MAX - chain@.len(),
    {
        let n = chain.len();
        if n == usize::MAX {
            return None;
        }
        let last = &chain[n - 1];
        assert(chain_view(chain@).last() == level_view(last@));
        match blocked(map, last, h) {
            None => {
                return None;
            },
            Some(true) => {
                return Some(None);
            },
            Some(false) => {},
        }
        if nothing_ahead(map, last, h) {
            return Some(Some(chain));
        }
        let found = match next_crates(map, last, h) {
            None => {
                return None;
            },
            Some(f) => f,
        };
        let next = sort_unique(&found);
        if next.len() == 0 || same_level(&next, last) {
            assert(level_view(next@).len() == next@.len());
            return Some(Some(chain));
        }
        assert(level_view(next@).len() == next@.len());
        proof {
            lemma_chain_push(chain@, next);
        }
        chain.push(next);
    }
}

#[verifier::loop_isolation(false)]
fn stamp(
    map: &mut Vec<Vec<u8>>,
    chain: &Vec<Vec<(usize, usize, usize)>>,
    h: Heading,
    k: usize,
    a: u8,
    b: u8,
) -> (ok: bool)
    ensures
        match stamped(views(old(map)@), chain_view(chain@), h, k as int, a, b, 0) {
            Some(g) => ok && views(final(map)@) == g,
            None => !ok,
        },
{
    let ghost ch = chain_view(chain@);
    let ghost goal = stamped(views(map@), ch, h, k as int, a, b, 0);
    let mut j: usize = 0;
    while j < chain.len()
        invariant
            0 <= j <= chain@.len(),
            stamped(views(map@), ch, h, k as int, a, b, j as int) == goal,
        decreases chain@.len() - j,
    {
        let level = &chain[j];
        let ghost lv = level_view(level@);
        assert(ch[j as int] == lv);
        let ghost level_goal = stamped_level(views(map@), lv, h, k as int, a, b, 0);
        let mut i: usize = 0;
        while i < level.len()
            invariant
                0 <= i <= level@.len(),
                stamped_level(views(map@), lv, h, k as int, a, b, i as int) == level_goal,
            decreases level@.len() - i,
        {
            let x = level[i];
            assert(lv[i as int] == crate_view(x));
            if !put_rel(map, x.0, x.1, h.row_step(), h.col_step(), k, a) {
                return false;
            }
            if !put_rel(map, x.0, x.2, h.row_step(), h.col_step(), k, b) {
                return false;
            }
            i += 1;
        }
        j += 1;
    }
    true
}

/// One move of the robot among wide crates. Says whether the move stayed
/// inside the map; if it did not, the map is left in no particular state.
pub fn update_map_wide(map: &mut Vec<Vec<u8>>, pos: &mut (usize, usize), h: Heading) -> (ok: bool)
    ensures
        match wide_step(floor_of(old(map)@, *old(pos)), h) {
            Some(f) => ok && floor_of(final(map)@, *final(pos)) == f,
            None => !ok,
        },
{
    let ghost f0 = floor_of(map@, *pos);
    let (r0, c0) = (pos.0, pos.1);
    let ahead = match get_rel(map, r0, c0, h.row_step(), h.col_step(), 1) {
        Some(b) => b,
        None => {
            return false;
        },
    };
    let next_r = shift(r0, h.row_step(), 1);
    let next_c = shift(c0, h.col_step(), 1);
    let (next_r, next_c) = match (next_r, next_c) {
        (Some(a), Some(b)) => (a, b),
        _ => {
            proof {
                let rr = shifted(r0 as int, h.dr(), 1);
                assert(map.len() == map@.len());
                if 0 <= rr < map@.len() {
                    assert(map@[rr].len() == map@[rr]@.len());
                }
            }
            return false;
        },
    };
    if ahead == EMPTY {
        return move_robot(map, pos, next_r, next_c);
    }
    if ahead != CRATE_LEFT && ahead != CRATE_RIGHT {
        return true;
    }
    let first = match find_crate(map, r0, c0, h) {
        Some(Some(b)) => b,
        _ => {
            return false;
        },
    };
    let chain = match grow_chain(map, first, h) {
        None => {
            return false;
        },
        Some(None) => {
            return true;
        },
        Some(Some(chain)) => chain,
    };
    if !stamp(map, &chain, h, 0, EMPTY, EMPTY) {
        return false;
    }
    if !stamp(map, &chain, h, 1, CRATE_LEFT, CRATE_RIGHT) {
        return false;
    }
    move_robot(map, pos, next_r, next_c)
}

/// Makes all the moves in the wide warehouse and returns the map that results.
#[verifier::loop_isolation(false)]
pub fn movement_wide(map: Vec<Vec<u8>>, movements: &Vec<u8>, start_position: (usize, usize)) -> (out:
    Option<Vec<Vec<u8>>>)
    ensures
        match wide_run(floor_of(map@, start_position), movements@) {
            Some(f) => out is Some && views(out->0@) == f.cells,
            None => out is None,
        },
{
    let ghost goal = wide_run(floor_of(map@, start_position), movements@);
    let mut grid = map;
    let mut pos = start_position;
    let mut i: usize = 0;
    assert(movements@.skip(0) =~= movements@);
    while i < movements.len()
        invariant
            0 <= i <= movements@.len(),
            wide_run(floor_of(grid@, pos), movements@.skip(i as int)) == goal,
        decreases movements@.len() - i,
    {
        assert(movements@.skip(i as int)[0] == movements@[i as int]);
        assert(movements@.skip(i as int).drop_first() =~= movements@.skip(i + 1));
        let h = match read_heading(movements[i]) {
            Some(h) => h,
            None => {
                return None;
            },
        };
        if !update_map_wide(&mut grid, &mut pos, h) {
            return None;
        }
        i += 1;
    }
    Some(grid)
}

/// The sum of `100 * r + c` over the places of the left halves of the wide
/// crates, if it fits in 32 bits.
pub fn calculate_wide_box_gps(map: &Vec<Vec<u8>>) -> (out: Option<u32>)
    ensures
        out == if gps(views(map@), CRATE_LEFT, 0) <= u32::MAX {
            Some(gps(views(map@), CRATE_LEFT, 0) as u32)
        } else {
            None::<u32>
        },
{
    sum_gps(map, CRATE_LEFT)
}

/// The sum of the crates' coordinates after the robot has made its moves in
/// the warehouse drawn twice as wide.
pub fn part_two(input: &str) -> (out: Option<u32>)
    ensures
        out == answer_two(input.spec_bytes()),
{
    let pat: Vec<u8> = vec![10u8, 10u8];
    let (top, bottom) = match split_once(input.as_bytes(), pat.as_slice()) {
        Some(p) => p,
        None => {
            return None;
        },
    };
    let move_lines = lines(bottom.as_slice());
    let movements = join(&move_lines);
    let original_map = lines(top.as_slice());
    let wide_map = create_wide_map(&original_map);
    if wide_map.len() == 0 {
        return None;
    }
    let cols = wide_map[0].len();
    assert(views(wide_map@)[0] == wide_map@[0]@);
    let start = match find_first_robot(&wide_map, cols) {
        Some(p) => p,
        None => {
            return None;
        },
    };
    let finished = match movement_wide(wide_map, &movements, start) {
        Some(m) => m,
        None => {
            return None;
        },
    };
    calculate_wide_box_gps(&finished)
}

/// The two maps have the same shape, and walls in the same places.
pub open spec fn same_walls(a: Seq<Seq<u8>>, b: Seq<Seq<u8>>) -> bool {
    &&& a.len() == b.len()
    &&& forall|r: int| 0 <= r < a.len() ==> (#[trigger] a[r]).len() == b[r].len()
    &&& forall|r: int, c: int|
        0 <= r < a.len() && 0 <= c < a[r].len() ==> (cell(a, r, c) == Some(WALL) <==> #[trigger] cell(
            b,
            r,
            c,
        ) == Some(WALL))
}

/// The place is on the map and holds no wall.
pub open spec fn no_wall(g: Seq<Seq<u8>>, r: int, c: int) -> bool {
    cell(g, r, c) is Some && cell(g, r, c) != Some(WALL)
}

proof fn lemma_write_keeps_walls(g: Seq<Seq<u8>>, r: int, c: int, v: u8)
    requires
        no_wall(g, r, c),
        v != WALL,
    ensures
        with_cell(g, r, c, v) is Some,
        same_walls(g, with_cell(g, r, c, v)->0),
        cell(with_cell(g, r, c, v)->0, r, c) == Some(v),
{
    let g2 = with_cell(g, r, c, v)->0;
    assert forall|r2: int, c2: int| 0 <= r2 < g.len() && 0 <= c2 < g[r2].len() implies (cell(
        g,
        r2,
        c2,
    ) == Some(WALL) <==> #[trigger] cell(g2, r2, c2) == Some(WALL)) by {
        if r2 == r {
            if c2 != c {
                assert(g2[r2][c2] == g[r2][c2]);
            }
        } else {
            assert(g2[r2] == g[r2]);
        }
    }
}

proof fn lemma_same_walls_chain(a: Seq<Seq<u8>>, b: Seq<Seq<u8>>, c: Seq<Seq<u8>>)
    requires
        same_walls(a, b),
        same_walls(b, c),
    ensures
        same_walls(a, c),
{
    assert forall|r: int, k: int| 0 <= r < a.len() && 0 <= k < a[r].len() implies (cell(a, r, k)
        == Some(WALL) <==> #[trigger] cell(c, r, k) == Some(WALL)) by {
        assert(cell(a, r, k) == Some(WALL) <==> cell(b, r, k) == Some(WALL));
        assert(cell(b, r, k) == Some(WALL) <==> cell(c, r, k) == Some(WALL));
    }
}

proof fn lemma_no_wall_stays(a: Seq<Seq<u8>>, b: Seq<Seq<u8>>, r: int, c: int)
    requires
        same_walls(a, b),
        no_wall(a, r, c),
    ensures
        no_wall(b, r, c),
{
    assert(cell(a, r, c) == Some(WALL) <==> cell(b, r, c) == Some(WALL));
}

proof fn lemma_crates_placed_keeps_walls(
    g: Seq<Seq<u8>>,
    r: int,
    c: int,
    h: Heading,
    n: int,
    count: int,
)
    requires
        0 <= n,
        forall|d: int| n + 2 <= d < count + 2 ==> no_wall(g, #[trigger] shifted(r, h.dr(), d), shifted(c, h.dc(), d)),
    ensures
        crates_placed(g, r, c, h, n, count) is Some,
        same_walls(g, crates_placed(g, r, c, h, n, count)->0),
    decreases count - n,
{
    if n < count {
        let pr = shifted(r, h.dr(), n + 2);
        let pc = shifted(c, h.dc(), n + 2);
        assert(no_wall(g, pr, pc));
        lemma_write_keeps_walls(g, pr, pc, CRATE);
        let g2 = with_cell(g, pr, pc, CRATE)->0;
        assert forall|d: int| n + 3 <= d < count + 2 implies no_wall(
            g2,
            #[trigger] shifted(r, h.dr(), d),
            shifted(c, h.dc(), d),
        ) by {
            assert(no_wall(g, shifted(r, h.dr(), d), shifted(c, h.dc(), d)));
            lemma_no_wall_stays(g, g2, shifted(r, h.dr(), d), shifted(c, h.dc(), d));
        }
        lemma_crates_placed_keeps_walls(g2, r, c, h, n + 1, count);
        lemma_same_walls_chain(g, g2, crates_placed(g2, r, c, h, n + 1, count)->0);
    } else {
        assert(same_walls(g, g));
    }
}

proof fn lemma_robot_moved_keeps_walls(f: Floor, nr: int, nc: int)
    requires
        no_wall(f.cells, f.row, f.col),
        no_wall(f.cells, nr, nc),
    ensures
        robot_moved(f, nr, nc) matches Some(f2) && same_walls(f.cells, f2.cells) && no_wall(
            f2.cells,
            f2.row,
            f2.col,
        ),
{
    lemma_write_keeps_walls(f.cells, f.row, f.col, EMPTY);
    let g = with_cell(f.cells, f.row, f.col, EMPTY)->0;
    lemma_no_wall_stays(f.cells, g, nr, nc);
    lemma_write_keeps_walls(g, nr, nc, ROBOT);
    lemma_same_walls_chain(f.cells, g, with_cell(g, nr, nc, ROBOT)->0);
}

proof fn lemma_pushed_keeps_walls(f: Floor, rows: int, cols: int, h: Heading, k: int, count: int)
    requires
        no_wall(f.cells, f.row, f.col),
        1 <= k,
        0 <= count < k,
        forall|d: int| 1 <= d < k ==> no_wall(f.cells, #[trigger] shifted(f.row, h.dr(), d), shifted(f.col, h.dc(), d)),
        k > 1 || no_wall(f.cells, f.row + h.dr(), f.col + h.dc()),
    ensures
        pushed(f, rows, cols, h, k, count) matches Some(f2) ==> same_walls(f.cells, f2.cells)
            && no_wall(f2.cells, f2.row, f2.col),
    decreases scan_limit(f, rows, cols, h) - k,
{
    assert(same_walls(f.cells, f.cells));
    if 1 <= k < scan_limit(f, rows, cols, h) {
        let pr = shifted(f.row, h.dr(), k);
        let pc = shifted(f.col, h.dc(), k);
        match cell(f.cells, pr, pc) {
            None => {},
            Some(b) => {
                if b == WALL {
                } else if b == EMPTY {
                    assert(no_wall(f.cells, pr, pc));
                    assert forall|d: int| 2 <= d < count + 2 implies no_wall(
                        f.cells,
                        #[trigger] shifted(f.row, h.dr(), d),
                        shifted(f.col, h.dc(), d),
                    ) by {
                        if d < k {
                        } else {
                            assert(d == k);
                        }
                    }
                    lemma_crates_placed_keeps_walls(f.cells, f.row, f.col, h, 0, count);
                    let g = crates_placed(f.cells, f.row, f.col, h, 0, count)->0;
                    assert(shifted(f.row, h.dr(), 1) == f.row + h.dr());
                    assert(shifted(f.col, h.dc(), 1) == f.col + h.dc());
                    assert(no_wall(f.cells, f.row + h.dr(), f.col + h.dc())) by {
                        if k > 1 {
                            assert(no_wall(
                                f.cells,
                                shifted(f.row, h.dr(), 1),
                                shifted(f.col, h.dc(), 1),
                            ));
                        }
                    }
                    lemma_no_wall_stays(f.cells, g, f.row, f.col);
                    lemma_no_wall_stays(f.cells, g, f.row + h.dr(), f.col + h.dc());
                    let fg = Floor { cells: g, row: f.row, col: f.col };
                    lemma_robot_moved_keeps_walls(fg, f.row + h.dr(), f.col + h.dc());
                    let moved = robot_moved(fg, f.row + h.dr(), f.col + h.dc())->0;
                    lemma_same_walls_chain(f.cells, g, moved.cells);
                } else {
                    assert(no_wall(f.cells, pr, pc));
                    assert forall|d: int| 1 <= d < k + 1 implies no_wall(
                        f.cells,
                        #[trigger] shifted(f.row, h.dr(), d),
                        shifted(f.col, h.dc(), d),
                    ) by {
                        if d == k {
                        }
                    }
                    if b == CRATE {
                        lemma_pushed_keeps_walls(f, rows, cols, h, k + 1, count + 1);
                    } else {
                        lemma_pushed_keeps_walls(f, rows, cols, h, k + 1, count);
                    }
                }
            },
        }
    }
}

/// A move of the robot among plain crates leaves the map in its shape and
/// every wall where it is, and the robot does not come to stand in a wall,
/// where it did not stand in one before.
pub proof fn lemma_step_keeps_walls(f: Floor, rows: int, cols: int, h: Heading)
    requires
        no_wall(f.cells, f.row, f.col),
    ensures
        step(f, rows, cols, h) matches Some(f2) ==> same_walls(f.cells, f2.cells) && no_wall(
            f2.cells,
            f2.row,
            f2.col,
        ),
{
    assert(same_walls(f.cells, f.cells));
    match cell(f.cells, f.row + h.dr(), f.col + h.dc()) {
        None => {},
        Some(b) => {
            if b == EMPTY {
                lemma_robot_moved_keeps_walls(f, f.row + h.dr(), f.col + h.dc());
            } else if b == WALL {
            } else {
                lemma_pushed_keeps_walls(f, rows, cols, h, 1, 0);
            }
        },
    }
}

/// All the moves of the robot among plain crates leave every wall where it is.
pub proof fn lemma_run_keeps_walls(f: Floor, rows: int, cols: int, moves: Seq<u8>)
    requires
        no_wall(f.cells, f.row, f.col),
    ensures
        run(f, rows, cols, moves) matches Some(f2) ==> same_walls(f.cells, f2.cells),
    decreases moves.len(),
{
    assert(same_walls(f.cells, f.cells));
    if moves.len() > 0 {
        match heading_of(moves[0]) {
            None => {},
            Some(h) => {
                lemma_step_keeps_walls(f, rows, cols, h);
                match step(f, rows, cols, h) {
                    None => {},
                    Some(f2) => {
                        lemma_run_keeps_walls(f2, rows, cols, moves.drop_first());
                        match run(f2, rows, cols, moves.drop_first()) {
                            None => {},
                            Some(f3) => {
                                lemma_same_walls_chain(f.cells, f2.cells, f3.cells);
                            },
                        }
                    },
                }
            },
        }
    }
}

/// Every half of a wide crate has the other half beside it.
pub open spec fn paired(g: Seq<Seq<u8>>) -> bool {
    forall|r: int, c: int|
        ((#[trigger] cell(g, r, c)) == Some(CRATE_LEFT) ==> cell(g, r, c + 1) == Some(CRATE_RIGHT))
            && (cell(g, r, c) == Some(CRATE_RIGHT) ==> cell(g, r, c - 1) == Some(CRATE_LEFT))
}

/// The map shows the two halves of the crate where the crate says they are.
pub open spec fn proper(g: Seq<Seq<u8>>, x: WideCrate) -> bool {
    cell(g, x.0, x.1) == Some(CRATE_LEFT) && cell(g, x.0, x.2) == Some(CRATE_RIGHT)
}

/// The map shows every crate of the list.
pub open spec fn all_proper(g: Seq<Seq<u8>>, s: Seq<WideCrate>) -> bool {
    forall|i: int| 0 <= i < s.len() ==> proper(g, #[trigger] s[i])
}

/// The places `k` steps ahead of the two halves of every crate of the level
/// are on the map and hold no wall.
pub open spec fn level_open(g: Seq<Seq<u8>>, level: Seq<WideCrate>, h: Heading, k: int) -> bool {
    forall|i: int|
        0 <= i < level.len() ==> no_wall(
            g,
            shifted((#[trigger] level[i]).0, h.dr(), k),
            shifted(level[i].1, h.dc(), k),
        ) && no_wall(g, shifted(level[i].0, h.dr(), k), shifted(level[i].2, h.dc(), k))
}

proof fn lemma_wall_ahead(g: Seq<Seq<u8>>, level: Seq<WideCrate>, h: Heading, i: int)
    requires
        0 <= i,
        wall_ahead(g, level, h, i) == Some(false),
    ensures
        forall|j: int|
            i <= j < level.len() ==> no_wall(
                g,
                shifted((#[trigger] level[j]).0, h.dr(), 1),
                shifted(level[j].1, h.dc(), 1),
            ) && no_wall(g, shifted(level[j].0, h.dr(), 1), shifted(level[j].2, h.dc(), 1)),
    decreases level.len() - i,
{
    if i < level.len() {
        lemma_wall_ahead(g, level, h, i + 1);
    }
}

proof fn lemma_crates_ahead_proper(g: Seq<Seq<u8>>, level: Seq<WideCrate>, h: Heading, i: int)
    requires
        0 <= i,
        paired(g),
    ensures
        crates_ahead(g, level, h, i) matches Some(found) ==> all_proper(g, found),
    decreases level.len() - i,
{
    if i < level.len() {
        let b = level[i];
        lemma_crates_ahead_proper(g, level, h, i + 1);
        match (crate_ahead(g, b.0, b.1, h), crate_ahead(g, b.0, b.2, h), crates_ahead(g, level, h, i + 1)) {
            (Some(x), Some(y), Some(rest)) => {
                let found = one_or_none(x) + one_or_none(y) + rest;
                assert forall|j: int| 0 <= j < found.len() implies proper(g, #[trigger] found[j]) by {
                    let a = one_or_none(x).len();
                    let c = one_or_none(y).len();
                    if j < a {
                        assert(found[j] == x->0);
                    } else if j < a + c {
                        assert(found[j] == y->0);
                    } else {
                        assert(found[j] == rest[j - a - c]);
                    }
                }
            },
            _ => {},
        }
    }
}

proof fn lemma_inserted_proper(g: Seq<Seq<u8>>, s: Seq<WideCrate>, x: WideCrate)
    requires
        all_proper(g, s),
        proper(g, x),
    ensures
        all_proper(g, inserted(s, x)),
    decreases s.len(),
{
    if s.len() == 0 {
    } else if s.last() == x {
    } else if before(s.last(), x) {
        let out = s.push(x);
        assert forall|i: int| 0 <= i < out.len() implies proper(g, #[trigger] out[i]) by {
            if i < s.len() {
                assert(out[i] == s[i]);
            }
        }
    } else {
        let front = s.drop_last();
        assert forall|i: int| 0 <= i < front.len() implies proper(g, #[trigger] front[i]) by {
            assert(front[i] == s[i]);
        }
        lemma_inserted_proper(g, front, x);
        let mid = inserted(front, x);
        let out = mid.push(s.last());
        assert(proper(g, s[s.len() - 1]));
        assert forall|i: int| 0 <= i < out.len() implies proper(g, #[trigger] out[i]) by {
            if i < mid.len() {
                assert(out[i] == mid[i]);
            }
        }
    }
}

proof fn lemma_sorted_unique_proper(g: Seq<Seq<u8>>, s: Seq<WideCrate>)
    requires
        all_proper(g, s),
    ensures
        all_proper(g, sorted_unique(s)),
    decreases s.len(),
{
    if s.len() > 0 {
        let front = s.drop_last();
        assert forall|i: int| 0 <= i < front.len() implies proper(g, #[trigger] front[i]) by {
            assert(front[i] == s[i]);
        }
        lemma_sorted_unique_proper(g, front);
        assert(proper(g, s[s.len() - 1]));
        lemma_inserted_proper(g, sorted_unique(front), s.last());
    }
}

/// Every level of the chain is shown on the map, and every level before
/// the `n`-th has no wall ahead of it.
pub open spec fn chain_sound(g: Seq<Seq<u8>>, chain: Seq<Seq<WideCrate>>, h: Heading, n: int) -> bool {
    &&& forall|j: int| 0 <= j < chain.len() ==> all_proper(g, #[trigger] chain[j])
    &&& forall|j: int| 0 <= j < chain.len() && j < n ==> level_open(g, #[trigger] chain[j], h, 1)
}

proof fn lemma_grown_sound(g: Seq<Seq<u8>>, chain: Seq<Seq<WideCrate>>, h: Heading)
    requires
        paired(g),
        chain_sound(g, chain, h, chain.len() - 1),
    ensures
        grown(g, chain, h) matches Some(Some(out)) ==> chain_sound(g, out, h, out.len() as int),
    decreases usize::MAX - chain.len(),
{
    if chain.len() == 0 || chain.len() >= usize::MAX {
    } else {
        let last = chain.last();
        match wall_ahead(g, last, h, 0) {
            None => {},
            Some(blocked) => {
                if !blocked {
                    lemma_wall_ahead(g, last, h, 0);
                    assert(level_open(g, chain[chain.len() - 1], h, 1));
                    if all_free(g, last, h) {
                    } else {
                        match crates_ahead(g, last, h, 0) {
                            None => {},
                            Some(found) => {
                                let next = sorted_unique(found);
                                if next.len() == 0 || next == last {
                                } else {
                                    lemma_crates_ahead_proper(g, last, h, 0);
                                    lemma_sorted_unique_proper(g, found);
                                    let more = chain.push(next);
                                    assert forall|j: int| 0 <= j < more.len() implies all_proper(
                                        g,
                                        #[trigger] more[j],
                                    ) by {
                                        if j < chain.len() {
                                            assert(more[j] == chain[j]);
                                        }
                                    }
                                    assert forall|j: int|
                                        0 <= j < more.len() && j < more.len() - 1 implies level_open(
                                        g,
                                        #[trigger] more[j],
                                        h,
                                        1,
                                    ) by {
                                        assert(more[j] == chain[j]);
                                    }
                                    lemma_grown_sound(g, more, h);
                                }
                            },
                        }
                    }
                }
            },
        }
    }
}

proof fn lemma_level_open_stays(
    a: Seq<Seq<u8>>,
    b: Seq<Seq<u8>>,
    level: Seq<WideCrate>,
    h: Heading,
    k: int,
)
    requires
        same_walls(a, b),
        level_open(a, level, h, k),
    ensures
        level_open(b, level, h, k),
{
    assert forall|i: int| 0 <= i < level.len() implies no_wall(
        b,
        shifted((#[trigger] level[i]).0, h.dr(), k),
        shifted(level[i].1, h.dc(), k),
    ) && no_wall(b, shifted(level[i].0, h.dr(), k), shifted(level[i].2, h.dc(), k)) by {
        lemma_no_wall_stays(a, b, shifted(level[i].0, h.dr(), k), shifted(level[i].1, h.dc(), k));
        lemma_no_wall_stays(a, b, shifted(level[i].0, h.dr(), k), shifted(level[i].2, h.dc(), k));
    }
}

proof fn lemma_stamped_level_keeps_walls(
    g: Seq<Seq<u8>>,
    level: Seq<WideCrate>,
    h: Heading,
    k: int,
    a: u8,
    b: u8,
    i: int,
)
    requires
        0 <= i,
        a != WALL,
        b != WALL,
        level_open(g, level, h, k),
    ensures
        stamped_level(g, level, h, k, a, b, i) is Some,
        same_walls(g, stamped_level(g, level, h, k, a, b, i)->0),
    decreases level.len() - i,
{
    if i < level.len() {
        let x = level[i];
        let r = shifted(x.0, h.dr(), k);
        assert(no_wall(g, r, shifted(level[i].1, h.dc(), k)));
        lemma_write_keeps_walls(g, r, shifted(x.1, h.dc(), k), a);
        let g1 = with_cell(g, r, shifted(x.1, h.dc(), k), a)->0;
        lemma_no_wall_stays(g, g1, r, shifted(x.2, h.dc(), k));
        lemma_write_keeps_walls(g1, r, shifted(x.2, h.dc(), k), b);
        let g2 = with_cell(g1, r, shifted(x.2, h.dc(), k), b)->0;
        lemma_same_walls_chain(g, g1, g2);
        lemma_level_open_stays(g, g2, level, h, k);
        lemma_stamped_level_keeps_walls(g2, level, h, k, a, b, i + 1);
        lemma_same_walls_chain(g, g2, stamped_level(g2, level, h, k, a, b, i + 1)->0);
    } else {
        assert(same_walls(g, g));
    }
}

proof fn lemma_stamped_keeps_walls(
    g: Seq<Seq<u8>>,
    chain: Seq<Seq<WideCrate>>,
    h: Heading,
    k: int,
    a: u8,
    b: u8,
    j: int,
)
    requires
        0 <= j,
        a != WALL,
        b != WALL,
        forall|n: int| j <= n < chain.len() ==> level_open(g, #[trigger] chain[n], h, k),
    ensures
        stamped(g, chain, h, k, a, b, j) is Some,
        same_walls(g, stamped(g, chain, h, k, a, b, j)->0),
    decreases chain.len() - j,
{
    if j < chain.len() {
        assert(level_open(g, chain[j], h, k));
        lemma_stamped_level_keeps_walls(g, chain[j], h, k, a, b, 0);
        let g1 = stamped_level(g, chain[j], h, k, a, b, 0)->0;
        assert forall|n: int| j + 1 <= n < chain.len() implies level_open(
            g1,
            #[trigger] chain[n],
            h,
            k,
        ) by {
            lemma_level_open_stays(g, g1, chain[n], h, k);
        }
        lemma_stamped_keeps_walls(g1, chain, h, k, a, b, j + 1);
        lemma_same_walls_chain(g, g1, stamped(g1, chain, h, k, a, b, j + 1)->0);
    } else {
        assert(same_walls(g, g));
    }
}

/// A move of the robot among wide crates, on a map where every half of a
/// crate has the other half beside it and the robot stands in no wall,
/// leaves the map in its shape and every wall where it is.
pub proof fn lemma_wide_step_keeps_walls(f: Floor, h: Heading)
    requires
        paired(f.cells),
        no_wall(f.cells, f.row, f.col),
    ensures
        wide_step(f, h) matches Some(f2) ==> same_walls(f.cells, f2.cells) && no_wall(
            f2.cells,
            f2.row,
            f2.col,
        ),
{
    assert(same_walls(f.cells, f.cells));
    let nr = shifted(f.row, h.dr(), 1);
    let nc = shifted(f.col, h.dc(), 1);
    match cell(f.cells, nr, nc) {
        None => {},
        Some(b) => {
            if b == EMPTY {
                lemma_robot_moved_keeps_walls(f, nr, nc);
            } else if b == CRATE_LEFT || b == CRATE_RIGHT {
                match crate_ahead(f.cells, f.row, f.col, h) {
                    Some(Some(first)) => {
                        let start = seq![seq![first]];
                        assert(proper(f.cells, first));
                        assert(chain_sound(f.cells, start, h, 0)) by {
                            assert forall|j: int| 0 <= j < start.len() implies all_proper(
                                f.cells,
                                #[trigger] start[j],
                            ) by {
                                assert(start[j] =~= seq![first]);
                            }
                        }
                        lemma_grown_sound(f.cells, start, h);
                        match grown(f.cells, start, h) {
                            Some(Some(chain)) => {
                                assert forall|n: int| 0 <= n < chain.len() implies level_open(
                                    f.cells,
                                    #[trigger] chain[n],
                                    h,
                                    0,
                                ) by {
                                    assert(all_proper(f.cells, chain[n]));
                                    assert forall|i: int| 0 <= i < chain[n].len() implies no_wall(
                                        f.cells,
                                        shifted((#[trigger] chain[n][i]).0, h.dr(), 0),
                                        shifted(chain[n][i].1, h.dc(), 0),
                                    ) && no_wall(
                                        f.cells,
                                        shifted(chain[n][i].0, h.dr(), 0),
                                        shifted(chain[n][i].2, h.dc(), 0),
                                    ) by {
                                        assert(proper(f.cells, chain[n][i]));
                                    }
                                }
                                lemma_stamped_keeps_walls(f.cells, chain, h, 0, EMPTY, EMPTY, 0);
                                let g1 = stamped(f.cells, chain, h, 0, EMPTY, EMPTY, 0)->0;
                                assert forall|n: int| 0 <= n < chain.len() implies level_open(
                                    g1,
                                    #[trigger] chain[n],
                                    h,
                                    1,
                                ) by {
                                    assert(level_open(f.cells, chain[n], h, 1));
                                    lemma_level_open_stays(f.cells, g1, chain[n], h, 1);
                                }
                                lemma_stamped_keeps_walls(g1, chain, h, 1, CRATE_LEFT, CRATE_RIGHT, 0);
                                let g2 = stamped(g1, chain, h, 1, CRATE_LEFT, CRATE_RIGHT, 0)->0;
                                lemma_same_walls_chain(f.cells, g1, g2);
                                assert(no_wall(f.cells, nr, nc));
                                lemma_no_wall_stays(f.cells, g2, nr, nc);
                                lemma_no_wall_stays(f.cells, g2, f.row, f.col);
                                let fg = Floor { cells: g2, row: f.row, col: f.col };
                                lemma_robot_moved_keeps_walls(fg, nr, nc);
                                let moved = robot_moved(fg, nr, nc)->0;
                                lemma_same_walls_chain(f.cells, g2, moved.cells);
                            },
                            _ => {},
                        }
                    },
                    _ => {},
                }
            } else {
            }
        },
    }
}

/// How far ahead of `(row, col)` the place `(r, c)` lies in the direction
/// `h`, if it lies on that line; behind is a negative distance.
pub open spec fn distance_ahead(row: int, col: int, h: Heading, r: int, c: int) -> Option<int> {
    match h {
        Heading::Up => if c == col {
            Some(row - r)
        } else {
            None
        },
        Heading::Down => if c == col {
            Some(r - row)
        } else {
            None
        },
        Heading::Left => if r == row {
            Some(col - c)
        } else {
            None
        },
        Heading::Right => if r == row {
            Some(c - col)
        } else {
            None
        },
    }
}

/// What the place `(r, c)` holds after the robot has pushed a row of crates
/// that ends `k` steps ahead of it: the robot's place is free, the robot
/// stands one step ahead, crates stand from there up to `k` steps ahead, and
/// every other place is as it was.
pub open spec fn after_push(f: Floor, h: Heading, k: int, r: int, c: int) -> Option<u8> {
    if cell(f.cells, r, c) is None {
        None
    } else {
        match distance_ahead(f.row, f.col, h, r, c) {
            Some(d) => if d == 0 {
                Some(EMPTY)
            } else if d == 1 {
                Some(ROBOT)
            } else if 2 <= d <= k {
                Some(CRATE)
            } else {
                cell(f.cells, r, c)
            },
            None => cell(f.cells, r, c),
        }
    }
}

/// What the place `(r2, c2)` holds once crates have been written from `lo`
/// steps ahead of `(r, c)` up to `hi` steps ahead, `hi` not included.
pub open spec fn with_crates(
    g: Seq<Seq<u8>>,
    r: int,
    c: int,
    h: Heading,
    lo: int,
    hi: int,
    r2: int,
    c2: int,
) -> Option<u8> {
    if cell(g, r2, c2) is None {
        None
    } else {
        match distance_ahead(r, c, h, r2, c2) {
            Some(d) => if lo <= d < hi {
                Some(CRATE)
            } else {
                cell(g, r2, c2)
            },
            None => cell(g, r2, c2),
        }
    }
}

proof fn lemma_cell_written(g: Seq<Seq<u8>>, r: int, c: int, v: u8, r2: int, c2: int)
    requires
        cell(g, r, c) is Some,
    ensures
        with_cell(g, r, c, v) is Some,
        cell(with_cell(g, r, c, v)->0, r2, c2) == if r2 == r && c2 == c {
            Some(v)
        } else {
            cell(g, r2, c2)
        },
{
}

proof fn lemma_pushed_skips_crates(
    f: Floor,
    rows: int,
    cols: int,
    h: Heading,
    j: int,
    k: int,
    count: int,
)
    requires
        1 <= j <= k < scan_limit(f, rows, cols, h),
        forall|d: int|
            j <= d < k ==> cell(f.cells, #[trigger] shifted(f.row, h.dr(), d), shifted(f.col, h.dc(), d))
                == Some(CRATE),
    ensures
        pushed(f, rows, cols, h, j, count) == pushed(f, rows, cols, h, k, count + (k - j)),
    decreases k - j,
{
    if j < k {
        assert(cell(f.cells, shifted(f.row, h.dr(), j), shifted(f.col, h.dc(), j)) == Some(CRATE));
        lemma_pushed_skips_crates(f, rows, cols, h, j + 1, k, count + 1);
    }
}

proof fn lemma_crates_placed_cells(g: Seq<Seq<u8>>, r: int, c: int, h: Heading, n: int, count: int)
    requires
        0 <= n,
        forall|d: int|
            n + 2 <= d < count + 2 ==> cell(g, #[trigger] shifted(r, h.dr(), d), shifted(c, h.dc(), d)) is Some,
    ensures
        crates_placed(g, r, c, h, n, count) is Some,
        forall|r2: int, c2: int| #[trigger]
            cell(crates_placed(g, r, c, h, n, count)->0, r2, c2) == with_crates(
                g,
                r,
                c,
                h,
                n + 2,
                count + 2,
                r2,
                c2,
            ),
    decreases count - n,
{
    if n < count {
        let pr = shifted(r, h.dr(), n + 2);
        let pc = shifted(c, h.dc(), n + 2);
        assert(cell(g, pr, pc) is Some);
        let g2 = with_cell(g, pr, pc, CRATE)->0;
        assert forall|d: int| n + 3 <= d < count + 2 implies cell(
            g2,
            #[trigger] shifted(r, h.dr(), d),
            shifted(c, h.dc(), d),
        ) is Some by {
            assert(cell(g, shifted(r, h.dr(), d), shifted(c, h.dc(), d)) is Some);
            lemma_cell_written(g, pr, pc, CRATE, shifted(r, h.dr(), d), shifted(c, h.dc(), d));
        }
        lemma_crates_placed_cells(g2, r, c, h, n + 1, count);
        let end = crates_placed(g2, r, c, h, n + 1, count)->0;
        assert forall|r2: int, c2: int| #[trigger]
            cell(end, r2, c2) == with_crates(g, r, c, h, n + 2, count + 2, r2, c2) by {
            lemma_cell_written(g, pr, pc, CRATE, r2, c2);
            assert(cell(end, r2, c2) == with_crates(g2, r, c, h, n + 3, count + 2, r2, c2));
        }
    }
}

/// A push of a row of plain crates moves the robot and the row by one
/// step and leaves every other place as it was: where crates stand at 1 up
/// to `k - 1` steps ahead of the robot and the place `k` steps ahead is free,
/// the move gives the map that `after_push` describes.
pub proof fn lemma_push_moves_the_row(f: Floor, rows: int, cols: int, h: Heading, k: int)
    requires
        1 <= k,
        k == 1 || k < scan_limit(f, rows, cols, h),
        cell(f.cells, f.row, f.col) is Some,
        forall|d: int|
            1 <= d < k ==> cell(f.cells, #[trigger] shifted(f.row, h.dr(), d), shifted(f.col, h.dc(), d))
                == Some(CRATE),
        cell(f.cells, shifted(f.row, h.dr(), k), shifted(f.col, h.dc(), k)) == Some(EMPTY),
    ensures
        step(f, rows, cols, h) matches Some(f2) && f2.row == f.row + h.dr() && f2.col == f.col
            + h.dc() && forall|r: int, c: int| #[trigger]
            cell(f2.cells, r, c) == after_push(f, h, k, r, c),
{
    let nr = f.row + h.dr();
    let nc = f.col + h.dc();
    assert(shifted(f.row, h.dr(), 1) == nr && shifted(f.col, h.dc(), 1) == nc);
    if k == 1 {
        let g = with_cell(f.cells, f.row, f.col, EMPTY)->0;
        lemma_cell_written(f.cells, f.row, f.col, EMPTY, nr, nc);
        let f2 = robot_moved(f, nr, nc)->0;
        assert forall|r: int, c: int| #[trigger]
            cell(f2.cells, r, c) == after_push(f, h, k, r, c) by {
            lemma_cell_written(f.cells, f.row, f.col, EMPTY, r, c);
            lemma_cell_written(g, nr, nc, ROBOT, r, c);
        }
    } else {
        assert(cell(f.cells, shifted(f.row, h.dr(), 1), shifted(f.col, h.dc(), 1)) == Some(CRATE));
        lemma_pushed_skips_crates(f, rows, cols, h, 1, k, 0);
        assert forall|d: int| 2 <= d < k + 1 implies cell(
            f.cells,
            #[trigger] shifted(f.row, h.dr(), d),
            shifted(f.col, h.dc(), d),
        ) is Some by {
            if d < k {
                assert(cell(f.cells, shifted(f.row, h.dr(), d), shifted(f.col, h.dc(), d)) == Some(
                    CRATE,
                ));
            }
        }
        lemma_crates_placed_cells(f.cells, f.row, f.col, h, 0, k - 1);
        let g = crates_placed(f.cells, f.row, f.col, h, 0, k - 1)->0;
        assert(cell(g, f.row, f.col) is Some);
        assert(cell(g, nr, nc) is Some);
        let g1 = with_cell(g, f.row, f.col, EMPTY)->0;
        lemma_cell_written(g, f.row, f.col, EMPTY, nr, nc);
        let fg = Floor { cells: g, row: f.row, col: f.col };
        let f2 = robot_moved(fg, nr, nc)->0;
        assert(pushed(f, rows, cols, h, k, k - 1) == Some(f2));
        assert forall|r: int, c: int| #[trigger]
            cell(f2.cells, r, c) == after_push(f, h, k, r, c) by {
            assert(cell(g, r, c) == with_crates(f.cells, f.row, f.col, h, 2, k + 1, r, c));
            lemma_cell_written(g, f.row, f.col, EMPTY, r, c);
            lemma_cell_written(g1, nr, nc, ROBOT, r, c);
        }
    }
}

} // verus!
