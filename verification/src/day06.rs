//! A guard walks a map from the place marked `^`, first upwards: straight on
//! until something stands in the way, then a quarter turn to the right. The
//! first part counts the places the guard passes before leaving the map; the
//! second counts the free places where one more obstacle would keep the guard
//! on the map for ever.
use vstd::prelude::*;
use vstd::string::StringSliceAdditionalSpecFns;
use crate::text::{views, lines_of, lines};
use crate::grid::{cell, with_cell, get, put, first_mark, find_first, count_distinct};

verus! {

/// The sign of an obstacle: `#`.
pub const OBSTACLE: u8 = 35;

/// The sign of the guard: `^`.
pub const GUARD: u8 = 94;

/// A place and the way the guard faces there: 0 up, 1 right, 2 down, 3 left.
pub type Stand = (usize, usize, u8);

/// The way the guard faces after a quarter turn to the right.
pub open spec fn turned(d: u8) -> u8 {
    if d >= 3 {
        0
    } else {
        (d + 1) as u8
    }
}

/// The place one step ahead, if it is inside the first `rows` rows and `cols` columns.
pub open spec fn ahead(rows: int, cols: int, at: Stand) -> Option<(usize, usize)> {
    let r = at.0 + (if at.2 == 0 {
        -1int
    } else if at.2 == 2 {
        1int
    } else {
        0int
    });
    let c = at.1 + (if at.2 == 1 {
        1int
    } else if at.2 == 3 {
        -1int
    } else {
        0int
    });
    if 0 <= r < rows && 0 <= c < cols {
        Some((r as usize, c as usize))
    } else {
        None
    }
}

/// The walk of the guard from `at` on. `path` holds where the guard has
/// stood so far and `turns` how often it has turned since its last step. The
/// walk ends where the guard leaves the map, or comes to stand where it has
/// stood before, facing the same way, or has obstacles on all four sides; in
/// the last two cases it would go on for ever. `None` where a row of the
/// map is too short for the place ahead.
pub open spec fn patrol(grid: Seq<Seq<u8>>, cols: int, at: Stand, path: Seq<Stand>, turns: int)
    -> Option<(Seq<Stand>, bool)>
    decreases usize::MAX - path.len(), 4 - turns,
{
    match ahead(grid.len() as int, cols, at) {
        None => Some((path, false)),
        Some(next) => match cell(grid, next.0 as int, next.1 as int) {
            None => None,
            Some(ch) => if ch == OBSTACLE {
                if turns >= 3 {
                    Some((path, true))
                } else {
                    patrol(grid, cols, (at.0, at.1, turned(at.2)), path, turns + 1)
                }
            } else if path.len() >= usize::MAX {
                None
            } else if path.contains((next.0, next.1, at.2)) {
                Some((path.push((next.0, next.1, at.2)), true))
            } else {
                patrol(grid, cols, (next.0, next.1, at.2), path.push((next.0, next.1, at.2)), 0)
            },
        },
    }
}

/// The places of a walk, without the way the guard faces.
pub open spec fn places(path: Seq<Stand>) -> Seq<(usize, usize)> {
    Seq::new(path.len(), |i: int| (path[i].0, path[i].1))
}

/// The width of the map: the length of its first row.
pub open spec fn width(grid: Seq<Seq<u8>>) -> int {
    if grid.len() > 0 {
        grid[0].len() as int
    } else {
        0
    }
}

/// The answer to the first part for the text `s`: the number of places on
/// the guard's way out of the map, if the guard leaves it.
pub open spec fn answer_one(s: Seq<u8>) -> Option<u32> {
    let grid = lines_of(s);
    match first_mark(grid, width(grid), 0, GUARD) {
        None => None,
        Some(p) => {
            let start = (p.0 as usize, p.1 as usize, 0u8);
            match patrol(grid, width(grid), start, seq![start], 0) {
                None => None,
                Some(w) => if w.1 || places(w.0).to_set().len() > u32::MAX {
                    None
                } else {
                    Some(places(w.0).to_set().len() as u32)
                },
            }
        },
    }
}

/// How many of the places from row `r`, column `c` on, in reading order,
/// keep the guard on the map for ever when an obstacle is put there; added to
/// `acc`. The guard's own place and the places of obstacles are passed over.
pub open spec fn traps(grid: Seq<Seq<u8>>, start: (usize, usize), r: int, c: int, acc: int)
    -> Option<int>
    decreases grid.len() - r, width(grid) - c,
{
    if 0 <= r < grid.len() {
        if 0 <= c < width(grid) {
            if (r, c) == (start.0 as int, start.1 as int) {
                traps(grid, start, r, c + 1, acc)
            } else {
                match cell(grid, r, c) {
                    None => None,
                    Some(ch) => if ch == OBSTACLE {
                        traps(grid, start, r, c + 1, acc)
                    } else {
                        match patrol(
                            with_cell(grid, r, c, OBSTACLE)->0,
                            width(grid),
                            (start.0, start.1, 0),
                            seq![(start.0, start.1, 0u8)],
                            0,
                        ) {
                            None => None,
                            Some(w) => traps(
                                grid,
                                start,
                                r,
                                c + 1,
                                if w.1 {
                                    acc + 1
                                } else {
                                    acc
                                },
                            ),
                        }
                    },
                }
            }
        } else {
            traps(grid, start, r + 1, 0, acc)
        }
    } else {
        Some(acc)
    }
}

/// The answer to the second part for the text `s`.
pub open spec fn answer_two(s: Seq<u8>) -> Option<u32> {
    let grid = lines_of(s);
    match first_mark(grid, width(grid), 0, GUARD) {
        None => None,
        Some(p) => match traps(grid, (p.0 as usize, p.1 as usize), 0, 0, 0) {
            Some(n) => if n <= u32::MAX {
                Some(n as u32)
            } else {
                None
            },
            None => None,
        },
    }
}

/// The way the guard faces after a quarter turn to the right.
pub fn rotate_clockwise(d: u8) -> (out: u8)
    ensures
        out == turned(d),
{
    if d >= 3 {
        0
    } else {
        d + 1
    }
}

fn step_ahead(rows: usize, cols: usize, at: Stand) -> (out: Option<(usize, usize)>)
    ensures
        out == ahead(rows as int, cols as int, at),
{
    let (r, c, d) = at;
    let nr = if d == 0 {
        if r == 0 {
            return None;
        }
        r - 1
    } else if d == 2 {
        if r == usize::MAX {
            return None;
        }
        r + 1
    } else {
        r
    };
    let nc = if d == 1 {
        if c == usize::MAX {
            return None;
        }
        c + 1
    } else if d == 3 {
        if c == 0 {
            return None;
        }
        c - 1
    } else {
        c
    };
    if nr < rows && nc < cols {
        Some((nr, nc))
    } else {
        None
    }
}

/// A table with an entry for each way to face and each of the first `cols`
/// places of each of `rows` rows, all false.
#[verifier::loop_isolation(false)]
fn blank(rows: usize, cols: usize) -> (out: Vec<Vec<Vec<bool>>>)
    ensures
        out@.len() == 4,
        forall|d: int| 0 <= d < 4 ==> (#[trigger] out@[d])@.len() == rows,
        forall|d: int, r: int|
            0 <= d < 4 && 0 <= r < rows ==> (#[trigger] out@[d]@[r])@.len() == cols,
        forall|d: int, r: int, c: int|
            0 <= d < 4 && 0 <= r < rows && 0 <= c < cols ==> !(#[trigger] out@[d]@[r]@[c]),
{
    let mut out: Vec<Vec<Vec<bool>>> = Vec::new();
    let mut d: usize = 0;
    while d < 4
        invariant
            0 <= d <= 4,
            out@.len() == d,
            forall|k: int| 0 <= k < d ==> (#[trigger] out@[k])@.len() == rows,
            forall|k: int, r: int|
                0 <= k < d && 0 <= r < rows ==> (#[trigger] out@[k]@[r])@.len() == cols,
            forall|k: int, r: int, c: int|
                0 <= k < d && 0 <= r < rows && 0 <= c < cols ==> !(#[trigger] out@[k]@[r]@[c]),
        decreases 4 - d,
    {
        let mut table: Vec<Vec<bool>> = Vec::new();
        let mut r: usize = 0;
        while r < rows
            invariant
                0 <= r <= rows,
                table@.len() == r,
                forall|k: int| 0 <= k < r ==> (#[trigger] table@[k])@.len() == cols,
                forall|k: int, c: int| 0 <= k < r && 0 <= c < cols ==> !(#[trigger] table@[k]@[c]),
            decreases rows - r,
        {
            let mut row: Vec<bool> = Vec::new();
            let mut c: usize = 0;
            while c < cols
                invariant
                    0 <= c <= cols,
                    row@.len() == c,
                    forall|k: int| 0 <= k < c ==> !(#[trigger] row@[k]),
                decreases cols - c,
            {
                row.push(false);
                c += 1;
            }
            table.push(row);
            r += 1;
        }
        out.push(table);
        d += 1;
    }
    out
}

/// The table marks just the stands of the path.
pub open spec fn marks(seen: Seq<Vec<Vec<bool>>>, rows: int, cols: int, path: Seq<Stand>) -> bool {
    &&& seen.len() == 4
    &&& forall|d: int| 0 <= d < 4 ==> (#[trigger] seen[d])@.len() == rows
    &&& forall|d: int, r: int| 0 <= d < 4 && 0 <= r < rows ==> (#[trigger] seen[d]@[r])@.len() == cols
    &&& forall|d: int, r: int, c: int|
        0 <= d < 4 && 0 <= r < rows && 0 <= c < cols ==> (#[trigger] seen[d]@[r]@[c])
            == path.contains((r as usize, c as usize, d as u8))
}

/// The walk of a guard that starts at `start` facing `start_dir`: the
/// stands of the guard and whether the walk would go on for ever. There is
/// none where `start_dir` is no way to face or a row of the map is too
/// short, and, unless `track_loop` is set, where the walk would go on for ever.
pub open spec fn walk_of(grid: Seq<Seq<u8>>, start: (usize, usize), start_dir: u8, track_loop: bool)
    -> Option<(Seq<Stand>, bool)> {
    if start_dir > 3 {
        None
    } else {
        match patrol(
            grid,
            width(grid),
            (start.0, start.1, start_dir),
            seq![(start.0, start.1, start_dir)],
            0,
        ) {
            None => None,
            Some(w) => if w.1 && !track_loop {
                None
            } else {
                Some(w)
            },
        }
    }
}

/// Walks the guard from `start`, facing `start_dir`. Gives the stands of
/// the guard and whether the walk would go on for ever; a walk that would
/// is only given where `track_loop` is set.
#[verifier::loop_isolation(false)]
pub fn guard_movement(
    grid: &Vec<Vec<u8>>,
    start: (usize, usize),
    start_dir: u8,
    track_loop: bool,
) -> (out: Option<(Vec<Stand>, bool)>)
    ensures
        match walk_of(views(grid@), start, start_dir, track_loop) {
            Some(w) => out is Some && (out->0).0@ == w.0 && (out->0).1 == w.1,
            None => out is None,
        },
{
    if start_dir > 3 {
        return None;
    }
    let ghost g = views(grid@);
    let rows = grid.len();
    let cols = if rows > 0 {
        grid[0].len()
    } else {
        0
    };
    assert(rows > 0 ==> g[0] == grid@[0]@);
    let mut seen = blank(rows, cols);
    let mut path: Vec<Stand> = Vec::new();
    let mut at: Stand = (start.0, start.1, start_dir);
    path.push(at);
    assert(path@ =~= seq![(start.0, start.1, start_dir)]);
    let ghost goal = patrol(g, cols as int, at, path@, 0);
    if start.0 < rows && start.1 < cols {
        seen[start_dir as usize][start.0][start.1] = true;
    }
    assert(marks(seen@, rows as int, cols as int, path@)) by {
        assert forall|d: int, r: int, c: int|
            0 <= d < 4 && 0 <= r < rows && 0 <= c < cols implies (#[trigger] seen@[d]@[r]@[c])
            == path@.contains((r as usize, c as usize, d as u8)) by {
            if path@.contains((r as usize, c as usize, d as u8)) {
                let k = choose|k: int|
                    0 <= k < path@.len() && path@[k] == (r as usize, c as usize, d as u8);
                assert(path@[0] == (start.0, start.1, start_dir));
            } else {
                if d == start_dir && r == start.0 && c == start.1 {
                    assert(path@[0] == (r as usize, c as usize, d as u8));
                }
            }
        }
    }
    let mut turns: u8 = 0;
    loop
        invariant
            rows == grid@.len(),
            cols == width(g),
            at.2 < 4,
            0 <= turns <= 3,
            marks(seen@, rows as int, cols as int, path@),
            patrol(g, cols as int, at, path@, turns as int) == goal,
        decreases usize::MAX - path@.len(), 4 - turns,
    {
        let next = match step_ahead(rows, cols, at) {
            Some(n) => n,
            None => {
                return Some((path, false));
            },
        };
        let ch = match get(grid, next.0, next.1) {
            Some(b) => b,
            None => {
                return None;
            },
        };
        if ch == OBSTACLE {
            if turns >= 3 {
                return if track_loop {
                    Some((path, true))
                } else {
                    None
                };
            }
            at = (at.0, at.1, rotate_clockwise(at.2));
            turns += 1;
        } else {
            if path.len() == usize::MAX {
                return None;
            }
            let stand: Stand = (next.0, next.1, at.2);
            let before = seen[at.2 as usize][next.0][next.1];
            assert(before == path@.contains(stand));
            let ghost old_path = path@;
            path.push(stand);
            if before {
                return if track_loop {
                    Some((path, true))
                } else {
                    None
                };
            }
            seen[at.2 as usize][next.0][next.1] = true;
            assert(marks(seen@, rows as int, cols as int, path@)) by {
                assert forall|d: int, r: int, c: int|
                    0 <= d < 4 && 0 <= r < rows && 0 <= c < cols implies (
                #[trigger] seen@[d]@[r]@[c]) == path@.contains(
                    (r as usize, c as usize, d as u8),
                ) by {
                    vstd::seq_lib::lemma_seq_contains_after_push(
                        old_path,
                        stand,
                        (r as usize, c as usize, d as u8),
                    );
                }
            }
            at = stand;
            turns = 0;
        }
    }
}

#[verifier::loop_isolation(false)]
fn places_of(path: &Vec<Stand>) -> (out: Vec<(usize, usize)>)
    ensures
        out@ == places(path@),
{
    let mut out: Vec<(usize, usize)> = Vec::new();
    let mut i: usize = 0;
    while i < path.len()
        invariant
            0 <= i <= path@.len(),
            out@.len() == i,
            forall|k: int| 0 <= k < i ==> out@[k] == (path@[k].0, path@[k].1),
        decreases path@.len() - i,
    {
        out.push((path[i].0, path[i].1));
        i += 1;
    }
    assert(out@ =~= places(path@));
    out
}

/// Looks for the guard: the first `^` in reading order, or the top left
/// corner where there is none.
pub fn find_start(grid: &Vec<Vec<u8>>) -> (out: Option<(usize, usize)>)
    ensures
        match first_mark(views(grid@), width(views(grid@)), 0, GUARD) {
            Some(p) => out == Some((p.0 as usize, p.1 as usize)) && 0 <= p.0 <= usize::MAX && 0
                <= p.1 <= usize::MAX,
            None => out is None,
        },
{
    let cols = if grid.len() > 0 {
        grid[0].len()
    } else {
        0
    };
    assert(grid@.len() > 0 ==> views(grid@)[0] == grid@[0]@);
    find_first(grid, cols, GUARD)
}

/// The number of places that the guard passes on its way out of the map.
pub fn part_one(input: &str) -> (out: Option<u32>)
    ensures
        out == answer_one(input.spec_bytes()),
{
    let grid = lines(input.as_bytes());
    let start = match find_start(&grid) {
        Some(p) => p,
        None => {
            return None;
        },
    };
    let (path, looped) = match guard_movement(&grid, start, 0, false) {
        Some(w) => w,
        None => {
            return None;
        },
    };
    if looped {
        return None;
    }
    let visited = places_of(&path);
    let n = count_distinct(&visited);
    if n > u32::MAX as usize {
        None
    } else {
        Some(n as u32)
    }
}

proof fn lemma_traps_grow(grid: Seq<Seq<u8>>, start: (usize, usize), r: int, c: int, acc: int)
    ensures
        traps(grid, start, r, c, acc) matches Some(n) ==> n >= acc,
    decreases grid.len() - r, width(grid) - c,
{
    if 0 <= r < grid.len() {
        if 0 <= c < width(grid) {
            lemma_traps_grow(grid, start, r, c + 1, acc);
            lemma_traps_grow(grid, start, r, c + 1, acc + 1);
        } else {
            lemma_traps_grow(grid, start, r + 1, 0, acc);
        }
    }
}

/// The number of free places where one more obstacle keeps the guard on the
/// map for ever.
#[verifier::loop_isolation(false)]
pub fn part_two(input: &str) -> (out: Option<u32>)
    ensures
        out == answer_two(input.spec_bytes()),
{
    let mut grid = lines(input.as_bytes());
    let ghost g = views(grid@);
    let start = match find_start(&grid) {
        Some(p) => p,
        None => {
            return None;
        },
    };
    let rows = grid.len();
    let cols = if rows > 0 {
        grid[0].len()
    } else {
        0
    };
    assert(rows > 0 ==> g[0] == grid@[0]@);
    let ghost goal = traps(g, start, 0, 0, 0);
    let mut count: u32 = 0;
    let mut r: usize = 0;
    while r < rows
        invariant
            0 <= r <= rows,
            views(grid@) == g,
            traps(g, start, r as int, 0, count as int) == goal,
        decreases rows - r,
    {
        let mut c: usize = 0;
        while c < cols
            invariant
                0 <= c <= cols,
                0 <= r < rows,
                views(grid@) == g,
                traps(g, start, r as int, c as int, count as int) == goal,
            decreases cols - c,
        {
            if !(r == start.0 && c == start.1) {
                let ch = match get(&grid, r, c) {
                    Some(b) => b,
                    None => {
                        return None;
                    },
                };
                if ch != OBSTACLE {
                    put(&mut grid, r, c, OBSTACLE);
                    let walk = guard_movement(&grid, start, 0, true);
                    put(&mut grid, r, c, ch);
                    assert(views(grid@)[r as int] =~= g[r as int]);
                    assert(views(grid@) =~= g);
                    match walk {
                        None => {
                            return None;
                        },
                        Some((_path, looped)) => {
                            if looped {
                                if count == u32::MAX {
                                    proof {
                                        lemma_traps_grow(g, start, r as int, c + 1, count + 1);
                                    }
                                    return None;
                                }
                                count += 1;
                            }
                        },
                    }
                }
            }
            c += 1;
        }
        r += 1;
    }
    Some(count)
}

} // verus!
