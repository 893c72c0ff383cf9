//! A map of heights from 0 to 9. A trail starts at a 0 and climbs by one at
//! each step, up, down, left or right, to a 9. The first part adds up, over
//! the starts, the number of tops that trails from there reach; the second
//! the number of trails.
use vstd::prelude::*;
use vstd::string::StringSliceAdditionalSpecFns;
use crate::text::{views, lines_of, lines};
use crate::grid::{cell, get, count_distinct, of_machine_size};

verus! {

/// The height that a byte of the map shows: the digit, or 0 for whatever else.
pub open spec fn height_of(b: u8) -> int {
    if 48 <= b <= 57 {
        b - 48
    } else {
        0
    }
}

/// The neighbour of `(x, y)` on side `d`: above, below, left, right.
pub open spec fn neighbour(x: int, y: int, d: int) -> (int, int) {
    if d == 0 {
        (x - 1, y)
    } else if d == 1 {
        (x + 1, y)
    } else if d == 2 {
        (x, y - 1)
    } else {
        (x, y + 1)
    }
}

/// The place is on a map of `rows` rows and `cols` columns.
pub open spec fn inside(x: int, y: int, rows: int, cols: int) -> bool {
    0 <= x < rows && 0 <= y < cols
}

/// The tops at the ends of the trails that go on from `(x, y)`, a place of
/// height `h`, by way of its neighbours from side `d` on: one entry for each
/// trail. `None` where a row of the map is too short for a place looked at.
pub open spec fn tops(grid: Seq<Seq<u8>>, rows: int, cols: int, x: int, y: int, h: int, d: int)
    -> Option<Seq<(usize, usize)>>
    decreases 10 - h, 4 - d,
{
    if 0 <= d < 4 && 0 <= h < 9 {
        let n = neighbour(x, y, d);
        let here = if inside(n.0, n.1, rows, cols) {
            match cell(grid, n.0, n.1) {
                None => None,
                Some(b) => if height_of(b) == h + 1 {
                    if b == 57 {
                        Some(seq![(n.0 as usize, n.1 as usize)])
                    } else {
                        tops(grid, rows, cols, n.0, n.1, h + 1, 0)
                    }
                } else {
                    Some(seq![])
                },
            }
        } else {
            Some(seq![])
        };
        match (here, tops(grid, rows, cols, x, y, h, d + 1)) {
            (Some(a), Some(b)) => Some(a + b),
            _ => None,
        }
    } else {
        Some(seq![])
    }
}

/// The sum of the scores of the starts from `(x, y)` on, in reading order,
/// added to `acc`. The score of a start is the number of trails from it, or,
/// with `distinct`, the number of tops that they reach, of which the low 32
/// bits count. `None` where the sum does not fit in 32 bits.
pub open spec fn scores(
    grid: Seq<Seq<u8>>,
    rows: int,
    cols: int,
    distinct: bool,
    x: int,
    y: int,
    acc: u32,
) -> Option<u32>
    decreases rows - x, cols - y,
{
    if 0 <= x < rows {
        if 0 <= y < cols {
            match cell(grid, x, y) {
                None => None,
                Some(b) => if b == 48 {
                    match tops(grid, rows, cols, x, y, 0, 0) {
                        None => None,
                        Some(t) => {
                            let n = if distinct {
                                t.to_set().len()
                            } else {
                                t.len()
                            };
                            let score = (n as usize) as u32;
                            if n > usize::MAX || acc + score > u32::MAX {
                                None
                            } else {
                                scores(grid, rows, cols, distinct, x, y + 1, (acc + score) as u32)
                            }
                        },
                    }
                } else {
                    scores(grid, rows, cols, distinct, x, y + 1, acc)
                },
            }
        } else {
            scores(grid, rows, cols, distinct, x + 1, 0, acc)
        }
    } else {
        Some(acc)
    }
}

/// The answer for the text `s`.
pub open spec fn answer(s: Seq<u8>, distinct: bool) -> Option<u32> {
    let grid = lines_of(s);
    if grid.len() == 0 {
        None
    } else {
        scores(grid, grid.len() as int, grid[0].len() as int, distinct, 0, 0, 0)
    }
}

/// Whether the place is on a map of `rows` rows and `cols` columns.
pub fn in_bounds(x: usize, y: usize, rows: usize, cols: usize) -> (r: bool)
    ensures
        r == inside(x as int, y as int, rows as int, cols as int),
{
    x < rows && y < cols
}

/// The neighbour of a place on side `d`, if its row and column are numbers
/// that the machine can hold.
pub fn hike(x: usize, y: usize, d: u8) -> (out: Option<(usize, usize)>)
    ensures
        ({
            let n = neighbour(x as int, y as int, d as int);
            match out {
                Some(p) => p.0 == n.0 && p.1 == n.1,
                None => n.0 < 0 || n.1 < 0 || n.0 > usize::MAX || n.1 > usize::MAX,
            }
        }),
{
    if d == 0 {
        if x == 0 {
            None
        } else {
            Some((x - 1, y))
        }
    } else if d == 1 {
        if x == usize::MAX {
            None
        } else {
            Some((x + 1, y))
        }
    } else if d == 2 {
        if y == 0 {
            None
        } else {
            Some((x, y - 1))
        }
    } else {
        if y == usize::MAX {
            None
        } else {
            Some((x, y + 1))
        }
    }
}

fn digit(b: u8) -> (h: u8)
    ensures
        h == height_of(b),
{
    if 48 <= b && b <= 57 {
        b - 48
    } else {
        0
    }
}

/// Follows the trails that go on from `(x, y)`, a place of height `h`, and
/// puts the tops at their ends behind `out`.
#[verifier::loop_isolation(false)]
pub fn climb(
    map: &Vec<Vec<u8>>,
    rows: usize,
    cols: usize,
    x: usize,
    y: usize,
    h: u8,
    out: &mut Vec<(usize, usize)>,
) -> (ok: bool)
    ensures
        match tops(views(map@), rows as int, cols as int, x as int, y as int, h as int, 0) {
            Some(t) => ok && final(out)@ == old(out)@ + t,
            None => !ok,
        },
    decreases 10 - h,
{
    let ghost g = views(map@);
    if h >= 9 {
        assert(out@ + Seq::<(usize, usize)>::empty() =~= out@);
        return true;
    }
    let ghost goal = tops(g, rows as int, cols as int, x as int, y as int, h as int, 0);
    let mut d: u8 = 0;
    while d < 4
        invariant
            0 <= d <= 4,
            h < 9,
            match tops(g, rows as int, cols as int, x as int, y as int, h as int, d as int) {
                Some(rest) => goal is Some && old(out)@ + goal->0 == out@ + rest,
                None => goal is None,
            },
        decreases 4 - d,
    {
        let ghost before = out@;
        let ghost rest = tops(g, rows as int, cols as int, x as int, y as int, h as int, d + 1);
        let n = match hike(x, y, d) {
            Some(n) => if in_bounds(n.0, n.1, rows, cols) {
                Some(n)
            } else {
                None
            },
            None => None,
        };
        match n {
            None => {
                assert(out@ + Seq::<(usize, usize)>::empty() =~= out@);
                proof {
                    if rest is Some {
                        assert(out@ + (Seq::<(usize, usize)>::empty() + rest->0) =~= out@ + rest->0);
                    }
                }
            },
            Some(n) => {
                let b = match get(map, n.0, n.1) {
                    Some(b) => b,
                    None => {
                        return false;
                    },
                };
                if digit(b) == h + 1 {
                    if b == 57 {
                        out.push(n);
                        proof {
                            if rest is Some {
                                assert(out@ + rest->0 =~= before + (seq![n] + rest->0));
                            }
                        }
                    } else {
                        if !climb(map, rows, cols, n.0, n.1, h + 1, out) {
                            return false;
                        }
                        proof {
                            let t = tops(g, rows as int, cols as int, n.0 as int, n.1 as int, h + 1, 0)->0;
                            if rest is Some {
                                assert(out@ + rest->0 =~= before + (t + rest->0));
                            }
                        }
                    }
                } else {
                    proof {
                        if rest is Some {
                            assert(out@ + (Seq::<(usize, usize)>::empty() + rest->0) =~= out@
                                + rest->0);
                        }
                    }
                }
            },
        }
        d += 1;
    }
    assert(out@ + Seq::<(usize, usize)>::empty() =~= out@);
    true
}

#[verifier::loop_isolation(false)]
fn total_score(input: &[u8], distinct: bool) -> (out: Option<u32>)
    ensures
        out == answer(input@, distinct),
{
    let map = lines(input);
    let ghost g = views(map@);
    let rows = map.len();
    if rows == 0 {
        return None;
    }
    let cols = map[0].len();
    assert(g[0] == map@[0]@);
    let mut total: u32 = 0;
    let mut x: usize = 0;
    while x < rows
        invariant
            0 <= x <= rows,
            scores(g, rows as int, cols as int, distinct, x as int, 0, total) == scores(
                g,
                rows as int,
                cols as int,
                distinct,
                0,
                0,
                0,
            ),
        decreases rows - x,
    {
        let mut y: usize = 0;
        while y < cols
            invariant
                0 <= y <= cols,
                0 <= x < rows,
                scores(g, rows as int, cols as int, distinct, x as int, y as int, total) == scores(
                    g,
                    rows as int,
                    cols as int,
                    distinct,
                    0,
                    0,
                    0,
                ),
            decreases cols - y,
        {
            let b = match get(&map, x, y) {
                Some(b) => b,
                None => {
                    return None;
                },
            };
            if b == 48 {
                let mut found: Vec<(usize, usize)> = Vec::new();
                if !climb(&map, rows, cols, x, y, 0, &mut found) {
                    return None;
                }
                assert(found@ =~= tops(g, rows as int, cols as int, x as int, y as int, 0, 0)->0);
                let n = if distinct {
                    count_distinct(&found)
                } else {
                    found.len()
                };
                let score = #[verifier::truncate] (n as u32);
                total = match total.checked_add(score) {
                    Some(t) => t,
                    None => {
                        return None;
                    },
                };
            }
            y += 1;
        }
        x += 1;
    }
    Some(total)
}

/// The sum of the numbers of tops reached from each start.
pub fn part_one(input: &str) -> (out: Option<u32>)
    ensures
        out == answer(input.spec_bytes(), true),
{
    total_score(input.as_bytes(), true)
}

/// The sum of the numbers of trails from each start.
pub fn part_two(input: &str) -> (out: Option<u32>)
    ensures
        out == answer(input.spec_bytes(), false),
{
    total_score(input.as_bytes(), false)
}

/// What the trails reach are places of the map that show a 9.
pub proof fn lemma_tops_are_nines(
    grid: Seq<Seq<u8>>,
    rows: int,
    cols: int,
    x: int,
    y: int,
    h: int,
    d: int,
    i: int,
)
    requires
        of_machine_size(grid),
        tops(grid, rows, cols, x, y, h, d) is Some,
        0 <= i < tops(grid, rows, cols, x, y, h, d)->0.len(),
    ensures
        cell(
            grid,
            tops(grid, rows, cols, x, y, h, d)->0[i].0 as int,
            tops(grid, rows, cols, x, y, h, d)->0[i].1 as int,
        ) == Some(57u8),
    decreases 10 - h, 4 - d,
{
    if 0 <= d < 4 && 0 <= h < 9 {
        let n = neighbour(x, y, d);
        let here = if inside(n.0, n.1, rows, cols) {
            match cell(grid, n.0, n.1) {
                None => None,
                Some(b) => if height_of(b) == h + 1 {
                    if b == 57 {
                        Some(seq![(n.0 as usize, n.1 as usize)])
                    } else {
                        tops(grid, rows, cols, n.0, n.1, h + 1, 0)
                    }
                } else {
                    Some(seq![])
                },
            }
        } else {
            Some(seq![])
        };
        let rest = tops(grid, rows, cols, x, y, h, d + 1);
        let a = here->0;
        let b = rest->0;
        assert(tops(grid, rows, cols, x, y, h, d)->0 == a + b);
        if i < a.len() {
            assert((a + b)[i] == a[i]);
            if inside(n.0, n.1, rows, cols) {
                let c = cell(grid, n.0, n.1)->0;
                if height_of(c) == h + 1 && c != 57 {
                    lemma_tops_are_nines(grid, rows, cols, n.0, n.1, h + 1, 0, i);
                } else if c == 57 {
                    assert(grid[n.0].len() <= usize::MAX);
                }
            }
        } else {
            assert((a + b)[i] == b[i - a.len()]);
            lemma_tops_are_nines(grid, rows, cols, x, y, h, d + 1, i - a.len());
        }
    }
}

} // verus!
