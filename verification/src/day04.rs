//! A word search. The first part counts how often `XMAS` stands in the
//! letters, forwards or backwards, along a row, a column or a diagonal. The
//! second counts the crosses of two `MAS` round an `A`.
use vstd::prelude::*;
use vstd::string::StringSliceAdditionalSpecFns;
use crate::text::{views, lines_of, lines};
use crate::grid::{cell, get, get_at};
use crate::outside::{match_count, count_matches, is_word, word_bytes, word_count};

verus! {

/// The word looked for.
pub open spec fn xmas() -> Seq<u8> {
    seq![88u8, 77u8, 65u8, 83u8]
}

/// The word backwards.
pub open spec fn samx() -> Seq<u8> {
    seq![83u8, 65u8, 77u8, 88u8]
}

/// How often the word stands in a line, forwards or backwards. `None`
/// where the search for a word cannot be set up.
pub open spec fn score(line: Seq<u8>) -> Option<nat> {
    match (match_count("XMAS"@, line), match_count("SAMX"@, line)) {
        (Some(_), Some(_)) => Some(word_count(xmas(), line, 0) + word_count(samx(), line, 0)),
        _ => None,
    }
}

/// The letters from `(x, y)` on, down one row and `step` columns across at a
/// time, while the place is inside the first `rows` rows and `cols` columns.
/// `None` where a row is too short for a place.
pub open spec fn slant(grid: Seq<Seq<u8>>, rows: int, cols: int, x: int, y: int, step: int)
    -> Option<Seq<u8>>
    decreases rows - x,
{
    if 0 <= x < rows && 0 <= y < cols {
        match (cell(grid, x, y), slant(grid, rows, cols, x + 1, y + step, step)) {
            (Some(b), Some(rest)) => Some(seq![b] + rest),
            _ => None,
        }
    } else {
        Some(seq![])
    }
}

/// The `k`-th line of a kind: 0 the rows, 1 the columns, 2 the diagonals to
/// the right that start in the first column, 3 those that start in the first
/// row, 4 the diagonals to the left that start in the last column, 5 those
/// that start in the first row.
pub open spec fn line_of(grid: Seq<Seq<u8>>, rows: int, cols: int, kind: int, k: int) -> Option<
    Seq<u8>,
> {
    if kind == 0 {
        if 0 <= k < grid.len() {
            Some(grid[k])
        } else {
            None
        }
    } else if kind == 1 {
        slant(grid, rows, cols, 0, k, 0)
    } else if kind == 2 {
        slant(grid, rows, cols, k, 0, 1)
    } else if kind == 3 {
        slant(grid, rows, cols, 0, k, 1)
    } else if kind == 4 {
        slant(grid, rows, cols, k, cols - 1, -1)
    } else {
        slant(grid, rows, cols, 0, k, -1)
    }
}

/// The first line of a kind.
pub open spec fn first_of(kind: int) -> int {
    if kind == 3 {
        1
    } else {
        0
    }
}

/// One more than the last line of a kind.
pub open spec fn end_of(rows: int, cols: int, kind: int) -> int {
    if kind == 0 || kind == 2 || kind == 4 {
        rows
    } else if kind == 5 {
        cols - 1
    } else {
        cols
    }
}

/// The sum of two counts, if both are there.
pub open spec fn add_opt(a: Option<nat>, b: Option<nat>) -> Option<nat> {
    match (a, b) {
        (Some(x), Some(y)) => Some(x + y),
        _ => None,
    }
}

/// The sum of the scores of the lines from the `k`-th of the kind `kind` on,
/// through the kinds that follow.
pub open spec fn scores(grid: Seq<Seq<u8>>, rows: int, cols: int, kind: int, k: int) -> Option<nat>
    decreases 6 - kind, end_of(rows, cols, kind) - k,
{
    if 0 <= kind < 6 {
        if k < end_of(rows, cols, kind) {
            match line_of(grid, rows, cols, kind, k) {
                None => None,
                Some(line) => add_opt(score(line), scores(grid, rows, cols, kind, k + 1)),
            }
        } else {
            scores(grid, rows, cols, kind + 1, first_of(kind + 1))
        }
    } else {
        Some(0)
    }
}

/// The answer to the first part for the text `s`; of the count only the low
/// 32 bits.
pub open spec fn answer_one(s: Seq<u8>) -> Option<u32> {
    let grid = lines_of(s);
    if grid.len() == 0 || grid[0].len() == 0 {
        None
    } else {
        match scores(grid, grid.len() as int, grid[0].len() as int, 0, 0) {
            Some(n) => if n <= usize::MAX {
                Some((n as usize) as u32)
            } else {
                None
            },
            None => None,
        }
    }
}

/// The letters at `a` and `b` are `M` and `S`, one way or the other. `b`
/// is looked at only where `a` holds one of the two. `None` where a place
/// looked at is outside the letters.
pub open spec fn mas(grid: Seq<Seq<u8>>, a: (int, int), b: (int, int)) -> Option<bool> {
    match cell(grid, a.0, a.1) {
        None => None,
        Some(p) => if p == 77 || p == 83 {
            match cell(grid, b.0, b.1) {
                None => None,
                Some(q) => Some((p == 77 && q == 83) || (p == 83 && q == 77)),
            }
        } else {
            Some(false)
        },
    }
}

/// A cross of two `MAS` has its middle at `(x, y)`.
pub open spec fn cross(grid: Seq<Seq<u8>>, x: int, y: int) -> Option<bool> {
    match cell(grid, x, y) {
        None => None,
        Some(m) => if m == 65 {
            match (mas(grid, (x - 1, y - 1), (x + 1, y + 1)), mas(grid, (x - 1, y + 1), (x + 1, y - 1))) {
                (Some(d1), Some(d2)) => Some(d1 && d2),
                _ => None,
            }
        } else {
            Some(false)
        },
    }
}

/// The number of crosses with their middle at `(x, y)` or later in reading
/// order, inside the border of the letters; added to `acc`.
pub open spec fn crosses(grid: Seq<Seq<u8>>, rows: int, cols: int, x: int, y: int, acc: int)
    -> Option<int>
    decreases rows - x, cols - y,
{
    if 1 <= x < rows - 1 {
        if cols < 1 {
            None
        } else if y < cols - 1 {
            match cross(grid, x, y) {
                None => None,
                Some(c) => crosses(
                    grid,
                    rows,
                    cols,
                    x,
                    y + 1,
                    if c {
                        acc + 1
                    } else {
                        acc
                    },
                ),
            }
        } else {
            crosses(grid, rows, cols, x + 1, 1, acc)
        }
    } else {
        Some(acc)
    }
}

/// The answer to the second part for the text `s`.
pub open spec fn answer_two(s: Seq<u8>) -> Option<u32> {
    let grid = lines_of(s);
    if grid.len() == 0 {
        None
    } else {
        match crosses(grid, grid.len() as int, grid[0].len() as int, 1, 1, 0) {
            Some(n) => if n <= i32::MAX {
                Some(n as u32)
            } else {
                None
            },
            None => None,
        }
    }
}

fn score_of(line: &[u8]) -> (out: Option<(usize, usize)>)
    ensures
        match out {
            Some(p) => score(line@) == Some((p.0 + p.1) as nat),
            None => score(line@) is None,
        },
{
    proof {
        reveal_strlit("XMAS");
        reveal_strlit("SAMX");
        assert(is_word("XMAS"@));
        assert(is_word("SAMX"@));
        assert(word_bytes("XMAS"@) =~= xmas());
        assert(word_bytes("SAMX"@) =~= samx());
    }
    match (count_matches("XMAS", line), count_matches("SAMX", line)) {
        (Some(a), Some(b)) => Some((a, b)),
        _ => None,
    }
}

/// Reads a line of letters off the grid: from `(x0, y0)` on, down one row
/// and `step` columns across at a time.
#[verifier::loop_isolation(false)]
pub fn read_slant(grid: &Vec<Vec<u8>>, rows: usize, cols: usize, x0: usize, y0: usize, step: i8) -> (out:
    Option<Vec<u8>>)
    ensures
        match slant(views(grid@), rows as int, cols as int, x0 as int, y0 as int, step as int) {
            Some(l) => out is Some && out->0@ == l,
            None => out is None,
        },
{
    let ghost g = views(grid@);
    let ghost goal = slant(g, rows as int, cols as int, x0 as int, y0 as int, step as int);
    let mut line: Vec<u8> = Vec::new();
    let mut x = x0;
    let mut y = y0;
    let mut done = false;
    while !done && x < rows && y < cols
        invariant
            match slant(
                g,
                rows as int,
                cols as int,
                x as int,
                if done {
                    -1int
                } else {
                    y as int
                },
                step as int,
            ) {
                Some(rest) => goal == Some(line@ + rest),
                None => goal is None,
            },
        decreases rows - x, if done { 0int } else { 1int },
    {
        let b = match get(grid, x, y) {
            Some(b) => b,
            None => {
                return None;
            },
        };
        let ghost before = line@;
        line.push(b);
        proof {
            match slant(g, rows as int, cols as int, x + 1, y + step, step as int) {
                Some(rest) => {
                    assert(line@ + rest =~= before + (seq![b] + rest));
                },
                None => {},
            }
        }
        x += 1;
        let next: i128 = y as i128 + step as i128;
        if next < 0 || next >= cols as i128 {
            done = true;
        } else {
            y = next as usize;
        }
    }
    assert(line@ + Seq::<u8>::empty() =~= line@);
    Some(line)
}

/// How often `XMAS` stands in the letters.
#[verifier::loop_isolation(false)]
pub fn part_one(input: &str) -> (out: Option<u32>)
    ensures
        out == answer_one(input.spec_bytes()),
{
    let grid = lines(input.as_bytes());
    let ghost g = views(grid@);
    let rows = grid.len();
    if rows == 0 {
        return None;
    }
    let cols = grid[0].len();
    assert(g[0] == grid@[0]@);
    if cols == 0 {
        return None;
    }
    let ghost goal = scores(g, rows as int, cols as int, 0, 0);
    let mut count: usize = 0;
    let mut lost = false;
    let mut kind: u8 = 0;
    while kind < 6
        invariant
            0 <= kind <= 6,
            !lost ==> add_opt(
                Some(count as nat),
                scores(g, rows as int, cols as int, kind as int, first_of(kind as int)),
            ) == goal,
            lost ==> (goal matches Some(n) ==> n > usize::MAX),
        decreases 6 - kind,
    {
        let end = if kind == 0 || kind == 2 || kind == 4 {
            rows
        } else if kind == 5 {
            cols - 1
        } else {
            cols
        };
        let mut k: usize = if kind == 3 {
            1
        } else {
            0
        };
        while k < end
            invariant
                end == end_of(rows as int, cols as int, kind as int),
                0 <= kind < 6,
                !lost ==> add_opt(
                    Some(count as nat),
                    scores(g, rows as int, cols as int, kind as int, k as int),
                ) == goal,
                lost ==> (goal matches Some(n) ==> n > usize::MAX),
            decreases end - k,
        {
            let line = if kind == 0 {
                assert(g[k as int] == grid@[k as int]@);
                Some(crate::text::copy_range(grid[k].as_slice(), 0, grid[k].len()))
            } else if kind == 1 {
                read_slant(&grid, rows, cols, 0, k, 0)
            } else if kind == 2 {
                read_slant(&grid, rows, cols, k, 0, 1)
            } else if kind == 3 {
                read_slant(&grid, rows, cols, 0, k, 1)
            } else if kind == 4 {
                read_slant(&grid, rows, cols, k, cols - 1, -1)
            } else {
                read_slant(&grid, rows, cols, 0, k, -1)
            };
            let line = match line {
                Some(l) => l,
                None => {
                    return None;
                },
            };
            assert(line@ =~= line_of(g, rows as int, cols as int, kind as int, k as int)->0);
            let (a, b) = match score_of(line.as_slice()) {
                Some(p) => p,
                None => {
                    return None;
                },
            };
            if !lost {
                match count.checked_add(a) {
                    Some(c) => match c.checked_add(b) {
                        Some(c) => {
                            count = c;
                        },
                        None => {
                            lost = true;
                        },
                    },
                    None => {
                        lost = true;
                    },
                }
            }
            k += 1;
        }
        kind += 1;
    }
    if lost {
        None
    } else {
        Some(#[verifier::truncate] (count as u32))
    }
}

fn is_mas(grid: &Vec<Vec<u8>>, a: (i128, i128), b: (i128, i128)) -> (out: Option<bool>)
    ensures
        out == mas(views(grid@), (a.0 as int, a.1 as int), (b.0 as int, b.1 as int)),
{
    match get_at(grid, a.0, a.1) {
        None => None,
        Some(p) => {
            if p == 77 || p == 83 {
                match get_at(grid, b.0, b.1) {
                    None => None,
                    Some(q) => Some((p == 77 && q == 83) || (p == 83 && q == 77)),
                }
            } else {
                Some(false)
            }
        },
    }
}

fn is_cross(grid: &Vec<Vec<u8>>, x: usize, y: usize) -> (out: Option<bool>)
    ensures
        out == cross(views(grid@), x as int, y as int),
{
    match get(grid, x, y) {
        None => None,
        Some(m) => {
            if m == 65 {
                let (r, c) = (x as i128, y as i128);
                let d1 = is_mas(grid, (r - 1, c - 1), (r + 1, c + 1));
                let d2 = is_mas(grid, (r - 1, c + 1), (r + 1, c - 1));
                match (d1, d2) {
                    (Some(a), Some(b)) => Some(a && b),
                    _ => None,
                }
            } else {
                Some(false)
            }
        },
    }
}

proof fn lemma_crosses_grow(grid: Seq<Seq<u8>>, rows: int, cols: int, x: int, y: int, acc: int)
    ensures
        crosses(grid, rows, cols, x, y, acc) matches Some(n) ==> n >= acc,
    decreases rows - x, cols - y,
{
    if 1 <= x < rows - 1 {
        if cols < 1 {
        } else if y < cols - 1 {
            lemma_crosses_grow(grid, rows, cols, x, y + 1, acc);
            lemma_crosses_grow(grid, rows, cols, x, y + 1, acc + 1);
        } else {
            lemma_crosses_grow(grid, rows, cols, x + 1, 1, acc);
        }
    }
}

/// How many crosses of two `MAS` stand in the letters.
#[verifier::loop_isolation(false)]
pub fn part_two(input: &str) -> (out: Option<u32>)
    ensures
        out == answer_two(input.spec_bytes()),
{
    let grid = lines(input.as_bytes());
    let ghost g = views(grid@);
    let rows = grid.len();
    if rows == 0 {
        return None;
    }
    let cols = grid[0].len();
    assert(g[0] == grid@[0]@);
    let ghost goal = crosses(g, rows as int, cols as int, 1, 1, 0);
    let mut count: i32 = 0;
    let mut x: usize = 1;
    while x < rows - 1
        invariant
            1 <= x,
            rows >= 1,
            crosses(g, rows as int, cols as int, x as int, 1, count as int) == goal,
        decreases rows - x,
    {
        if cols < 1 {
            return None;
        }
        let mut y: usize = 1;
        while y < cols - 1
            invariant
                1 <= y,
                cols >= 1,
                1 <= x < rows - 1,
                crosses(g, rows as int, cols as int, x as int, y as int, count as int) == goal,
            decreases cols - y,
        {
            match is_cross(&grid, x, y) {
                None => {
                    return None;
                },
                Some(c) => {
                    if c {
                        if count == i32::MAX {
                            proof {
                                lemma_crosses_grow(g, rows as int, cols as int, x as int, y + 1, count + 1);
                            }
                            return None;
                        }
                        count += 1;
                    }
                },
            }
            y += 1;
        }
        x += 1;
    }
    Some(count as u32)
}

} // verus!
