//! Antennas stand on a map, each marked with the sign of its frequency. Two
//! antennas of one frequency make antinodes on the line through both. In
//! the first part there is one on each side, as far from the nearer antenna
//! as the two are apart; in the second there is one at every place of the map
//! that the line meets at that spacing, starting one step from the first
//! antenna. The answer is the number of places with an antinode.
use vstd::prelude::*;
use vstd::string::StringSliceAdditionalSpecFns;
use crate::text::{views, lines_of, lines};
use crate::grid::{cell, get, count_distinct};

verus! {

/// The sign of a place without an antenna.
pub const FREE: u8 = 46;

/// The place is on a map of `rows` rows and `cols` columns.
pub open spec fn inside(x: int, y: int, rows: int, cols: int) -> bool {
    0 <= x < rows && 0 <= y < cols
}

/// The places of the map met from `(px, py)` in steps of `(dx, dy)`, as
/// long as they are on the map, and not more than `fuel` of them.
pub open spec fn ray(rows: int, cols: int, px: int, py: int, dx: int, dy: int, fuel: nat) -> Seq<
    (usize, usize),
>
    decreases fuel,
{
    if fuel > 0 && inside(px + dx, py + dy, rows, cols) {
        seq![((px + dx) as usize, (py + dy) as usize)] + ray(
            rows,
            cols,
            px + dx,
            py + dy,
            dx,
            dy,
            (fuel - 1) as nat,
        )
    } else {
        seq![]
    }
}

/// The antinodes that the antenna at `(x, y)` makes with the antenna at
/// `(r, c)`: with `far`, those beyond the first, then those towards and
/// beyond the second; else one beyond the first and one beyond the second.
pub open spec fn pair_nodes(rows: int, cols: int, far: bool, x: int, y: int, r: int, c: int) -> Seq<
    (usize, usize),
> {
    if far {
        ray(rows, cols, x, y, x - r, y - c, (rows + cols) as nat) + ray(
            rows,
            cols,
            x,
            y,
            r - x,
            c - y,
            (rows + cols) as nat,
        )
    } else {
        ray(rows, cols, x, y, x - r, y - c, 1) + ray(rows, cols, r, c, r - x, c - y, 1)
    }
}

/// The antinodes that the antenna at `(x, y)`, of the sign `a`, makes with
/// the antennas from `(r, c)` on, in reading order. `None` where a row of
/// the map is too short.
pub open spec fn partner_nodes(
    grid: Seq<Seq<u8>>,
    rows: int,
    cols: int,
    far: bool,
    x: int,
    y: int,
    a: u8,
    r: int,
    c: int,
) -> Option<Seq<(usize, usize)>>
    decreases rows - r, cols - c,
{
    if 0 <= r < rows {
        if 0 <= c < cols {
            match (cell(grid, r, c), partner_nodes(grid, rows, cols, far, x, y, a, r, c + 1)) {
                (Some(b), Some(rest)) => Some(
                    (if a == b && (x, y) != (r, c) {
                        pair_nodes(rows, cols, far, x, y, r, c)
                    } else {
                        seq![]
                    }) + rest,
                ),
                _ => None,
            }
        } else {
            partner_nodes(grid, rows, cols, far, x, y, a, r + 1, 0)
        }
    } else {
        Some(seq![])
    }
}

/// The antinodes of all pairs of antennas, the first antenna taken from
/// `(x, y)` on in reading order.
pub open spec fn nodes(grid: Seq<Seq<u8>>, rows: int, cols: int, far: bool, x: int, y: int)
    -> Option<Seq<(usize, usize)>>
    decreases rows - x, cols - y,
{
    if 0 <= x < rows {
        if 0 <= y < cols {
            match cell(grid, x, y) {
                None => None,
                Some(a) => if a == FREE {
                    nodes(grid, rows, cols, far, x, y + 1)
                } else {
                    match (
                        partner_nodes(grid, rows, cols, far, x, y, a, 0, 0),
                        nodes(grid, rows, cols, far, x, y + 1),
                    ) {
                        (Some(here), Some(rest)) => Some(here + rest),
                        _ => None,
                    }
                },
            }
        } else {
            nodes(grid, rows, cols, far, x + 1, 0)
        }
    } else {
        Some(seq![])
    }
}

/// The answer for the text `s`.
pub open spec fn answer(s: Seq<u8>, far: bool) -> Option<u32> {
    let grid = lines_of(s);
    if grid.len() == 0 || grid.len() + grid[0].len() > usize::MAX {
        None
    } else {
        match nodes(grid, grid.len() as int, grid[0].len() as int, far, 0, 0) {
            None => None,
            Some(all) => if all.to_set().len() <= u32::MAX {
                Some(all.to_set().len() as u32)
            } else {
                None
            },
        }
    }
}

/// Walks from `(px, py)` in steps of `(dx, dy)` and puts the places met
/// behind `out`.
#[verifier::loop_isolation(false)]
fn cast(
    rows: usize,
    cols: usize,
    px: usize,
    py: usize,
    dx: i128,
    dy: i128,
    fuel: usize,
    out: &mut Vec<(usize, usize)>,
)
    requires
        px < rows,
        py < cols,
        -0x1_0000_0000_0000_0000 < dx < 0x1_0000_0000_0000_0000,
        -0x1_0000_0000_0000_0000 < dy < 0x1_0000_0000_0000_0000,
    ensures
        final(out)@ == old(out)@ + ray(
            rows as int,
            cols as int,
            px as int,
            py as int,
            dx as int,
            dy as int,
            fuel as nat,
        ),
{
    let ghost goal = ray(
        rows as int,
        cols as int,
        px as int,
        py as int,
        dx as int,
        dy as int,
        fuel as nat,
    );
    let mut x = px;
    let mut y = py;
    let mut left = fuel;
    while left > 0
        invariant
            x < rows,
            y < cols,
            out@ + ray(rows as int, cols as int, x as int, y as int, dx as int, dy as int, left as nat)
                == old(out)@ + goal,
        decreases left,
    {
        let nx: i128 = x as i128 + dx;
        let ny: i128 = y as i128 + dy;
        if 0 <= nx && nx < rows as i128 && 0 <= ny && ny < cols as i128 {
            let ghost before = out@;
            let ghost rest = ray(
                rows as int,
                cols as int,
                nx as int,
                ny as int,
                dx as int,
                dy as int,
                (left - 1) as nat,
            );
            x = nx as usize;
            y = ny as usize;
            out.push((x, y));
            assert(out@ + rest =~= before + (seq![(x, y)] + rest));
            left -= 1;
        } else {
            assert(out@ + Seq::<(usize, usize)>::empty() =~= out@);
            return ;
        }
    }
    assert(out@ + Seq::<(usize, usize)>::empty() =~= out@);
}

/// Puts the antinodes that the antenna at `(x, y)` makes with the antenna
/// at `(r, c)` behind `out`.
fn add_pair(
    rows: usize,
    cols: usize,
    far: bool,
    x: usize,
    y: usize,
    r: usize,
    c: usize,
    out: &mut Vec<(usize, usize)>,
)
    requires
        x < rows,
        y < cols,
        r < rows,
        c < cols,
        rows + cols <= usize::MAX,
    ensures
        final(out)@ == old(out)@ + pair_nodes(
            rows as int,
            cols as int,
            far,
            x as int,
            y as int,
            r as int,
            c as int,
        ),
{
    let dx = x as i128 - r as i128;
    let dy = y as i128 - c as i128;
    let ghost before = out@;
    if far {
        cast(rows, cols, x, y, dx, dy, rows + cols, out);
        cast(rows, cols, x, y, -dx, -dy, rows + cols, out);
    } else {
        cast(rows, cols, x, y, dx, dy, 1, out);
        cast(rows, cols, r, c, -dx, -dy, 1, out);
    }
    assert(out@ =~= before + pair_nodes(
        rows as int,
        cols as int,
        far,
        x as int,
        y as int,
        r as int,
        c as int,
    ));
}

/// Puts the antinodes that the antenna at `(x, y)` makes with the others
/// of its sign behind `out`.
#[verifier::loop_isolation(false)]
fn pair_up(
    grid: &Vec<Vec<u8>>,
    rows: usize,
    cols: usize,
    far: bool,
    x: usize,
    y: usize,
    antenna: u8,
    out: &mut Vec<(usize, usize)>,
) -> (ok: bool)
    requires
        x < rows,
        y < cols,
        rows + cols <= usize::MAX,
    ensures
        match partner_nodes(
            views(grid@),
            rows as int,
            cols as int,
            far,
            x as int,
            y as int,
            antenna,
            0,
            0,
        ) {
            Some(p) => ok && final(out)@ == old(out)@ + p,
            None => !ok,
        },
{
    let ghost g = views(grid@);
    let ghost goal = partner_nodes(g, rows as int, cols as int, far, x as int, y as int, antenna, 0, 0);
    let mut r: usize = 0;
    while r < rows
        invariant
            0 <= r <= rows,
            match partner_nodes(
                g,
                rows as int,
                cols as int,
                far,
                x as int,
                y as int,
                antenna,
                r as int,
                0,
            ) {
                Some(rest) => goal is Some && old(out)@ + goal->0 == out@ + rest,
                None => goal is None,
            },
        decreases rows - r,
    {
        let mut c: usize = 0;
        while c < cols
            invariant
                0 <= c <= cols,
                0 <= r < rows,
                match partner_nodes(
                    g,
                    rows as int,
                    cols as int,
                    far,
                    x as int,
                    y as int,
                    antenna,
                    r as int,
                    c as int,
                ) {
                    Some(rest) => goal is Some && old(out)@ + goal->0 == out@ + rest,
                    None => goal is None,
                },
            decreases cols - c,
        {
            let other = match get(grid, r, c) {
                Some(b) => b,
                None => {
                    return false;
                },
            };
            let ghost before = out@;
            let ghost rest = partner_nodes(
                g,
                rows as int,
                cols as int,
                far,
                x as int,
                y as int,
                antenna,
                r as int,
                c + 1,
            );
            if antenna == other && !(x == r && y == c) {
                add_pair(rows, cols, far, x, y, r, c, out);
                proof {
                    let pn = pair_nodes(rows as int, cols as int, far, x as int, y as int, r as int, c as int);
                    if rest is Some {
                        assert(out@ + rest->0 =~= before + (pn + rest->0));
                    }
                }
            } else {
                proof {
                    if rest is Some {
                        assert(out@ + rest->0 =~= before + (Seq::<(usize, usize)>::empty()
                            + rest->0));
                    }
                }
            }
            c += 1;
        }
        r += 1;
    }
    assert(out@ + Seq::<(usize, usize)>::empty() =~= out@);
    true
}

#[verifier::loop_isolation(false)]
fn count_antinodes(input: &[u8], far: bool) -> (out: Option<u32>)
    ensures
        out == answer(input@, far),
{
    let grid = lines(input);
    let ghost g = views(grid@);
    let rows = grid.len();
    if rows == 0 {
        return None;
    }
    let cols = grid[0].len();
    assert(g[0] == grid@[0]@);
    if rows.checked_add(cols).is_none() {
        return None;
    }
    let ghost goal = nodes(g, rows as int, cols as int, far, 0, 0);
    let mut antinodes: Vec<(usize, usize)> = Vec::new();
    let mut x: usize = 0;
    while x < rows
        invariant
            0 <= x <= rows,
            match nodes(g, rows as int, cols as int, far, x as int, 0) {
                Some(rest) => goal == Some(antinodes@ + rest),
                None => goal is None,
            },
        decreases rows - x,
    {
        let mut y: usize = 0;
        while y < cols
            invariant
                0 <= y <= cols,
                0 <= x < rows,
                match nodes(g, rows as int, cols as int, far, x as int, y as int) {
                    Some(rest) => goal == Some(antinodes@ + rest),
                    None => goal is None,
                },
            decreases cols - y,
        {
            let antenna = match get(&grid, x, y) {
                Some(a) => a,
                None => {
                    return None;
                },
            };
            if antenna != FREE {
                let ghost before = antinodes@;
                let ghost rest = nodes(g, rows as int, cols as int, far, x as int, y + 1);
                if !pair_up(&grid, rows, cols, far, x, y, antenna, &mut antinodes) {
                    return None;
                }
                proof {
                    let here = partner_nodes(
                        g,
                        rows as int,
                        cols as int,
                        far,
                        x as int,
                        y as int,
                        antenna,
                        0,
                        0,
                    )->0;
                    if rest is Some {
                        assert(antinodes@ + rest->0 =~= before + (here + rest->0));
                    }
                }
            }
            y += 1;
        }
        x += 1;
    }
    assert(antinodes@ + Seq::<(usize, usize)>::empty() =~= antinodes@);
    let n = count_distinct(&antinodes);
    if n <= u32::MAX as usize {
        Some(n as u32)
    } else {
        None
    }
}

/// The number of places with an antinode, one on each side of a pair.
pub fn part_one(input: &str) -> (out: Option<u32>)
    ensures
        out == answer(input.spec_bytes(), false),
{
    count_antinodes(input.as_bytes(), false)
}

/// The number of places with an antinode, all along the line of a pair.
pub fn part_two(input: &str) -> (out: Option<u32>)
    ensures
        out == answer(input.spec_bytes(), true),
{
    count_antinodes(input.as_bytes(), true)
}

/// One place, if it is on the map.
pub open spec fn on_map(rows: int, cols: int, x: int, y: int) -> Seq<(usize, usize)> {
    if inside(x, y, rows, cols) {
        seq![(x as usize, y as usize)]
    } else {
        seq![]
    }
}

/// In the first part a pair of antennas at `a` and `b` makes its antinodes
/// at `2a - b` and at `2b - a`, where these are on the map.
pub proof fn lemma_near_antinodes(rows: int, cols: int, x: int, y: int, r: int, c: int)
    ensures
        pair_nodes(rows, cols, false, x, y, r, c) == on_map(rows, cols, 2 * x - r, 2 * y - c)
            + on_map(rows, cols, 2 * r - x, 2 * c - y),
{
    assert(ray(rows, cols, x, y, x - r, y - c, 1) =~= on_map(rows, cols, 2 * x - r, 2 * y - c)) by {
        assert(ray(rows, cols, x + (x - r), y + (y - c), x - r, y - c, 0) =~= Seq::<
            (usize, usize),
        >::empty());
    }
    assert(ray(rows, cols, r, c, r - x, c - y, 1) =~= on_map(rows, cols, 2 * r - x, 2 * c - y)) by {
        assert(ray(rows, cols, r + (r - x), c + (c - y), r - x, c - y, 0) =~= Seq::<
            (usize, usize),
        >::empty());
    }
}

} // verus!
