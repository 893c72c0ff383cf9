//! A garden is divided into regions of plots that grow the same plant and
//! touch each other. To fence a region costs its area times its perimeter
//! in the first part, its area times the number of its sides in the second.
use vstd::prelude::*;
use vstd::string::StringSliceAdditionalSpecFns;
use crate::text::{views, lines_of, lines};
use crate::grid::{cell, get, has_place, of_machine_size};

verus! {

/// A region: its plant, its plots in the order in which they were found,
/// their number, and the length of the fence round it.
#[derive(Debug)]
pub struct Region {
    pub plant: u8,
    pub positions: Vec<(usize, usize)>,
    pub area: usize,
    pub perimeter: usize,
}

/// A region as the contracts see it.
pub struct RegionView {
    pub plant: u8,
    pub positions: Seq<(usize, usize)>,
    pub area: usize,
    pub perimeter: usize,
}

impl View for Region {
    type V = RegionView;

    open spec fn view(&self) -> RegionView {
        RegionView {
            plant: self.plant,
            positions: self.positions@,
            area: self.area,
            perimeter: self.perimeter,
        }
    }
}

/// The views of the regions.
pub open spec fn region_views(v: Seq<Region>) -> Seq<RegionView> {
    Seq::new(v.len(), |i: int| v[i]@)
}

/// The neighbour of `(x, y)` on side `d`: above, below, left, right.
pub open spec fn neighbour(x: int, y: int, d: int) -> (int, int) {
    if d == 0 {
        (x - 1, y)
    } else if d == 1 {
        (x + 1, y)
    } else if d == 2 {
        (x, y - 1)
    } else {
        (x, y + 1)
    }
}

/// The plot is in a garden of `rows` rows and `cols` columns.
pub open spec fn inside(x: int, y: int, rows: int, cols: int) -> bool {
    0 <= x < rows && 0 <= y < cols
}

/// The region grown from what is known of it: the sides of the plot `cur`
/// are looked at from side `d` on, then the plots that wait in `to_visit`
/// are taken in turn, the last first. A side with no plot of the same plant
/// beyond it adds one to the perimeter; a plot of the same plant that is new
/// to the region joins it and waits. `None` where a row of the garden is
/// too short, or a count does not fit in a machine word.
pub open spec fn explored(
    grid: Seq<Seq<u8>>,
    rows: int,
    cols: int,
    region: RegionView,
    to_visit: Seq<(usize, usize)>,
    cur: (usize, usize),
    d: int,
) -> Option<RegionView>
    decreases usize::MAX - region.positions.len(), to_visit.len(), 4 - d,
{
    if !(0 <= d < 4) {
        if to_visit.len() == 0 {
            Some(region)
        } else {
            explored(grid, rows, cols, region, to_visit.drop_last(), to_visit.last(), 0)
        }
    } else {
        let n = neighbour(cur.0 as int, cur.1 as int, d);
        let fenced = if region.perimeter < usize::MAX {
            explored(
                grid,
                rows,
                cols,
                RegionView {
                    plant: region.plant,
                    positions: region.positions,
                    area: region.area,
                    perimeter: (region.perimeter + 1) as usize,
                },
                to_visit,
                cur,
                d + 1,
            )
        } else {
            None
        };
        if !inside(n.0, n.1, rows, cols) {
            fenced
        } else {
            match cell(grid, n.0, n.1) {
                None => None,
                Some(p) => if p != region.plant {
                    fenced
                } else if !region.positions.contains((n.0 as usize, n.1 as usize)) {
                    if region.positions.len() >= usize::MAX || region.area >= usize::MAX {
                        None
                    } else {
                        explored(
                            grid,
                            rows,
                            cols,
                            RegionView {
                                plant: region.plant,
                                positions: region.positions.push((n.0 as usize, n.1 as usize)),
                                area: (region.area + 1) as usize,
                                perimeter: region.perimeter,
                            },
                            to_visit.push((n.0 as usize, n.1 as usize)),
                            cur,
                            d + 1,
                        )
                    }
                } else {
                    explored(grid, rows, cols, region, to_visit, cur, d + 1)
                },
            }
        }
    }
}

/// Some region of this plant has the plot.
pub open spec fn claimed(regions: Seq<RegionView>, plant: u8, at: (usize, usize)) -> bool {
    exists|i: int|
        0 <= i < regions.len() && (#[trigger] regions[i]).plant == plant
            && regions[i].positions.contains(at)
}

/// The regions of the garden: the plots are taken in reading order from
/// `(x, y)` on, and each that no region has yet starts a region of its own.
pub open spec fn regions_of(
    grid: Seq<Seq<u8>>,
    rows: int,
    cols: int,
    x: int,
    y: int,
    regions: Seq<RegionView>,
) -> Option<Seq<RegionView>>
    decreases rows - x, cols - y,
{
    if 0 <= x < rows {
        if 0 <= y < cols {
            match cell(grid, x, y) {
                None => None,
                Some(plant) => if claimed(regions, plant, (x as usize, y as usize)) {
                    regions_of(grid, rows, cols, x, y + 1, regions)
                } else {
                    match explored(
                        grid,
                        rows,
                        cols,
                        RegionView {
                            plant: plant,
                            positions: seq![(x as usize, y as usize)],
                            area: 1,
                            perimeter: 0,
                        },
                        seq![(x as usize, y as usize)],
                        (0, 0),
                        4,
                    ) {
                        None => None,
                        Some(r) => regions_of(grid, rows, cols, x, y + 1, regions.push(r)),
                    }
                },
            }
        } else {
            regions_of(grid, rows, cols, x + 1, 0, regions)
        }
    } else {
        Some(regions)
    }
}

/// The plot at `(x, y)`, which may lie outside the garden, is of the region.
pub open spec fn has_plot(positions: Seq<(usize, usize)>, x: int, y: int) -> bool {
    0 <= x <= usize::MAX && 0 <= y <= usize::MAX && positions.contains((x as usize, y as usize))
}

/// The region has a corner at the plot `(x, y)` towards `(dx, dy)`: it
/// juts out there, or it bends in.
pub open spec fn corner(positions: Seq<(usize, usize)>, x: int, y: int, dx: int, dy: int) -> bool {
    (!has_plot(positions, x + dx, y) && !has_plot(positions, x, y + dy)) || (has_plot(
        positions,
        x + dx,
        y,
    ) && has_plot(positions, x, y + dy) && !has_plot(positions, x + dx, y + dy))
}

/// 1 for true, 0 for false.
pub open spec fn bit(b: bool) -> nat {
    if b {
        1
    } else {
        0
    }
}

/// The number of corners of the region at its plots from the `i`-th on. A
/// region has as many sides as corners.
pub open spec fn corners(positions: Seq<(usize, usize)>, i: int) -> nat
    decreases positions.len() - i,
{
    if 0 <= i < positions.len() {
        let (x, y) = (positions[i].0 as int, positions[i].1 as int);
        bit(corner(positions, x, y, -1, -1)) + bit(corner(positions, x, y, -1, 1)) + bit(
            corner(positions, x, y, 1, -1),
        ) + bit(corner(positions, x, y, 1, 1)) + corners(positions, i + 1)
    } else {
        0
    }
}

/// The price of the fences of the regions from the `i`-th on, added to
/// `acc`: for each region its area times its perimeter, or, with `by_sides`,
/// times the number of its sides. `None` where it does not fit in a machine word.
pub open spec fn price(regions: Seq<RegionView>, by_sides: bool, i: int, acc: usize) -> Option<
    usize,
>
    decreases regions.len() - i,
{
    if 0 <= i < regions.len() {
        let length = if by_sides {
            corners(regions[i].positions, 0) as int
        } else {
            regions[i].perimeter as int
        };
        if length > usize::MAX || length * regions[i].area > usize::MAX || acc + length
            * regions[i].area > usize::MAX {
            None
        } else {
            price(regions, by_sides, i + 1, (acc + length * regions[i].area) as usize)
        }
    } else {
        Some(acc)
    }
}

/// The answer for the text `s`.
pub open spec fn answer(s: Seq<u8>, by_sides: bool) -> Option<usize> {
    let grid = lines_of(s);
    if grid.len() == 0 {
        None
    } else {
        match regions_of(grid, grid.len() as int, grid[0].len() as int, 0, 0, seq![]) {
            None => None,
            Some(regions) => price(regions, by_sides, 0, 0),
        }
    }
}

/// Whether the plot is in a garden of `rows` rows and `cols` columns.
pub fn in_bounds(x: usize, y: usize, rows: usize, cols: usize) -> (r: bool)
    ensures
        r == inside(x as int, y as int, rows as int, cols as int),
{
    x < rows && y < cols
}

/// The neighbour of a plot on side `d`, if its row and column are not negative.
fn step(cur: (usize, usize), d: u8) -> (out: Option<(usize, usize)>)
    requires
        d < 4,
    ensures
        ({
            let n = neighbour(cur.0 as int, cur.1 as int, d as int);
            match out {
                Some(p) => p.0 == n.0 && p.1 == n.1,
                None => n.0 < 0 || n.1 < 0 || n.0 > usize::MAX || n.1 > usize::MAX,
            }
        }),
{
    if d == 0 {
        if cur.0 == 0 {
            None
        } else {
            Some((cur.0 - 1, cur.1))
        }
    } else if d == 1 {
        if cur.0 == usize::MAX {
            None
        } else {
            Some((cur.0 + 1, cur.1))
        }
    } else if d == 2 {
        if cur.1 == 0 {
            None
        } else {
            Some((cur.0, cur.1 - 1))
        }
    } else {
        if cur.1 == usize::MAX {
            None
        } else {
            Some((cur.0, cur.1 + 1))
        }
    }
}

/// Grows a region from its first plot.
#[verifier::loop_isolation(false)]
pub fn explore_region(region: Region, map: &Vec<Vec<u8>>, rows: usize, cols: usize) -> (out: Option<
    Region,
>)
    ensures
        match explored(views(map@), rows as int, cols as int, region@, region.positions@, (0, 0), 4) {
            Some(r) => out is Some && out->0@ == r,
            None => out is None,
        },
{
    let ghost g = views(map@);
    let ghost goal = explored(g, rows as int, cols as int, region@, region.positions@, (0, 0), 4);
    let mut region = region;
    let mut to_visit: Vec<(usize, usize)> = Vec::new();
    let mut i: usize = 0;
    while i < region.positions.len()
        invariant
            0 <= i <= region.positions@.len(),
            to_visit@ == region.positions@.take(i as int),
        decreases region.positions@.len() - i,
    {
        to_visit.push(region.positions[i]);
        i += 1;
        assert(to_visit@ =~= region.positions@.take(i as int));
    }
    assert(region.positions@.take(i as int) =~= region.positions@);
    let mut cur: (usize, usize) = (0, 0);
    let mut d: u8 = 4;
    loop
        invariant
            0 <= d <= 4,
            explored(g, rows as int, cols as int, region@, to_visit@, cur, d as int) == goal,
        decreases usize::MAX - region.positions@.len(), to_visit@.len(), 4 - d,
    {
        if d >= 4 {
            match to_visit.pop() {
                None => {
                    return Some(region);
                },
                Some(p) => {
                    cur = p;
                    d = 0;
                },
            }
        } else {
            let n = match step(cur, d) {
                Some(n) => if in_bounds(n.0, n.1, rows, cols) {
                    Some(n)
                } else {
                    None
                },
                None => None,
            };
            match n {
                None => {
                    if region.perimeter == usize::MAX {
                        return None;
                    }
                    region.perimeter += 1;
                },
                Some(n) => {
                    let p = match get(map, n.0, n.1) {
                        Some(p) => p,
                        None => {
                            return None;
                        },
                    };
                    if p != region.plant {
                        if region.perimeter == usize::MAX {
                            return None;
                        }
                        region.perimeter += 1;
                    } else if !has_place(&region.positions, n) {
                        if region.positions.len() == usize::MAX || region.area == usize::MAX {
                            return None;
                        }
                        region.positions.push(n);
                        region.area += 1;
                        to_visit.push(n);
                    }
                },
            }
            d += 1;
        }
    }
}

#[verifier::loop_isolation(false)]
fn is_claimed(regions: &Vec<Region>, plant: u8, at: (usize, usize)) -> (r: bool)
    ensures
        r == claimed(region_views(regions@), plant, at),
{
    let ghost rs = region_views(regions@);
    let mut i: usize = 0;
    while i < regions.len()
        invariant
            0 <= i <= regions@.len(),
            forall|k: int| 0 <= k < i ==> !(rs[k].plant == plant && rs[k].positions.contains(at)),
        decreases regions@.len() - i,
    {
        assert(rs[i as int] == regions@[i as int]@);
        if regions[i].plant == plant && has_place(&regions[i].positions, at) {
            return true;
        }
        i += 1;
    }
    false
}

/// Finds the regions of the garden.
#[verifier::loop_isolation(false)]
fn find_regions(map: &Vec<Vec<u8>>, rows: usize, cols: usize) -> (out: Option<Vec<Region>>)
    ensures
        match regions_of(views(map@), rows as int, cols as int, 0, 0, seq![]) {
            Some(rs) => out is Some && region_views(out->0@) == rs,
            None => out is None,
        },
{
    let ghost g = views(map@);
    let ghost goal = regions_of(g, rows as int, cols as int, 0, 0, seq![]);
    let mut regions: Vec<Region> = Vec::new();
    assert(region_views(regions@) =~= Seq::<RegionView>::empty());
    let mut x: usize = 0;
    while x < rows
        invariant
            0 <= x <= rows,
            regions_of(g, rows as int, cols as int, x as int, 0, region_views(regions@)) == goal,
        decreases rows - x,
    {
        let mut y: usize = 0;
        while y < cols
            invariant
                0 <= y <= cols,
                0 <= x < rows,
                regions_of(g, rows as int, cols as int, x as int, y as int, region_views(regions@))
                    == goal,
            decreases cols - y,
        {
            let plant = match get(map, x, y) {
                Some(p) => p,
                None => {
                    return None;
                },
            };
            if !is_claimed(&regions, plant, (x, y)) {
                let mut positions: Vec<(usize, usize)> = Vec::new();
                positions.push((x, y));
                assert(positions@ =~= seq![(x, y)]);
                let new_region = Region { plant, positions, area: 1, perimeter: 0 };
                let explored_region = match explore_region(new_region, map, rows, cols) {
                    Some(r) => r,
                    None => {
                        return None;
                    },
                };
                let ghost before = region_views(regions@);
                let ghost rv = explored_region@;
                regions.push(explored_region);
                assert(region_views(regions@) =~= before.push(rv));
            }
            y += 1;
        }
        x += 1;
    }
    Some(regions)
}

fn has_plot_at(positions: &Vec<(usize, usize)>, x: Option<usize>, y: Option<usize>) -> (r: bool)
    ensures
        r == match (x, y) {
            (Some(a), Some(b)) => positions@.contains((a, b)),
            _ => false,
        },
{
    match (x, y) {
        (Some(a), Some(b)) => has_place(positions, (a, b)),
        _ => false,
    }
}

fn beside(x: usize, d: i8) -> (out: Option<usize>)
    requires
        d == 1 || d == -1,
    ensures
        match out {
            Some(v) => v == x + d,
            None => x + d < 0 || x + d > usize::MAX,
        },
{
    if d == 1 {
        if x == usize::MAX {
            None
        } else {
            Some(x + 1)
        }
    } else {
        if x == 0 {
            None
        } else {
            Some(x - 1)
        }
    }
}

fn is_corner(positions: &Vec<(usize, usize)>, at: (usize, usize), dx: i8, dy: i8) -> (r: bool)
    requires
        dx == 1 || dx == -1,
        dy == 1 || dy == -1,
    ensures
        r == corner(positions@, at.0 as int, at.1 as int, dx as int, dy as int),
{
    let ax = beside(at.0, dx);
    let ay = beside(at.1, dy);
    let side_x = has_plot_at(positions, ax, Some(at.1));
    let side_y = has_plot_at(positions, Some(at.0), ay);
    if !side_x && !side_y {
        true
    } else if side_x && side_y {
        !has_plot_at(positions, ax, ay)
    } else {
        false
    }
}

/// The number of sides of a region, if it can be counted in a machine word.
#[verifier::loop_isolation(false)]
pub fn count_sides(region: &Region) -> (out: Option<usize>)
    ensures
        out == if corners(region.positions@, 0) <= usize::MAX {
            Some(corners(region.positions@, 0) as usize)
        } else {
            None
        },
{
    let ghost ps = region.positions@;
    let mut corner_count: usize = 0;
    let mut i: usize = 0;
    while i < region.positions.len()
        invariant
            0 <= i <= ps.len(),
            corner_count + corners(ps, i as int) == corners(ps, 0),
        decreases ps.len() - i,
    {
        let at = region.positions[i];
        let mut here: usize = 0;
        if is_corner(&region.positions, at, -1, -1) {
            here += 1;
        }
        if is_corner(&region.positions, at, -1, 1) {
            here += 1;
        }
        if is_corner(&region.positions, at, 1, -1) {
            here += 1;
        }
        if is_corner(&region.positions, at, 1, 1) {
            here += 1;
        }
        assert(corners(ps, i as int) == here + corners(ps, i + 1));
        corner_count = match corner_count.checked_add(here) {
            Some(c) => c,
            None => {
                return None;
            },
        };
        i += 1;
    }
    Some(corner_count)
}

#[verifier::loop_isolation(false)]
fn fence_price(regions: &Vec<Region>, by_sides: bool) -> (out: Option<usize>)
    ensures
        out == price(region_views(regions@), by_sides, 0, 0),
{
    let ghost rs = region_views(regions@);
    let mut total: usize = 0;
    let mut i: usize = 0;
    while i < regions.len()
        invariant
            0 <= i <= regions@.len(),
            price(rs, by_sides, i as int, total) == price(rs, by_sides, 0, 0),
        decreases regions@.len() - i,
    {
        assert(rs[i as int] == regions@[i as int]@);
        let length = if by_sides {
            match count_sides(&regions[i]) {
                Some(n) => n,
                None => {
                    return None;
                },
            }
        } else {
            regions[i].perimeter
        };
        let term = match length.checked_mul(regions[i].area) {
            Some(t) => t,
            None => {
                return None;
            },
        };
        total = match total.checked_add(term) {
            Some(t) => t,
            None => {
                return None;
            },
        };
        i += 1;
    }
    Some(total)
}

/// The price of the fences, by area and perimeter.
pub fn part_one(input: &str) -> (out: Option<usize>)
    ensures
        out == answer(input.spec_bytes(), false),
{
    let map = lines(input.as_bytes());
    let rows = map.len();
    if rows == 0 {
        return None;
    }
    let cols = map[0].len();
    assert(views(map@)[0] == map@[0]@);
    match find_regions(&map, rows, cols) {
        Some(regions) => fence_price(&regions, false),
        None => None,
    }
}

/// The price of the fences, by area and number of sides.
pub fn part_two(input: &str) -> (out: Option<usize>)
    ensures
        out == answer(input.spec_bytes(), true),
{
    let map = lines(input.as_bytes());
    let rows = map.len();
    if rows == 0 {
        return None;
    }
    let cols = map[0].len();
    assert(views(map@)[0] == map@[0]@);
    match find_regions(&map, rows, cols) {
        Some(regions) => fence_price(&regions, true),
        None => None,
    }
}

/// A region grown from a region whose area is the number of its plots has
/// an area that is the number of its plots.
pub proof fn lemma_area_counts_plots(
    grid: Seq<Seq<u8>>,
    rows: int,
    cols: int,
    region: RegionView,
    to_visit: Seq<(usize, usize)>,
    cur: (usize, usize),
    d: int,
)
    requires
        region.area == region.positions.len(),
    ensures
        explored(grid, rows, cols, region, to_visit, cur, d) matches Some(r) ==> r.area
            == r.positions.len() && r.plant == region.plant && r.perimeter >= region.perimeter,
    decreases usize::MAX - region.positions.len(), to_visit.len(), 4 - d,
{
    if !(0 <= d < 4) {
        if to_visit.len() > 0 {
            lemma_area_counts_plots(
                grid,
                rows,
                cols,
                region,
                to_visit.drop_last(),
                to_visit.last(),
                0,
            );
        }
    } else {
        let n = neighbour(cur.0 as int, cur.1 as int, d);
        if region.perimeter < usize::MAX {
            lemma_area_counts_plots(
                grid,
                rows,
                cols,
                RegionView {
                    plant: region.plant,
                    positions: region.positions,
                    area: region.area,
                    perimeter: (region.perimeter + 1) as usize,
                },
                to_visit,
                cur,
                d + 1,
            );
        }
        if inside(n.0, n.1, rows, cols) {
            match cell(grid, n.0, n.1) {
                None => {},
                Some(p) => {
                    if p == region.plant {
                        if !region.positions.contains((n.0 as usize, n.1 as usize)) {
                            if !(region.positions.len() >= usize::MAX || region.area
                                >= usize::MAX) {
                                lemma_area_counts_plots(
                                    grid,
                                    rows,
                                    cols,
                                    RegionView {
                                        plant: region.plant,
                                        positions: region.positions.push(
                                            (n.0 as usize, n.1 as usize),
                                        ),
                                        area: (region.area + 1) as usize,
                                        perimeter: region.perimeter,
                                    },
                                    to_visit.push((n.0 as usize, n.1 as usize)),
                                    cur,
                                    d + 1,
                                );
                            }
                        } else {
                            lemma_area_counts_plots(grid, rows, cols, region, to_visit, cur, d + 1);
                        }
                    }
                },
            }
        }
    }
}

/// Every plot of the list grows the plant and no plot is listed twice.
pub open spec fn plots_of_plant(grid: Seq<Seq<u8>>, plant: u8, positions: Seq<(usize, usize)>) -> bool {
    &&& positions.no_duplicates()
    &&& forall|i: int|
        0 <= i < positions.len() ==> cell(
            grid,
            (#[trigger] positions[i]).0 as int,
            positions[i].1 as int,
        ) == Some(plant)
}

/// A region grown from plots of its plant is made of plots of its plant,
/// each once, and keeps the plots it had in their places.
pub proof fn lemma_region_is_of_one_plant(
    grid: Seq<Seq<u8>>,
    rows: int,
    cols: int,
    region: RegionView,
    to_visit: Seq<(usize, usize)>,
    cur: (usize, usize),
    d: int,
)
    requires
        of_machine_size(grid),
        plots_of_plant(grid, region.plant, region.positions),
    ensures
        explored(grid, rows, cols, region, to_visit, cur, d) matches Some(r) ==> plots_of_plant(
            grid,
            r.plant,
            r.positions,
        ) && r.positions.len() >= region.positions.len() && r.positions.take(
            region.positions.len() as int,
        ) == region.positions,
    decreases usize::MAX - region.positions.len(), to_visit.len(), 4 - d,
{
    if !(0 <= d < 4) {
        if to_visit.len() > 0 {
            lemma_region_is_of_one_plant(
                grid,
                rows,
                cols,
                region,
                to_visit.drop_last(),
                to_visit.last(),
                0,
            );
        } else {
            assert(region.positions.take(region.positions.len() as int) =~= region.positions);
        }
    } else {
        let n = neighbour(cur.0 as int, cur.1 as int, d);
        if region.perimeter < usize::MAX {
            lemma_region_is_of_one_plant(
                grid,
                rows,
                cols,
                RegionView {
                    plant: region.plant,
                    positions: region.positions,
                    area: region.area,
                    perimeter: (region.perimeter + 1) as usize,
                },
                to_visit,
                cur,
                d + 1,
            );
        }
        if inside(n.0, n.1, rows, cols) {
            match cell(grid, n.0, n.1) {
                None => {},
                Some(p) => {
                    if p == region.plant {
                        let at = (n.0 as usize, n.1 as usize);
                        if !region.positions.contains(at) {
                            if !(region.positions.len() >= usize::MAX || region.area
                                >= usize::MAX) {
                                let more = region.positions.push(at);
                                assert(grid[n.0].len() <= usize::MAX);
                                assert(plots_of_plant(grid, region.plant, more)) by {
                                    assert forall|i: int, j: int|
                                        0 <= i < more.len() && 0 <= j < more.len() && i
                                            != j implies more[i] != more[j] by {
                                        if i < region.positions.len() && j
                                            < region.positions.len() {
                                            assert(region.positions[i] != region.positions[j]);
                                        } else if i < region.positions.len() {
                                            assert(region.positions.contains(region.positions[i]));
                                        } else {
                                            assert(region.positions.contains(region.positions[j]));
                                        }
                                    }
                                    assert forall|i: int| 0 <= i < more.len() implies cell(
                                        grid,
                                        (#[trigger] more[i]).0 as int,
                                        more[i].1 as int,
                                    ) == Some(region.plant) by {
                                        if i < region.positions.len() {
                                            assert(more[i] == region.positions[i]);
                                        }
                                    }
                                }
                                let grown = RegionView {
                                    plant: region.plant,
                                    positions: more,
                                    area: (region.area + 1) as usize,
                                    perimeter: region.perimeter,
                                };
                                lemma_region_is_of_one_plant(
                                    grid,
                                    rows,
                                    cols,
                                    grown,
                                    to_visit.push(at),
                                    cur,
                                    d + 1,
                                );
                                match explored(grid, rows, cols, grown, to_visit.push(at), cur, d + 1) {
                                    None => {},
                                    Some(r) => {
                                        assert(r.positions.take(region.positions.len() as int)
                                            =~= r.positions.take(more.len() as int).take(
                                            region.positions.len() as int,
                                        ));
                                        assert(more.take(region.positions.len() as int)
                                            =~= region.positions);
                                    },
                                }
                            }
                        } else {
                            lemma_region_is_of_one_plant(
                                grid,
                                rows,
                                cols,
                                region,
                                to_visit,
                                cur,
                                d + 1,
                            );
                        }
                    }
                },
            }
        }
    }
}

} // verus!
