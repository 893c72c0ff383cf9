//! A maze is walked from `S`, facing east, to `E`. A step forward costs 1, a
//! quarter turn 1000. The first part asks for the least cost of a walk, the
//! second for the number of places on the walks of least cost.
//!
//! The walks are grown one step at a time, all at once. A walk never enters
//! a place twice, and it is given up where another walk has come to the same
//! place, facing the same way, at a lower cost.
use vstd::prelude::*;
use vstd::string::StringSliceAdditionalSpecFns;
use crate::text::{views, lines_of, lines};
use crate::grid::{cell, get, first_mark, find_first, has_place, count_distinct};

verus! {

/// The sign of the start: `S`.
pub const START: u8 = 83;

/// The sign of the end: `E`.
pub const END: u8 = 69;

/// The sign of a free place: `.`.
pub const FREE: u8 = 46;

/// The way a walk faces.
#[derive(Clone, Copy, Debug)]
pub enum Direction {
    Up,
    Down,
    Left,
    Right,
}

/// A walk: the way it faces, what it has cost, whether it has reached the
/// end, and the places it has passed, the last being where it stands.
#[derive(Debug)]
pub struct Path {
    pub direction: Direction,
    pub score: u32,
    pub finish: bool,
    pub positions: Vec<(usize, usize)>,
}

/// A walk as the contracts see it.
pub struct PathView {
    pub direction: Direction,
    pub score: u32,
    pub finish: bool,
    pub positions: Seq<(usize, usize)>,
}

impl View for Path {
    type V = PathView;

    open spec fn view(&self) -> PathView {
        PathView {
            direction: self.direction,
            score: self.score,
            finish: self.finish,
            positions: self.positions@,
        }
    }
}

/// The views of the walks.
pub open spec fn path_views(v: Seq<Path>) -> Seq<PathView> {
    Seq::new(v.len(), |i: int| v[i]@)
}

/// The views of the walks with one more walk.
pub proof fn lemma_path_views_push(v: Seq<Path>, p: Path)
    ensures
        path_views(v.push(p)) == path_views(v).push(p@),
{
    assert(path_views(v.push(p)) =~= path_views(v).push(p@));
}

/// The place one step from `pos` in the direction `dir`, if its row and
/// column are numbers at all.
pub open spec fn next_place(pos: (usize, usize), dir: Direction) -> Option<(usize, usize)> {
    match dir {
        Direction::Up => if pos.0 >= 1 {
            Some(((pos.0 - 1) as usize, pos.1))
        } else {
            None
        },
        Direction::Down => if pos.0 < usize::MAX {
            Some(((pos.0 + 1) as usize, pos.1))
        } else {
            None
        },
        Direction::Left => if pos.1 >= 1 {
            Some((pos.0, (pos.1 - 1) as usize))
        } else {
            None
        },
        Direction::Right => if pos.1 < usize::MAX {
            Some((pos.0, (pos.1 + 1) as usize))
        } else {
            None
        },
    }
}

/// The direction after a quarter turn to the left.
pub open spec fn left_of(dir: Direction) -> Direction {
    match dir {
        Direction::Up => Direction::Left,
        Direction::Left => Direction::Down,
        Direction::Down => Direction::Right,
        Direction::Right => Direction::Up,
    }
}

/// The direction after a quarter turn to the right.
pub open spec fn right_of(dir: Direction) -> Direction {
    match dir {
        Direction::Up => Direction::Right,
        Direction::Right => Direction::Down,
        Direction::Down => Direction::Left,
        Direction::Left => Direction::Up,
    }
}

/// The walk `path` grown by one step in the direction `dir` at the cost
/// `cost`, if the place there is free and new to the walk: one walk or none.
/// `None` where the place is outside the map or the cost does not fit in 32 bits.
pub open spec fn grown(grid: Seq<Seq<u8>>, path: PathView, dir: Direction, cost: int) -> Option<
    Seq<PathView>,
> {
    if path.positions.len() == 0 {
        None
    } else {
        match next_place(path.positions.last(), dir) {
            None => None,
            Some(np) => match cell(grid, np.0 as int, np.1 as int) {
                None => None,
                Some(ch) => if (ch == FREE || ch == END) && !path.positions.contains(np) {
                    if path.score + cost > u32::MAX {
                        None
                    } else {
                        Some(
                            seq![
                                PathView {
                                    direction: dir,
                                    score: (path.score + cost) as u32,
                                    finish: path.finish || ch == END,
                                    positions: path.positions.push(np),
                                },
                            ],
                        )
                    }
                } else {
                    Some(seq![])
                },
            },
        }
    }
}

/// The walks that continue `path` by one step: ahead, to the left, to the right.
pub open spec fn successors(grid: Seq<Seq<u8>>, path: PathView) -> Option<Seq<PathView>> {
    match (
        grown(grid, path, path.direction, 1),
        grown(grid, path, left_of(path.direction), 1001),
        grown(grid, path, right_of(path.direction), 1001),
    ) {
        (Some(a), Some(b), Some(c)) => Some(a + b + c),
        _ => None,
    }
}

/// Every walk, from the `i`-th on, that has not reached the end replaced by
/// the walks that continue it.
pub open spec fn expanded(grid: Seq<Seq<u8>>, paths: Seq<PathView>, i: int) -> Option<
    Seq<PathView>,
>
    decreases paths.len() - i,
{
    if 0 <= i < paths.len() {
        let here = if paths[i].finish {
            Some(seq![paths[i]])
        } else {
            successors(grid, paths[i])
        };
        match (here, expanded(grid, paths, i + 1)) {
            (Some(a), Some(rest)) => Some(a + rest),
            _ => None,
        }
    } else {
        Some(seq![])
    }
}

/// The walks, from the `i`-th on, that have reached the end, or those that have not.
pub open spec fn chosen(paths: Seq<PathView>, finish: bool, i: int) -> Seq<PathView>
    decreases paths.len() - i,
{
    if 0 <= i < paths.len() {
        (if paths[i].finish == finish {
            seq![paths[i]]
        } else {
            seq![]
        }) + chosen(paths, finish, i + 1)
    } else {
        seq![]
    }
}

/// The number of a direction on the board.
pub open spec fn dir_index(d: Direction) -> int {
    match d {
        Direction::Up => 0,
        Direction::Down => 1,
        Direction::Left => 2,
        Direction::Right => 3,
    }
}

/// The least cost noted for standing at `pos` and facing `dir`. The board
/// has four entries for each place of the map, one for each direction.
pub open spec fn best_at(board: Seq<Seq<Option<u32>>>, pos: (usize, usize), dir: Direction)
    -> Option<u32> {
    let c = 4 * pos.1 + dir_index(dir);
    if pos.0 < board.len() && c < board[pos.0 as int].len() {
        board[pos.0 as int][c]
    } else {
        None
    }
}

/// The board with `score` noted for standing at `pos` and facing `dir`.
pub open spec fn noted(
    board: Seq<Seq<Option<u32>>>,
    pos: (usize, usize),
    dir: Direction,
    score: u32,
) -> Seq<Seq<Option<u32>>> {
    let c = 4 * pos.1 + dir_index(dir);
    if pos.0 < board.len() && c < board[pos.0 as int].len() {
        board.update(pos.0 as int, board[pos.0 as int].update(c, Some(score)))
    } else {
        board
    }
}

/// The walks, from the `i`-th on, that are kept: a walk is given up where
/// the board has a lower cost for its place and direction, and, unless
/// `ties` are kept, also where it has the same cost. The cost of a walk kept
/// is noted on the board.
pub open spec fn pruned(
    paths: Seq<PathView>,
    board: Seq<Seq<Option<u32>>>,
    ties: bool,
    i: int,
) -> Option<(Seq<PathView>, Seq<Seq<Option<u32>>>)>
    decreases paths.len() - i,
{
    if 0 <= i < paths.len() {
        let p = paths[i];
        if p.positions.len() == 0 {
            None
        } else {
            let given_up = match best_at(board, p.positions.last(), p.direction) {
                Some(e) => if ties {
                    e < p.score
                } else {
                    e <= p.score
                },
                None => false,
            };
            if given_up {
                pruned(paths, board, ties, i + 1)
            } else {
                match pruned(
                    paths,
                    noted(board, p.positions.last(), p.direction, p.score),
                    ties,
                    i + 1,
                ) {
                    None => None,
                    Some(r) => Some((seq![p] + r.0, r.1)),
                }
            }
        }
    } else {
        Some((seq![], board))
    }
}

/// One round: every walk takes a step, and the walks that have not reached
/// the end are thinned out.
pub open spec fn round(
    grid: Seq<Seq<u8>>,
    paths: Seq<PathView>,
    board: Seq<Seq<Option<u32>>>,
    ties: bool,
) -> Option<(Seq<PathView>, Seq<Seq<Option<u32>>>)> {
    match expanded(grid, paths, 0) {
        None => None,
        Some(all) => match pruned(chosen(all, false, 0), board, ties, 0) {
            None => None,
            Some(r) => Some((chosen(all, true, 0) + r.0, r.1)),
        },
    }
}

/// Every walk has reached the end.
pub open spec fn all_finished(paths: Seq<PathView>) -> bool {
    forall|i: int| 0 <= i < paths.len() ==> (#[trigger] paths[i]).finish
}

/// Rounds, until no walk is left that has not reached the end. `n` counts
/// the rounds made.
pub open spec fn searched(
    grid: Seq<Seq<u8>>,
    paths: Seq<PathView>,
    board: Seq<Seq<Option<u32>>>,
    ties: bool,
    n: nat,
) -> Option<Seq<PathView>>
    decreases usize::MAX - n,
{
    if n >= usize::MAX {
        None
    } else {
        match round(grid, paths, board, ties) {
            None => None,
            Some(r) => if r.0.len() == 0 || all_finished(r.0) {
                Some(r.0)
            } else {
                searched(grid, r.0, r.1, ties, n + 1)
            },
        }
    }
}

/// A board with nothing noted, of the shape of the map.
pub open spec fn empty_board(grid: Seq<Seq<u8>>) -> Seq<Seq<Option<u32>>> {
    Seq::new(grid.len(), |r: int| Seq::new(4 * grid[r].len(), |c: int| None::<u32>))
}

/// A row of the map is too long for the board to have four entries for each
/// of its places.
pub open spec fn too_wide(grid: Seq<Seq<u8>>) -> bool {
    exists|r: int| 0 <= r < grid.len() && (#[trigger] grid[r]).len() > usize::MAX / 4
}

/// The walks that reach the end, for the text `s`.
pub open spec fn walks_of(s: Seq<u8>, ties: bool) -> Option<Seq<PathView>> {
    let grid = lines_of(s);
    if grid.len() == 0 || too_wide(grid) {
        None
    } else {
        match first_mark(grid, grid[0].len() as int, 0, START) {
            None => None,
            Some(start) => {
                let first = PathView {
                    direction: Direction::Right,
                    score: 0,
                    finish: false,
                    positions: seq![(start.0 as usize, start.1 as usize)],
                };
                match successors(grid, first) {
                    None => None,
                    Some(paths) => searched(grid, paths, empty_board(grid), ties, 0),
                }
            },
        }
    }
}

/// The least cost among the walks from the `i`-th on, and `least` itself.
pub open spec fn least_score(paths: Seq<PathView>, i: int, least: u32) -> u32
    decreases paths.len() - i,
{
    if 0 <= i < paths.len() {
        least_score(
            paths,
            i + 1,
            if paths[i].score < least {
                paths[i].score
            } else {
                least
            },
        )
    } else {
        least
    }
}

/// The places of the walks, from the `i`-th on, that cost `score`.
pub open spec fn places_of(paths: Seq<PathView>, score: u32, i: int) -> Seq<(usize, usize)>
    decreases paths.len() - i,
{
    if 0 <= i < paths.len() {
        (if paths[i].score == score {
            paths[i].positions
        } else {
            seq![]
        }) + places_of(paths, score, i + 1)
    } else {
        seq![]
    }
}

/// The answer to the first part for the text `s`.
pub open spec fn answer_one(s: Seq<u8>) -> Option<u32> {
    match walks_of(s, false) {
        None => None,
        Some(paths) => if paths.len() == 0 {
            None
        } else {
            Some(least_score(paths, 0, u32::MAX))
        },
    }
}

/// The answer to the second part for the text `s`.
pub open spec fn answer_two(s: Seq<u8>) -> Option<u32> {
    match walks_of(s, true) {
        None => None,
        Some(paths) => if paths.len() == 0 {
            None
        } else {
            let n = places_of(paths, least_score(paths, 0, u32::MAX), 0).to_set().len();
            if n <= u32::MAX {
                Some(n as u32)
            } else {
                None
            }
        },
    }
}

/// The place one step from `pos` in the direction `dir`.
pub fn next_position(pos: (usize, usize), dir: Direction) -> (out: Option<(usize, usize)>)
    ensures
        out == next_place(pos, dir),
{
    match dir {
        Direction::Up => if pos.0 >= 1 {
            Some((pos.0 - 1, pos.1))
        } else {
            None
        },
        Direction::Down => if pos.0 < usize::MAX {
            Some((pos.0 + 1, pos.1))
        } else {
            None
        },
        Direction::Left => if pos.1 >= 1 {
            Some((pos.0, pos.1 - 1))
        } else {
            None
        },
        Direction::Right => if pos.1 < usize::MAX {
            Some((pos.0, pos.1 + 1))
        } else {
            None
        },
    }
}

/// The direction after a quarter turn to the left.
pub fn turn_left(dir: Direction) -> (out: Direction)
    ensures
        out == left_of(dir),
{
    match dir {
        Direction::Up => Direction::Left,
        Direction::Left => Direction::Down,
        Direction::Down => Direction::Right,
        Direction::Right => Direction::Up,
    }
}

/// The direction after a quarter turn to the right.
pub fn turn_right(dir: Direction) -> (out: Direction)
    ensures
        out == right_of(dir),
{
    match dir {
        Direction::Up => Direction::Right,
        Direction::Right => Direction::Down,
        Direction::Down => Direction::Left,
        Direction::Left => Direction::Up,
    }
}

#[verifier::loop_isolation(false)]
fn copy_places(v: &Vec<(usize, usize)>) -> (out: Vec<(usize, usize)>)
    ensures
        out@ == v@,
{
    let mut out: Vec<(usize, usize)> = Vec::new();
    let mut i: usize = 0;
    while i < v.len()
        invariant
            0 <= i <= v@.len(),
            out@ == v@.take(i as int),
        decreases v@.len() - i,
    {
        out.push(v[i]);
        i += 1;
        assert(out@ =~= v@.take(i as int));
    }
    assert(v@.take(i as int) =~= v@);
    out
}

fn copy_path(p: &Path) -> (out: Path)
    ensures
        out@ == p@,
{
    Path {
        direction: p.direction,
        score: p.score,
        finish: p.finish,
        positions: copy_places(&p.positions),
    }
}

/// Grows `path` by one step in the direction `dir` and puts the walk that
/// results, if there is one, behind `paths`.
fn grow(grid: &Vec<Vec<u8>>, path: &Path, dir: Direction, cost: u32, paths: &mut Vec<Path>) -> (ok:
    bool)
    ensures
        match grown(views(grid@), path@, dir, cost as int) {
            Some(more) => ok && path_views(final(paths)@) == path_views(old(paths)@) + more,
            None => !ok,
        },
{
    let n = path.positions.len();
    if n == 0 {
        return false;
    }
    let pos = path.positions[n - 1];
    let np = match next_position(pos, dir) {
        Some(p) => p,
        None => {
            return false;
        },
    };
    let ch = match get(grid, np.0, np.1) {
        Some(b) => b,
        None => {
            return false;
        },
    };
    if (ch == FREE || ch == END) && !has_place(&path.positions, np) {
        let score = match path.score.checked_add(cost) {
            Some(s) => s,
            None => {
                return false;
            },
        };
        let mut positions = copy_places(&path.positions);
        positions.push(np);
        let next = Path {
            direction: dir,
            score: score,
            finish: path.finish || ch == END,
            positions: positions,
        };
        proof {
            lemma_path_views_push(paths@, next);
            assert(path_views(paths@).push(next@) =~= path_views(paths@) + seq![next@]);
        }
        paths.push(next);
        true
    } else {
        assert(path_views(paths@) + Seq::<PathView>::empty() =~= path_views(paths@));
        true
    }
}

/// Puts the walks that continue `path` by one step behind `paths`.
pub fn possible_paths(grid: &Vec<Vec<u8>>, path: &Path, paths: &mut Vec<Path>) -> (ok: bool)
    ensures
        match successors(views(grid@), path@) {
            Some(more) => ok && path_views(final(paths)@) == path_views(old(paths)@) + more,
            None => !ok,
        },
{
    let dir = path.direction;
    if !grow(grid, path, dir, 1, paths) {
        return false;
    }
    let ghost a = grown(views(grid@), path@, dir, 1)->0;
    if !grow(grid, path, turn_left(dir), 1001, paths) {
        return false;
    }
    let ghost b = grown(views(grid@), path@, left_of(dir), 1001)->0;
    if !grow(grid, path, turn_right(dir), 1001, paths) {
        return false;
    }
    let ghost c = grown(views(grid@), path@, right_of(dir), 1001)->0;
    assert(path_views(old(paths)@) + a + b + c =~= path_views(old(paths)@) + (a + b + c));
    true
}

#[verifier::loop_isolation(false)]
fn expand(grid: &Vec<Vec<u8>>, paths: &Vec<Path>) -> (out: Option<Vec<Path>>)
    ensures
        match expanded(views(grid@), path_views(paths@), 0) {
            Some(all) => out is Some && path_views(out->0@) == all,
            None => out is None,
        },
{
    let ghost g = views(grid@);
    let ghost ps = path_views(paths@);
    let ghost goal = expanded(g, ps, 0);
    let mut acc: Vec<Path> = Vec::new();
    let mut i: usize = 0;
    assert(path_views(acc@) =~= Seq::<PathView>::empty());
    while i < paths.len()
        invariant
            0 <= i <= paths@.len(),
            match expanded(g, ps, i as int) {
                Some(rest) => goal == Some(path_views(acc@) + rest),
                None => goal is None,
            },
        decreases paths@.len() - i,
    {
        assert(ps[i as int] == paths@[i as int]@);
        let ghost before = path_views(acc@);
        if paths[i].finish {
            let copy = copy_path(&paths[i]);
            proof {
                lemma_path_views_push(acc@, copy);
            }
            acc.push(copy);
            proof {
                match expanded(g, ps, i + 1) {
                    Some(rest) => {
                        assert(path_views(acc@) + rest =~= before + (seq![ps[i as int]] + rest));
                    },
                    None => {},
                }
            }
        } else {
            if !possible_paths(grid, &paths[i], &mut acc) {
                return None;
            }
            proof {
                match expanded(g, ps, i + 1) {
                    Some(rest) => {
                        assert(path_views(acc@) + rest =~= before + (successors(g, ps[i as int])->0
                            + rest));
                    },
                    None => {},
                }
            }
        }
        i += 1;
    }
    assert(path_views(acc@) + Seq::<PathView>::empty() =~= path_views(acc@));
    Some(acc)
}

#[verifier::loop_isolation(false)]
fn choose_paths(paths: &Vec<Path>, finish: bool) -> (out: Vec<Path>)
    ensures
        path_views(out@) == chosen(path_views(paths@), finish, 0),
{
    let ghost ps = path_views(paths@);
    let mut acc: Vec<Path> = Vec::new();
    let mut i: usize = 0;
    assert(path_views(acc@) =~= Seq::<PathView>::empty());
    while i < paths.len()
        invariant
            0 <= i <= paths@.len(),
            path_views(acc@) + chosen(ps, finish, i as int) == chosen(ps, finish, 0),
        decreases paths@.len() - i,
    {
        assert(ps[i as int] == paths@[i as int]@);
        let ghost before = path_views(acc@);
        if paths[i].finish == finish {
            let copy = copy_path(&paths[i]);
            proof {
                lemma_path_views_push(acc@, copy);
            }
            acc.push(copy);
            assert(path_views(acc@) + chosen(ps, finish, i + 1) =~= before + (seq![ps[i as int]]
                + chosen(ps, finish, i + 1)));
        } else {
            assert(path_views(acc@) + chosen(ps, finish, i + 1) =~= before + (Seq::<
                PathView,
            >::empty() + chosen(ps, finish, i + 1)));
        }
        i += 1;
    }
    assert(path_views(acc@) + Seq::<PathView>::empty() =~= path_views(acc@));
    acc
}

/// The rows of a board.
pub open spec fn board_view(b: Seq<Vec<Option<u32>>>) -> Seq<Seq<Option<u32>>> {
    Seq::new(b.len(), |i: int| b[i]@)
}

fn dir_number(d: Direction) -> (n: usize)
    ensures
        n == dir_index(d),
{
    match d {
        Direction::Up => 0,
        Direction::Down => 1,
        Direction::Left => 2,
        Direction::Right => 3,
    }
}

fn slot(board: &Vec<Vec<Option<u32>>>, pos: (usize, usize), dir: Direction) -> (out: Option<usize>)
    ensures
        ({
            let c = 4 * pos.1 + dir_index(dir);
            match out {
                Some(k) => k == c && pos.0 < board@.len() && c < board@[pos.0 as int]@.len(),
                None => !(pos.0 < board@.len() && c < board@[pos.0 as int]@.len()),
            }
        }),
{
    if pos.0 >= board.len() {
        return None;
    }
    let len = board[pos.0].len();
    let c: u128 = 4 * (pos.1 as u128) + dir_number(dir) as u128;
    if c < len as u128 {
        Some(c as usize)
    } else {
        None
    }
}

#[verifier::loop_isolation(false)]
fn prune(paths: &Vec<Path>, board: &mut Vec<Vec<Option<u32>>>, ties: bool) -> (out: Option<
    Vec<Path>,
>)
    ensures
        match pruned(path_views(paths@), board_view(old(board)@), ties, 0) {
            Some(r) => out is Some && path_views(out->0@) == r.0 && board_view(final(board)@)
                == r.1,
            None => out is None,
        },
{
    let ghost ps = path_views(paths@);
    let ghost goal = pruned(ps, board_view(board@), ties, 0);
    let mut acc: Vec<Path> = Vec::new();
    let mut i: usize = 0;
    assert(path_views(acc@) =~= Seq::<PathView>::empty());
    while i < paths.len()
        invariant
            0 <= i <= paths@.len(),
            match pruned(ps, board_view(board@), ties, i as int) {
                Some(r) => goal == Some((path_views(acc@) + r.0, r.1)),
                None => goal is None,
            },
        decreases paths@.len() - i,
    {
        assert(ps[i as int] == paths@[i as int]@);
        let p = &paths[i];
        let n = p.positions.len();
        if n == 0 {
            return None;
        }
        let pos = p.positions[n - 1];
        let at = slot(board, pos, p.direction);
        let existing = match at {
            Some(c) => board[pos.0][c],
            None => None,
        };
        assert(existing == best_at(board_view(board@), pos, p.direction));
        let given_up = match existing {
            Some(e) => if ties {
                e < p.score
            } else {
                e <= p.score
            },
            None => false,
        };
        if !given_up {
            let ghost before = path_views(acc@);
            let ghost b0 = board_view(board@);
            let copy = copy_path(p);
            proof {
                lemma_path_views_push(acc@, copy);
            }
            acc.push(copy);
            match at {
                Some(c) => {
                    board[pos.0][c] = Some(p.score);
                    assert(board_view(board@) =~= noted(b0, pos, p.direction, p.score));
                },
                None => {},
            }
            proof {
                match pruned(ps, board_view(board@), ties, i + 1) {
                    Some(r) => {
                        assert(path_views(acc@) + r.0 =~= before + (seq![ps[i as int]] + r.0));
                    },
                    None => {},
                }
            }
        }
        i += 1;
    }
    assert(path_views(acc@) + Seq::<PathView>::empty() =~= path_views(acc@));
    Some(acc)
}

#[verifier::loop_isolation(false)]
fn first_unfinished(paths: &Vec<Path>) -> (out: Option<usize>)
    ensures
        match out {
            Some(i) => i < paths@.len() && !paths@[i as int].finish,
            None => all_finished(path_views(paths@)),
        },
{
    let mut i: usize = 0;
    while i < paths.len()
        invariant
            0 <= i <= paths@.len(),
            forall|k: int| 0 <= k < i ==> paths@[k].finish,
        decreases paths@.len() - i,
    {
        if !paths[i].finish {
            return Some(i);
        }
        i += 1;
    }
    assert forall|k: int| 0 <= k < path_views(paths@).len() implies (#[trigger] path_views(
        paths@,
    )[k]).finish by {
        assert(paths@[k].finish);
    }
    None
}

#[verifier::loop_isolation(false)]
fn make_board(grid: &Vec<Vec<u8>>) -> (out: Option<Vec<Vec<Option<u32>>>>)
    ensures
        out matches Some(b) ==> board_view(b@) == empty_board(views(grid@)),
        out is None <==> too_wide(views(grid@)),
{
    let mut board: Vec<Vec<Option<u32>>> = Vec::new();
    let mut r: usize = 0;
    while r < grid.len()
        invariant
            0 <= r <= grid@.len(),
            board@.len() == r,
            forall|k: int| 0 <= k < r ==> (#[trigger] views(grid@)[k]).len() <= usize::MAX / 4,
            forall|k: int|
                0 <= k < r ==> (#[trigger] board@[k])@ == Seq::new(
                    4 * grid@[k]@.len(),
                    |c: int| None::<u32>,
                ),
        decreases grid@.len() - r,
    {
        let len = grid[r].len();
        assert(views(grid@)[r as int] == grid@[r as int]@);
        if len > usize::MAX / 4 {
            return None;
        }
        let mut row: Vec<Option<u32>> = Vec::new();
        let mut c: usize = 0;
        while c < 4 * len
            invariant
                0 <= c <= 4 * len,
                row@.len() == c,
                forall|k: int| 0 <= k < c ==> (#[trigger] row@[k]) is None,
            decreases 4 * len - c,
        {
            row.push(None);
            c += 1;
        }
        assert(row@ =~= Seq::new(4 * grid@[r as int]@.len(), |c: int| None::<u32>));
        board.push(row);
        r += 1;
    }
    assert(board_view(board@) =~= empty_board(views(grid@)));
    Some(board)
}

/// The walks that reach the end.
#[verifier::loop_isolation(false)]
fn walks(input: &[u8], ties: bool) -> (out: Option<Vec<Path>>)
    ensures
        match walks_of(input@, ties) {
            Some(paths) => out is Some && path_views(out->0@) == paths,
            None => out is None,
        },
{
    let grid = lines(input);
    let ghost g = views(grid@);
    if grid.len() == 0 {
        return None;
    }
    let cols = grid[0].len();
    assert(g[0] == grid@[0]@);
    let mut board = match make_board(&grid) {
        Some(b) => b,
        None => {
            return None;
        },
    };
    let start = match find_first(&grid, cols, START) {
        Some(p) => p,
        None => {
            return None;
        },
    };
    let mut positions: Vec<(usize, usize)> = Vec::new();
    positions.push(start);
    assert(positions@ =~= seq![start]);
    let first = Path { direction: Direction::Right, score: 0, finish: false, positions: positions };
    let mut valid_paths: Vec<Path> = Vec::new();
    assert(path_views(valid_paths@) =~= Seq::<PathView>::empty());
    if !possible_paths(&grid, &first, &mut valid_paths) {
        return None;
    }
    assert(Seq::<PathView>::empty() + successors(g, first@)->0 =~= successors(g, first@)->0);
    let ghost goal = walks_of(input@, ties);
    let mut n: usize = 0;
    loop
        invariant
            searched(g, path_views(valid_paths@), board_view(board@), ties, n as nat) == goal,
        decreases usize::MAX - n,
    {
        if n == usize::MAX {
            return None;
        }
        let all = match expand(&grid, &valid_paths) {
            Some(a) => a,
            None => {
                return None;
            },
        };
        let finished = choose_paths(&all, true);
        let expanding = choose_paths(&all, false);
        let mut kept = match prune(&expanding, &mut board, ties) {
            Some(k) => k,
            None => {
                return None;
            },
        };
        let mut next = finished;
        proof {
            assert(path_views(next@ + kept@) =~= path_views(next@) + path_views(kept@));
        }
        next.append(&mut kept);
        valid_paths = next;
        if valid_paths.len() == 0 {
            return Some(valid_paths);
        }
        match first_unfinished(&valid_paths) {
            None => {
                return Some(valid_paths);
            },
            Some(i) => {
                assert(!path_views(valid_paths@)[i as int].finish);
            },
        }
        n += 1;
    }
}

#[verifier::loop_isolation(false)]
fn min_score(paths: &Vec<Path>) -> (out: u32)
    ensures
        out == least_score(path_views(paths@), 0, u32::MAX),
{
    let ghost ps = path_views(paths@);
    let mut least: u32 = u32::MAX;
    let mut i: usize = 0;
    while i < paths.len()
        invariant
            0 <= i <= paths@.len(),
            least_score(ps, i as int, least) == least_score(ps, 0, u32::MAX),
        decreases paths@.len() - i,
    {
        assert(ps[i as int] == paths@[i as int]@);
        if paths[i].score < least {
            least = paths[i].score;
        }
        i += 1;
    }
    least
}

/// The least cost of a walk from start to end.
pub fn part_one(input: &str) -> (out: Option<u32>)
    ensures
        out == answer_one(input.spec_bytes()),
{
    let paths = match walks(input.as_bytes(), false) {
        Some(p) => p,
        None => {
            return None;
        },
    };
    assert(path_views(paths@).len() == paths@.len());
    if paths.len() == 0 {
        None
    } else {
        Some(min_score(&paths))
    }
}

/// The number of places on the walks of least cost from start to end.
#[verifier::loop_isolation(false)]
pub fn part_two(input: &str) -> (out: Option<u32>)
    ensures
        out == answer_two(input.spec_bytes()),
{
    let paths = match walks(input.as_bytes(), true) {
        Some(p) => p,
        None => {
            return None;
        },
    };
    let ghost ps = path_views(paths@);
    assert(ps.len() == paths@.len());
    if paths.len() == 0 {
        return None;
    }
    let best = min_score(&paths);
    let mut places: Vec<(usize, usize)> = Vec::new();
    let mut i: usize = 0;
    while i < paths.len()
        invariant
            0 <= i <= paths@.len(),
            places@ + places_of(ps, best, i as int) == places_of(ps, best, 0),
        decreases paths@.len() - i,
    {
        assert(ps[i as int] == paths@[i as int]@);
        let ghost before = places@;
        if paths[i].score == best {
            let mut copy = copy_places(&paths[i].positions);
            places.append(&mut copy);
            assert(places@ + places_of(ps, best, i + 1) =~= before + (ps[i as int].positions
                + places_of(ps, best, i + 1)));
        } else {
            assert(places@ + places_of(ps, best, i + 1) =~= before + (Seq::<
                (usize, usize),
            >::empty() + places_of(ps, best, i + 1)));
        }
        i += 1;
    }
    assert(places@ + Seq::<(usize, usize)>::empty() =~= places@);
    let n = count_distinct(&places);
    if n <= u32::MAX as usize {
        Some(n as u32)
    } else {
        None
    }
}

/// A turn to the left is undone by a turn to the right, and four turns to
/// one side come back to where they began.
pub proof fn lemma_turns(d: Direction)
    ensures
        right_of(left_of(d)) == d,
        left_of(right_of(d)) == d,
        left_of(left_of(left_of(left_of(d)))) == d,
        right_of(right_of(right_of(right_of(d)))) == d,
{
}

/// The direction of the step from `a` to `b`, if `b` is one step from `a`.
pub open spec fn step_direction(a: (usize, usize), b: (usize, usize)) -> Option<Direction> {
    if next_place(a, Direction::Up) == Some(b) {
        Some(Direction::Up)
    } else if next_place(a, Direction::Down) == Some(b) {
        Some(Direction::Down)
    } else if next_place(a, Direction::Left) == Some(b) {
        Some(Direction::Left)
    } else if next_place(a, Direction::Right) == Some(b) {
        Some(Direction::Right)
    } else {
        None
    }
}

/// What it costs to pass the places in turn, facing `facing` on the first
/// of them: 1 for each step and 1000 more where the step is to the left or
/// to the right of the one before. With the cost goes the way one faces at
/// the end. `None` where the places are not one step apart each, or a step
/// goes backwards.
pub open spec fn walk_cost(positions: Seq<(usize, usize)>, facing: Direction) -> Option<
    (int, Direction),
>
    decreases positions.len(),
{
    if positions.len() <= 1 {
        Some((0, facing))
    } else {
        match walk_cost(positions.drop_last(), facing) {
            None => None,
            Some(before) => match step_direction(
                positions[positions.len() - 2],
                positions[positions.len() - 1],
            ) {
                None => None,
                Some(d) => if d == before.1 {
                    Some((before.0 + 1, d))
                } else if d == left_of(before.1) || d == right_of(before.1) {
                    Some((before.0 + 1001, d))
                } else {
                    None
                },
            },
        }
    }
}

/// A real walk from `start`: it begins there facing east, every place after
/// the first is free or the end, its cost is the cost of its steps and turns,
/// and it counts as having reached the end only where its last place is the end.
pub open spec fn is_walk(grid: Seq<Seq<u8>>, start: (usize, usize), p: PathView) -> bool {
    &&& p.positions.len() >= 1
    &&& p.positions[0] == start
    &&& walk_cost(p.positions, Direction::Right) == Some((p.score as int, p.direction))
    &&& forall|i: int|
        1 <= i < p.positions.len() ==> {
            let at = #[trigger] p.positions[i];
            cell(grid, at.0 as int, at.1 as int) == Some(FREE) || cell(
                grid,
                at.0 as int,
                at.1 as int,
            ) == Some(END)
        }
    &&& p.finish ==> p.positions.len() >= 2 && cell(
        grid,
        p.positions.last().0 as int,
        p.positions.last().1 as int,
    ) == Some(END)
}

/// Every path of the list is a walk from the start.
pub open spec fn all_walks(grid: Seq<Seq<u8>>, start: (usize, usize), paths: Seq<PathView>) -> bool {
    forall|i: int| 0 <= i < paths.len() ==> is_walk(grid, start, #[trigger] paths[i])
}

proof fn lemma_grown_walks(
    grid: Seq<Seq<u8>>,
    start: (usize, usize),
    path: PathView,
    dir: Direction,
    cost: int,
)
    requires
        is_walk(grid, start, path),
        !path.finish,
        (dir == path.direction && cost == 1) || ((dir == left_of(path.direction) || dir
            == right_of(path.direction)) && cost == 1001),
    ensures
        grown(grid, path, dir, cost) matches Some(s) ==> all_walks(grid, start, s),
{
    match grown(grid, path, dir, cost) {
        None => {},
        Some(s) => {
            if s.len() > 0 {
                let np = next_place(path.positions.last(), dir)->0;
                let ch = cell(grid, np.0 as int, np.1 as int)->0;
                let q = s[0];
                assert(q.positions == path.positions.push(np));
                assert(q.positions.drop_last() =~= path.positions);
                assert(step_direction(path.positions.last(), np) == Some(dir));
                assert(q.positions[q.positions.len() - 2] == path.positions.last());
                assert(walk_cost(q.positions, Direction::Right) == Some(
                    (q.score as int, q.direction),
                ));
                assert forall|i: int| 1 <= i < q.positions.len() implies {
                    let at = #[trigger] q.positions[i];
                    cell(grid, at.0 as int, at.1 as int) == Some(FREE) || cell(
                        grid,
                        at.0 as int,
                        at.1 as int,
                    ) == Some(END)
                } by {
                    if i < path.positions.len() {
                        assert(q.positions[i] == path.positions[i]);
                    }
                }
                assert(is_walk(grid, start, q));
            }
        },
    }
}

proof fn lemma_successors_walk(grid: Seq<Seq<u8>>, start: (usize, usize), path: PathView)
    requires
        is_walk(grid, start, path),
        !path.finish,
    ensures
        successors(grid, path) matches Some(s) ==> all_walks(grid, start, s),
{
    lemma_grown_walks(grid, start, path, path.direction, 1);
    lemma_grown_walks(grid, start, path, left_of(path.direction), 1001);
    lemma_grown_walks(grid, start, path, right_of(path.direction), 1001);
}

proof fn lemma_expanded_walk(grid: Seq<Seq<u8>>, start: (usize, usize), paths: Seq<PathView>, i: int)
    requires
        all_walks(grid, start, paths),
    ensures
        expanded(grid, paths, i) matches Some(s) ==> all_walks(grid, start, s),
    decreases paths.len() - i,
{
    if 0 <= i < paths.len() {
        lemma_expanded_walk(grid, start, paths, i + 1);
        assert(is_walk(grid, start, paths[i]));
        if !paths[i].finish {
            lemma_successors_walk(grid, start, paths[i]);
        }
    }
}

proof fn lemma_chosen_walk(grid: Seq<Seq<u8>>, start: (usize, usize), paths: Seq<PathView>, f: bool, i: int)
    requires
        all_walks(grid, start, paths),
    ensures
        all_walks(grid, start, chosen(paths, f, i)),
        forall|k: int| 0 <= k < chosen(paths, f, i).len() ==> (#[trigger] chosen(paths, f, i)[k]).finish == f,
    decreases paths.len() - i,
{
    if 0 <= i < paths.len() {
        lemma_chosen_walk(grid, start, paths, f, i + 1);
        assert(is_walk(grid, start, paths[i]));
    }
}

proof fn lemma_pruned_walk(
    grid: Seq<Seq<u8>>,
    start: (usize, usize),
    paths: Seq<PathView>,
    board: Seq<Seq<Option<u32>>>,
    ties: bool,
    i: int,
)
    requires
        all_walks(grid, start, paths),
    ensures
        pruned(paths, board, ties, i) matches Some(r) ==> all_walks(grid, start, r.0),
    decreases paths.len() - i,
{
    if 0 <= i < paths.len() {
        let p = paths[i];
        assert(is_walk(grid, start, p));
        lemma_pruned_walk(grid, start, paths, board, ties, i + 1);
        if p.positions.len() > 0 {
            lemma_pruned_walk(
                grid,
                start,
                paths,
                noted(board, p.positions.last(), p.direction, p.score),
                ties,
                i + 1,
            );
        }
    }
}

proof fn lemma_round_walks(
    grid: Seq<Seq<u8>>,
    start: (usize, usize),
    paths: Seq<PathView>,
    board: Seq<Seq<Option<u32>>>,
    ties: bool,
)
    requires
        all_walks(grid, start, paths),
    ensures
        round(grid, paths, board, ties) matches Some(r) ==> all_walks(grid, start, r.0),
{
    lemma_expanded_walk(grid, start, paths, 0);
    match expanded(grid, paths, 0) {
        None => {},
        Some(all) => {
            lemma_chosen_walk(grid, start, all, false, 0);
            lemma_chosen_walk(grid, start, all, true, 0);
            lemma_pruned_walk(grid, start, chosen(all, false, 0), board, ties, 0);
        },
    }
}

/// The search gives real walks that have reached the end, where it starts
/// from real walks.
pub proof fn lemma_search_gives_walks(
    grid: Seq<Seq<u8>>,
    start: (usize, usize),
    paths: Seq<PathView>,
    board: Seq<Seq<Option<u32>>>,
    ties: bool,
    n: nat,
)
    requires
        all_walks(grid, start, paths),
    ensures
        searched(grid, paths, board, ties, n) matches Some(s) ==> all_walks(grid, start, s)
            && all_finished(s),
    decreases usize::MAX - n,
{
    if n < usize::MAX {
        lemma_round_walks(grid, start, paths, board, ties);
        match round(grid, paths, board, ties) {
            None => {},
            Some(r) => {
                if !(r.0.len() == 0 || all_finished(r.0)) {
                    lemma_search_gives_walks(grid, start, r.0, r.1, ties, n + 1);
                }
            },
        }
    }
}

/// The least cost is the cost of one of the walks.
pub proof fn lemma_least_is_a_score(paths: Seq<PathView>, i: int, least: u32)
    requires
        0 <= i <= paths.len(),
    ensures
        least_score(paths, i, least) == least || exists|k: int|
            i <= k < paths.len() && (#[trigger] paths[k]).score == least_score(paths, i, least),
        least_score(paths, i, least) <= least,
        forall|k: int| i <= k < paths.len() ==> least_score(paths, i, least) <= (#[trigger] paths[k]).score,
    decreases paths.len() - i,
{
    if i < paths.len() {
        let next = if paths[i].score < least {
            paths[i].score
        } else {
            least
        };
        lemma_least_is_a_score(paths, i + 1, next);
        if least_score(paths, i + 1, next) == next && paths[i].score < least {
            assert(paths[i].score == least_score(paths, i, least));
        }
    }
}

/// The answer to the first part is the cost of a real walk from the start
/// to the end.
pub proof fn lemma_answer_is_cost_of_a_walk(s: Seq<u8>)
    ensures
        answer_one(s) matches Some(v) ==> exists|p: PathView|
            #![trigger p.score]
            {
                &&& first_mark(lines_of(s), lines_of(s)[0].len() as int, 0, START) matches Some(
                    start,
                ) && is_walk(lines_of(s), (start.0 as usize, start.1 as usize), p)
                &&& p.finish
                &&& p.score == v
            },
{
    let grid = lines_of(s);
    match answer_one(s) {
        None => {},
        Some(v) => {
            let start_at = first_mark(grid, grid[0].len() as int, 0, START)->0;
            let start = (start_at.0 as usize, start_at.1 as usize);
            let first = PathView {
                direction: Direction::Right,
                score: 0,
                finish: false,
                positions: seq![start],
            };
            assert(is_walk(grid, start, first));
            lemma_successors_walk(grid, start, first);
            let paths = successors(grid, first)->0;
            lemma_search_gives_walks(grid, start, paths, empty_board(grid), false, 0);
            let found = walks_of(s, false)->0;
            lemma_least_is_a_score(found, 0, u32::MAX);
            if exists|k: int| 0 <= k < found.len() && (#[trigger] found[k]).score == v {
                let k = choose|k: int| 0 <= k < found.len() && (#[trigger] found[k]).score == v;
                assert(is_walk(grid, start, found[k]));
                assert(found[k].finish);
            } else {
                assert(v == u32::MAX);
                assert(found[0].score >= v);
                assert(is_walk(grid, start, found[0]));
                assert(found[0].finish);
            }
        },
    }
}

} // verus!
