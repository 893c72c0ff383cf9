//! A race track winds through a field of walls from `S` to `E`. A racer may
//! cheat once and pass through walls; the answer is the number of cheats that
//! save at least 100 steps. In the first part a cheat passes one wall, in the
//! second it may last up to 20 steps.
//!
//! The field is kept row after row in one sequence, a place being free or
//! not; a place is known by its index in that sequence.
use vstd::prelude::*;
use vstd::string::StringSliceAdditionalSpecFns;
use crate::text::{views, lines_of, lines};

verus! {

/// The steps that a cheat must save to count.
pub const WORTH: usize = 100;

/// The longest cheat of the second part.
pub const REACH: usize = 20;

/// The field and the track found on it so far.
pub struct Grid {
    pub space: Vec<bool>,
    pub start: Option<usize>,
    pub end: Option<usize>,
    pub path: Vec<usize>,
    pub cols: usize,
}

/// Whether place `i` is free, if the field has such a place.
pub open spec fn read(space: Seq<bool>, i: int) -> Option<bool> {
    if 0 <= i < space.len() {
        Some(space[i])
    } else {
        None
    }
}

/// What the places of a line, from the `j`-th on, add to the field: a place
/// shown as `.`, `S` or `E` is free, and `S` and `E` are start and end. The
/// line's first place has the index `base`. `None` where a free place falls
/// outside the field.
pub open spec fn line_marked(
    line: Seq<u8>,
    base: int,
    j: int,
    st: (Seq<bool>, Option<usize>, Option<usize>),
) -> Option<(Seq<bool>, Option<usize>, Option<usize>)>
    decreases line.len() - j,
{
    if 0 <= j < line.len() {
        let ch = line[j];
        if ch == 46 || ch == 83 || ch == 69 {
            if 0 <= base + j < st.0.len() {
                line_marked(
                    line,
                    base,
                    j + 1,
                    (
                        st.0.update(base + j, true),
                        if ch == 83 {
                            Some((base + j) as usize)
                        } else {
                            st.1
                        },
                        if ch == 69 {
                            Some((base + j) as usize)
                        } else {
                            st.2
                        },
                    ),
                )
            } else {
                None
            }
        } else {
            line_marked(line, base, j + 1, st)
        }
    } else {
        Some(st)
    }
}

/// The same for the lines from the `i`-th on, `cols` places to a line.
pub open spec fn lines_marked(
    ls: Seq<Seq<u8>>,
    cols: int,
    i: int,
    st: (Seq<bool>, Option<usize>, Option<usize>),
) -> Option<(Seq<bool>, Option<usize>, Option<usize>)>
    decreases ls.len() - i,
{
    if 0 <= i < ls.len() {
        match line_marked(ls[i], i * cols, 0, st) {
            None => None,
            Some(st2) => lines_marked(ls, cols, i + 1, st2),
        }
    } else {
        Some(st)
    }
}

/// The field of `rows` rows and `cols` columns that the lines show.
/// `None` where the machine cannot number so many places.
pub open spec fn field_with(ls: Seq<Seq<u8>>, rows: nat, cols: nat) -> Option<
    (Seq<bool>, Option<usize>, Option<usize>),
> {
    if rows * cols > usize::MAX {
        None
    } else {
        lines_marked(ls, cols as int, 0, (Seq::new(rows * cols, |i: int| false), None, None))
    }
}

/// The field that the text shows: as many rows as lines, as many columns as
/// the first line has places.
pub open spec fn field_of(ls: Seq<Seq<u8>>) -> Option<(Seq<bool>, Option<usize>, Option<usize>)> {
    field_with(
        ls,
        ls.len(),
        if ls.len() > 0 {
            ls[0].len()
        } else {
            0
        },
    )
}

/// The next place of the track after `cur`: the free neighbour to the left,
/// else to the right, else above; else the place below, free or not, while
/// `cur` is less than `cols * (cols - 1)`. `None` where a place outside the
/// field is looked at; `Some(None)` where there is no next place.
pub open spec fn next_of(space: Seq<bool>, cols: int, cur: int) -> Option<Option<usize>> {
    if cols <= 0 {
        None
    } else if cur % cols > 0 && read(space, cur - 1) is None {
        None
    } else if cur % cols > 0 && read(space, cur - 1) == Some(true) {
        Some(Some((cur - 1) as usize))
    } else if cur % cols < cols - 1 && read(space, cur + 1) is None {
        None
    } else if cur % cols < cols - 1 && read(space, cur + 1) == Some(true) {
        Some(Some((cur + 1) as usize))
    } else if cur >= cols && read(space, cur - cols) is None {
        None
    } else if cur >= cols && read(space, cur - cols) == Some(true) {
        Some(Some((cur - cols) as usize))
    } else if cur < cols * (cols - 1) {
        if cur + cols > usize::MAX {
            None
        } else {
            Some(Some((cur + cols) as usize))
        }
    } else {
        Some(None)
    }
}

/// The place two steps from `cur` in one direction, by way of `wall`, if
/// `wall` is not free and the place is. `None` where a place outside the
/// field is looked at.
pub open spec fn jump(space: Seq<bool>, wall: int, target: int) -> Option<Option<usize>> {
    match read(space, wall) {
        None => None,
        Some(free) => if free {
            Some(None)
        } else {
            match read(space, target) {
                None => None,
                Some(t) => if t {
                    Some(Some(target as usize))
                } else {
                    Some(None)
                },
            }
        },
    }
}

/// What a cheat through one wall reaches from `cur` in each of the four
/// directions: to the left, to the right, above, below.
pub open spec fn slots_of(space: Seq<bool>, cols: int, cur: int) -> Option<Seq<Option<usize>>> {
    if cols < 3 || space.len() < 2 * cols {
        None
    } else {
        let left = if cur % cols >= 2 {
            jump(space, cur - 1, cur - 2)
        } else {
            Some(None)
        };
        let right = if cur % cols <= cols - 3 {
            jump(space, cur + 1, cur + 2)
        } else {
            Some(None)
        };
        let up = if cur >= 2 * cols {
            jump(space, cur - cols, cur - 2 * cols)
        } else {
            Some(None)
        };
        let down = if cur < space.len() - 2 * cols {
            jump(space, cur + cols, cur + 2 * cols)
        } else {
            Some(None)
        };
        match (left, right, up, down) {
            (Some(a), Some(b), Some(c), Some(d)) => Some(seq![a, b, c, d]),
            _ => None,
        }
    }
}

/// The places that the slots from the `i`-th on hold.
pub open spec fn present(slots: Seq<Option<usize>>, i: int) -> Seq<usize>
    decreases slots.len() - i,
{
    if 0 <= i < slots.len() {
        (match slots[i] {
            Some(t) => seq![t],
            None => seq![],
        }) + present(slots, i + 1)
    } else {
        seq![]
    }
}

/// The places that a cheat through one wall reaches from `cur`: to the
/// left, to the right, above, below.
pub open spec fn cheats_of(space: Seq<bool>, cols: int, cur: int) -> Option<Seq<usize>> {
    match slots_of(space, cols, cur) {
        None => None,
        Some(slots) => Some(present(slots, 0)),
    }
}

/// The cheats `(cur, t)` for the targets `t`.
pub open spec fn paired(cur: usize, targets: Seq<usize>) -> Seq<(usize, usize)> {
    Seq::new(targets.len(), |i: int| (cur, targets[i]))
}

/// The state of a run along the track.
pub struct Run {
    pub space: Seq<bool>,
    pub path: Seq<usize>,
    pub cheats: Seq<(usize, usize)>,
}

/// The run from `cur` to the end: each place reached is no longer free. With
/// `cheating`, the cheats through one wall are noted at each place before
/// the step is taken. `None` where the track ends before the end is
/// reached, or leaves the field.
pub open spec fn run_from(run: Run, cols: int, end: Option<usize>, cur: usize, cheating: bool)
    -> Option<Run>
    decreases usize::MAX - run.path.len(),
{
    if run.path.len() >= usize::MAX {
        None
    } else {
        let found = if cheating {
            cheats_of(run.space, cols, cur as int)
        } else {
            Some(seq![])
        };
        match found {
            None => None,
            Some(ts) => match next_of(run.space, cols, cur as int) {
                None => None,
                Some(None) => None,
                Some(Some(nx)) => if nx < run.space.len() {
                    let after = Run {
                        space: run.space.update(nx as int, false),
                        path: run.path.push(nx),
                        cheats: run.cheats + paired(cur, ts),
                    };
                    if end == Some(nx) {
                        Some(after)
                    } else {
                        run_from(after, cols, end, nx, cheating)
                    }
                } else {
                    None
                },
            },
        }
    }
}

/// The index of the first of `path`, from the `i`-th on, that is `p`.
pub open spec fn first_index(path: Seq<usize>, p: usize, i: int) -> Option<int>
    decreases path.len() - i,
{
    if 0 <= i < path.len() {
        if path[i] == p {
            Some(i)
        } else {
            first_index(path, p, i + 1)
        }
    } else {
        None
    }
}

/// How many of the cheats, from the `k`-th on, save at least 100 steps,
/// added to `acc`. `None` where a cheat ends right behind where it starts.
pub open spec fn worthy(path: Seq<usize>, cheats: Seq<(usize, usize)>, k: int, acc: int) -> Option<
    int,
>
    decreases cheats.len() - k,
{
    if 0 <= k < cheats.len() {
        match (first_index(path, cheats[k].0, 0), first_index(path, cheats[k].1, 0)) {
            (Some(a), Some(b)) => if b > a {
                if b - a < 2 {
                    None
                } else if b - a - 2 >= WORTH {
                    worthy(path, cheats, k + 1, acc + 1)
                } else {
                    worthy(path, cheats, k + 1, acc)
                }
            } else {
                worthy(path, cheats, k + 1, acc)
            },
            _ => worthy(path, cheats, k + 1, acc),
        }
    } else {
        Some(acc)
    }
}

/// The answer to the first part for the text `s`.
pub open spec fn answer_one(s: Seq<u8>) -> Option<u32> {
    let ls = lines_of(s);
    let cols = if ls.len() > 0 {
        ls[0].len() as int
    } else {
        0
    };
    match field_of(ls) {
        None => None,
        Some(f) => match f.1 {
            None => None,
            Some(start) => match run_from(
                Run { space: f.0, path: seq![start], cheats: seq![] },
                cols,
                f.2,
                start,
                true,
            ) {
                None => None,
                Some(run) => match worthy(run.path, run.cheats, 0, 0) {
                    Some(n) => if n <= u32::MAX {
                        Some(n as u32)
                    } else {
                        None
                    },
                    None => None,
                },
            },
        },
    }
}

/// How far two numbers are apart.
pub open spec fn gap(a: int, b: int) -> int {
    if a < b {
        b - a
    } else {
        a - b
    }
}

/// The number of steps from place `p` to place `q` when walls are no hindrance.
pub open spec fn distance(cols: int, p: int, q: int) -> int {
    gap(p / cols, q / cols) + gap(p % cols, q % cols)
}

/// The places, from `t` on, that a cheat of at least 2 and at most 20 steps
/// reaches from `pos` and that were free before the run, each with the
/// number of steps. They stand in the order of the places of the field, row
/// by row, not in the order of their distance: a search that spreads from
/// `pos` step by step finds the same places with the same numbers of steps,
/// the nearest first.
pub open spec fn reached(free: Seq<bool>, cols: int, pos: int, t: int) -> Seq<(usize, usize)>
    decreases free.len() - t,
{
    if 0 <= t < free.len() {
        (if free[t] && 2 <= distance(cols, pos, t) <= REACH {
            seq![(t as usize, distance(cols, pos, t) as usize)]
        } else {
            seq![]
        }) + reached(free, cols, pos, t + 1)
    } else {
        seq![]
    }
}

/// For each place of the field, the index of the last of the first `n`
/// places of the track that is this place.
pub open spec fn last_seen(path: Seq<usize>, cells: nat, n: int) -> Seq<Option<usize>>
    decreases n,
{
    if n <= 0 {
        Seq::new(cells, |i: int| None::<usize>)
    } else {
        let before = last_seen(path, cells, n - 1);
        if n - 1 < path.len() && path[n - 1] < before.len() {
            before.update(path[n - 1] as int, Some((n - 1) as usize))
        } else {
            before
        }
    }
}

/// How many of the cheats `targets`, from the `k`-th on, that start at the
/// `i`-th place of the track save at least 100 steps.
pub open spec fn saving(
    index: Seq<Option<usize>>,
    i: int,
    targets: Seq<(usize, usize)>,
    k: int,
) -> nat
    decreases targets.len() - k,
{
    if 0 <= k < targets.len() {
        (if targets[k].0 < index.len() && (index[targets[k].0 as int] matches Some(j) && j > i
            && j - i - targets[k].1 >= WORTH) {
            1nat
        } else {
            0nat
        }) + saving(index, i, targets, k + 1)
    } else {
        0
    }
}

/// How many cheats of up to 20 steps that start at the `i`-th place of the
/// track or later save at least 100 steps.
pub open spec fn long_cheats(path: Seq<usize>, free: Seq<bool>, cols: int, i: int) -> nat
    decreases path.len() - i,
{
    if 0 <= i < path.len() {
        saving(
            last_seen(path, free.len(), path.len() as int),
            i,
            reached(free, cols, path[i] as int, 0),
            0,
        ) + long_cheats(path, free, cols, i + 1)
    } else {
        0
    }
}

/// The answer to the second part for the text `s`.
pub open spec fn answer_two(s: Seq<u8>) -> Option<u32> {
    let ls = lines_of(s);
    let cols = if ls.len() > 0 {
        ls[0].len() as int
    } else {
        0
    };
    match field_of(ls) {
        None => None,
        Some(f) => match f.1 {
            None => None,
            Some(start) => if start < f.0.len() {
                match run_from(
                    Run { space: f.0.update(start as int, false), path: seq![start], cheats: seq![] },
                    cols,
                    f.2,
                    start,
                    false,
                ) {
                    None => None,
                    Some(run) => if long_cheats(run.path, f.0, cols, 0) <= u32::MAX {
                        Some(long_cheats(run.path, f.0, cols, 0) as u32)
                    } else {
                        None
                    },
                }
            } else {
                None
            },
        },
    }
}

fn peek(space: &Vec<bool>, i: usize) -> (out: Option<bool>)
    ensures
        out == read(space@, i as int),
{
    if i < space.len() {
        Some(space[i])
    } else {
        None
    }
}

fn try_jump(space: &Vec<bool>, wall: usize, target: usize) -> (out: Option<Option<usize>>)
    ensures
        out == jump(space@, wall as int, target as int),
{
    match peek(space, wall) {
        None => None,
        Some(free) => {
            if free {
                Some(None)
            } else {
                match peek(space, target) {
                    None => None,
                    Some(t) => {
                        if t {
                            Some(Some(target))
                        } else {
                            Some(None)
                        }
                    },
                }
            }
        },
    }
}

/// The places that the four slots hold, in their order.
#[verifier::loop_isolation(false)]
fn targets_in(slots: &[Option<usize>; 4]) -> (out: Vec<usize>)
    ensures
        out@ == present(slots@, 0),
{
    let mut out: Vec<usize> = Vec::new();
    let mut i: usize = 0;
    while i < 4
        invariant
            0 <= i <= 4,
            slots@.len() == 4,
            out@ + present(slots@, i as int) == present(slots@, 0),
        decreases 4 - i,
    {
        let ghost before = out@;
        let ghost rest = present(slots@, i + 1);
        match slots[i] {
            Some(t) => {
                out.push(t);
                assert(out@ + rest =~= before + (seq![t] + rest));
            },
            None => {
                assert(out@ + rest =~= before + (Seq::<usize>::empty() + rest));
            },
        }
        i += 1;
    }
    assert(out@ + Seq::<usize>::empty() =~= out@);
    out
}

impl Grid {
    /// The next place of the track after `current_position`.
    pub fn next_move(&self, current_position: usize) -> (out: Option<Option<usize>>)
        ensures
            out == next_of(self.space@, self.cols as int, current_position as int),
    {
        let cols = self.cols;
        let cur = current_position;
        let len = self.space.len();
        if cols == 0 {
            return None;
        }
        proof {
            vstd::arithmetic::div_mod::lemma_mod_decreases(cur as nat, cols as nat);
        }
        if cur % cols > 0 {
            match peek(&self.space, cur - 1) {
                None => {
                    return None;
                },
                Some(true) => {
                    return Some(Some(cur - 1));
                },
                Some(false) => {},
            }
        }
        if cur % cols < cols - 1 {
            if cur == usize::MAX {
                return None;
            }
            match peek(&self.space, cur + 1) {
                None => {
                    return None;
                },
                Some(true) => {
                    return Some(Some(cur + 1));
                },
                Some(false) => {},
            }
        }
        if cur >= cols {
            match peek(&self.space, cur - cols) {
                None => {
                    return None;
                },
                Some(true) => {
                    return Some(Some(cur - cols));
                },
                Some(false) => {},
            }
        }
        assert((cols as int) * ((cols - 1) as int) <= u128::MAX) by (nonlinear_arith)
            requires
                0 < cols <= 0xffff_ffff_ffff_ffff,
        ;
        let limit: u128 = (cols as u128) * ((cols - 1) as u128);
        if (cur as u128) < limit {
            match cur.checked_add(cols) {
                Some(nx) => Some(Some(nx)),
                None => None,
            }
        } else {
            Some(None)
        }
    }

    /// What a cheat through one wall reaches from `current_position`, in
    /// four slots: to the left, to the right, above, below.
    pub fn cheat(&self, current_position: usize) -> (out: Option<[Option<usize>; 4]>)
        ensures
            match slots_of(self.space@, self.cols as int, current_position as int) {
                Some(t) => out is Some && out->0@ == t,
                None => out is None,
            },
    {
        let cols = self.cols;
        let cur = current_position;
        let len = self.space.len();
        if cols < 3 || cols > len / 2 {
            return None;
        }
        proof {
            vstd::arithmetic::div_mod::lemma_mod_decreases(cur as nat, cols as nat);
        }
        let mut left: Option<usize> = None;
        if cur % cols >= 2 {
            left = match try_jump(&self.space, cur - 1, cur - 2) {
                Some(t) => t,
                None => {
                    return None;
                },
            };
        }
        let mut right: Option<usize> = None;
        if cur % cols <= cols - 3 {
            if cur >= usize::MAX - 1 {
                return None;
            }
            right = match try_jump(&self.space, cur + 1, cur + 2) {
                Some(t) => t,
                None => {
                    return None;
                },
            };
        }
        let mut up: Option<usize> = None;
        if cur >= 2 * cols {
            up = match try_jump(&self.space, cur - cols, cur - 2 * cols) {
                Some(t) => t,
                None => {
                    return None;
                },
            };
        }
        let mut down: Option<usize> = None;
        if cur < len - 2 * cols {
            down = match try_jump(&self.space, cur + cols, cur + 2 * cols) {
                Some(t) => t,
                None => {
                    return None;
                },
            };
        }
        let slots = [left, right, up, down];
        assert(slots@ =~= seq![left, right, up, down]);
        Some(slots)
    }

    /// The places that a cheat of at least 2 and at most 20 steps reaches
    /// from `current_position` and that are free in `cheat_space`, each with
    /// the number of steps, in the order of the places of the field.
    #[verifier::loop_isolation(false)]
    pub fn long_cheat(&self, cheat_space: &Vec<bool>, current_position: usize) -> (out: Vec<
        (usize, usize),
    >)
        requires
            self.cols > 0,
        ensures
            out@ == reached(cheat_space@, self.cols as int, current_position as int, 0),
    {
        let cols = self.cols;
        let pr = current_position / cols;
        let pc = current_position % cols;
        let mut out: Vec<(usize, usize)> = Vec::new();
        let mut t: usize = 0;
        while t < cheat_space.len()
            invariant
                0 <= t <= cheat_space@.len(),
                out@ + reached(cheat_space@, cols as int, current_position as int, t as int)
                    == reached(cheat_space@, cols as int, current_position as int, 0),
            decreases cheat_space@.len() - t,
        {
            let ghost before = out@;
            let tr = t / cols;
            let tc = t % cols;
            let dr = if tr < pr {
                pr - tr
            } else {
                tr - pr
            };
            let dc = if tc < pc {
                pc - tc
            } else {
                tc - pc
            };
            if cheat_space[t] && dr <= REACH && dc <= REACH && 2 <= dr + dc && dr + dc <= REACH {
                out.push((t, dr + dc));
                assert(out@ + reached(cheat_space@, cols as int, current_position as int, t + 1)
                    =~= before + (seq![(t, (dr + dc) as usize)] + reached(
                    cheat_space@,
                    cols as int,
                    current_position as int,
                    t + 1,
                )));
            } else {
                assert(out@ + reached(cheat_space@, cols as int, current_position as int, t + 1)
                    =~= before + (Seq::<(usize, usize)>::empty() + reached(
                    cheat_space@,
                    cols as int,
                    current_position as int,
                    t + 1,
                )));
            }
            t += 1;
        }
        assert(out@ + Seq::<(usize, usize)>::empty() =~= out@);
        out
    }

    /// For each place of the field, the index of the last place of the track
    /// that is this place.
    #[verifier::loop_isolation(false)]
    pub fn position_to_index_map(&self) -> (out: Vec<Option<usize>>)
        ensures
            out@ == last_seen(self.path@, self.space@.len(), self.path@.len() as int),
    {
        let cells = self.space.len();
        let mut out: Vec<Option<usize>> = Vec::new();
        let mut i: usize = 0;
        while i < cells
            invariant
                0 <= i <= cells,
                out@.len() == i,
                forall|k: int| 0 <= k < i ==> (#[trigger] out@[k]) is None,
            decreases cells - i,
        {
            out.push(None);
            i += 1;
        }
        assert(out@ =~= last_seen(self.path@, cells as nat, 0));
        let mut n: usize = 0;
        while n < self.path.len()
            invariant
                0 <= n <= self.path@.len(),
                out@ == last_seen(self.path@, cells as nat, n as int),
            decreases self.path@.len() - n,
        {
            let p = self.path[n];
            if p < out.len() {
                out.set(p, Some(n));
            }
            n += 1;
        }
        out
    }
}

/// Reads the field of `rows` rows and `cols` columns that the lines show.
#[verifier::loop_isolation(false)]
pub fn create_space_map_with_positions(ls: &Vec<Vec<u8>>, rows: usize, cols: usize) -> (out: Option<
    Grid,
>)
    ensures
        match field_with(views(ls@), rows as nat, cols as nat) {
            Some(f) => out is Some && out->0.space@ == f.0 && out->0.start == f.1 && out->0.end
                == f.2 && out->0.cols == cols && out->0.path@.len() == 0,
            None => out is None,
        },
{
    let ghost all = views(ls@);
    let cells = match rows.checked_mul(cols) {
        Some(c) => c,
        None => {
            return None;
        },
    };
    let mut space: Vec<bool> = Vec::new();
    let mut i: usize = 0;
    while i < cells
        invariant
            0 <= i <= cells,
            space@.len() == i,
            forall|k: int| 0 <= k < i ==> !(#[trigger] space@[k]),
        decreases cells - i,
    {
        space.push(false);
        i += 1;
    }
    assert(space@ =~= Seq::new(rows as nat * cols as nat, |i: int| false));
    let mut start: Option<usize> = None;
    let mut end: Option<usize> = None;
    let ghost goal = field_with(all, rows as nat, cols as nat);
    let mut r: usize = 0;
    while r < ls.len()
        invariant
            0 <= r <= ls@.len(),
            space@.len() == cells,
            lines_marked(all, cols as int, r as int, (space@, start, end)) == goal,
        decreases ls@.len() - r,
    {
        let line = &ls[r];
        assert(all[r as int] == line@);
        let ghost line_goal = line_marked(line@, r * cols, 0, (space@, start, end));
        assert(0 <= (r as int) * (cols as int) <= 0xffff_ffff_ffff_ffff
            * 0xffff_ffff_ffff_ffff) by (nonlinear_arith)
            requires
                0 <= r <= 0xffff_ffff_ffff_ffff,
                0 <= cols <= 0xffff_ffff_ffff_ffff,
        ;
        let base: u128 = (r as u128) * (cols as u128);
        let mut j: usize = 0;
        while j < line.len()
            invariant
                0 <= j <= line@.len(),
                space@.len() == cells,
                base == r * cols,
                base <= 0xffff_ffff_ffff_ffff * 0xffff_ffff_ffff_ffff,
                line_marked(line@, base as int, j as int, (space@, start, end)) == line_goal,
            decreases line@.len() - j,
        {
            let ch = line[j];
            if ch == 46 || ch == 83 || ch == 69 {
                let at: u128 = base + j as u128;
                if at >= space.len() as u128 {
                    return None;
                }
                let at = at as usize;
                space.set(at, true);
                if ch == 83 {
                    start = Some(at);
                }
                if ch == 69 {
                    end = Some(at);
                }
            }
            j += 1;
        }
        r += 1;
    }
    Some(Grid { space, start, end, path: Vec::new(), cols })
}

/// Runs along the track from `current` to the end.
#[verifier::loop_isolation(false)]
fn run(grid: &mut Grid, current: usize, cheating: bool) -> (out: Option<Vec<(usize, usize)>>)
    ensures
        final(grid).cols == old(grid).cols,
        final(grid).end == old(grid).end,
        final(grid).start == old(grid).start,
        final(grid).space@.len() == old(grid).space@.len(),
        match run_from(
            Run { space: old(grid).space@, path: old(grid).path@, cheats: seq![] },
            old(grid).cols as int,
            old(grid).end,
            current,
            cheating,
        ) {
            Some(r) => out is Some && final(grid).space@ == r.space && final(grid).path@ == r.path
                && out->0@ == r.cheats,
            None => out is None,
        },
{
    let ghost goal = run_from(
        Run { space: grid.space@, path: grid.path@, cheats: seq![] },
        grid.cols as int,
        grid.end,
        current,
        cheating,
    );
    let mut cheats: Vec<(usize, usize)> = Vec::new();
    let mut cur = current;
    loop
        invariant
            grid.cols == old(grid).cols,
            grid.end == old(grid).end,
            grid.start == old(grid).start,
            grid.space@.len() == old(grid).space@.len(),
            run_from(
                Run { space: grid.space@, path: grid.path@, cheats: cheats@ },
                grid.cols as int,
                grid.end,
                cur,
                cheating,
            ) == goal,
        decreases usize::MAX - grid.path@.len(),
    {
        if grid.path.len() == usize::MAX {
            return None;
        }
        let ghost before = cheats@;
        if cheating {
            let slots = match grid.cheat(cur) {
                Some(t) => t,
                None => {
                    return None;
                },
            };
            let targets = targets_in(&slots);
            let mut k: usize = 0;
            while k < targets.len()
                invariant
                    0 <= k <= targets@.len(),
                    cheats@ == before + paired(cur, targets@).take(k as int),
                decreases targets@.len() - k,
            {
                cheats.push((cur, targets[k]));
                k += 1;
                assert(cheats@ =~= before + paired(cur, targets@).take(k as int));
            }
            assert(paired(cur, targets@).take(k as int) =~= paired(cur, targets@));
        } else {
            assert(paired(cur, Seq::<usize>::empty()) =~= Seq::<(usize, usize)>::empty());
            assert(cheats@ =~= before + paired(cur, Seq::<usize>::empty()));
        }
        let nx = match grid.next_move(cur) {
            Some(Some(nx)) => nx,
            _ => {
                return None;
            },
        };
        if nx >= grid.space.len() {
            return None;
        }
        grid.path.push(nx);
        grid.space.set(nx, false);
        let done = match grid.end {
            Some(e) => e == nx,
            None => false,
        };
        if done {
            return Some(cheats);
        }
        cur = nx;
    }
}

#[verifier::loop_isolation(false)]
fn first_place(path: &Vec<usize>, p: usize) -> (out: Option<usize>)
    ensures
        match first_index(path@, p, 0) {
            Some(i) => out == Some(i as usize) && 0 <= i < path@.len() && i <= usize::MAX,
            None => out is None,
        },
{
    let mut i: usize = 0;
    while i < path.len()
        invariant
            0 <= i <= path@.len(),
            first_index(path@, p, i as int) == first_index(path@, p, 0),
        decreases path@.len() - i,
    {
        if path[i] == p {
            return Some(i);
        }
        i += 1;
    }
    None
}

proof fn lemma_worthy_grows(path: Seq<usize>, cheats: Seq<(usize, usize)>, k: int, acc: int)
    ensures
        worthy(path, cheats, k, acc) matches Some(n) ==> n >= acc,
    decreases cheats.len() - k,
{
    if 0 <= k < cheats.len() {
        lemma_worthy_grows(path, cheats, k + 1, acc);
        lemma_worthy_grows(path, cheats, k + 1, acc + 1);
    }
}

/// The number of cheats through one wall that save at least 100 steps.
#[verifier::loop_isolation(false)]
pub fn part_one(input: &str) -> (out: Option<u32>)
    ensures
        out == answer_one(input.spec_bytes()),
{
    let ls = lines(input.as_bytes());
    let rows = ls.len();
    let cols = if ls.len() > 0 {
        ls[0].len()
    } else {
        0
    };
    assert(ls@.len() > 0 ==> views(ls@)[0] == ls@[0]@);
    let mut grid = match create_space_map_with_positions(&ls, rows, cols) {
        Some(g) => g,
        None => {
            return None;
        },
    };
    let start = match grid.start {
        Some(s) => s,
        None => {
            return None;
        },
    };
    grid.path.push(start);
    assert(grid.path@ =~= seq![start]);
    let possible_cheats = match run(&mut grid, start, true) {
        Some(c) => c,
        None => {
            return None;
        },
    };
    let ghost goal = worthy(grid.path@, possible_cheats@, 0, 0);
    let mut cheat_moves: u32 = 0;
    let mut k: usize = 0;
    while k < possible_cheats.len()
        invariant
            0 <= k <= possible_cheats@.len(),
            worthy(grid.path@, possible_cheats@, k as int, cheat_moves as int) == goal,
        decreases possible_cheats@.len() - k,
    {
        let (a, b) = possible_cheats[k];
        match (first_place(&grid.path, a), first_place(&grid.path, b)) {
            (Some(si), Some(ei)) => {
                if ei > si {
                    if ei - si < 2 {
                        return None;
                    }
                    if ei - si - 2 >= WORTH {
                        if cheat_moves == u32::MAX {
                            proof {
                                lemma_worthy_grows(
                                    grid.path@,
                                    possible_cheats@,
                                    k + 1,
                                    cheat_moves + 1,
                                );
                            }
                            return None;
                        }
                        cheat_moves += 1;
                    }
                }
            },
            _ => {},
        }
        k += 1;
    }
    Some(cheat_moves)
}

/// The number of cheats of up to 20 steps that save at least 100 steps.
#[verifier::loop_isolation(false)]
pub fn part_two(input: &str) -> (out: Option<u32>)
    ensures
        out == answer_two(input.spec_bytes()),
{
    let ls = lines(input.as_bytes());
    let rows = ls.len();
    let cols = if ls.len() > 0 {
        ls[0].len()
    } else {
        0
    };
    assert(ls@.len() > 0 ==> views(ls@)[0] == ls@[0]@);
    let mut grid = match create_space_map_with_positions(&ls, rows, cols) {
        Some(g) => g,
        None => {
            return None;
        },
    };
    let start = match grid.start {
        Some(s) => s,
        None => {
            return None;
        },
    };
    let cheat_space = grid.space.clone();
    assert(cheat_space@ =~= grid.space@);
    if start >= grid.space.len() {
        return None;
    }
    grid.path.push(start);
    assert(grid.path@ =~= seq![start]);
    grid.space.set(start, false);
    if grid.cols == 0 {
        assert(run_from(
            Run { space: grid.space@, path: grid.path@, cheats: seq![] },
            0,
            grid.end,
            start,
            false,
        ) is None);
        return None;
    }
    if run(&mut grid, start, false).is_none() {
        return None;
    }
    let position_map = grid.position_to_index_map();
    let ghost index = position_map@;
    let ghost goal = long_cheats(grid.path@, cheat_space@, cols as int, 0);
    let mut cheat_moves: u32 = 0;
    let mut i: usize = 0;
    while i < grid.path.len()
        invariant
            0 <= i <= grid.path@.len(),
            cheat_moves + long_cheats(grid.path@, cheat_space@, cols as int, i as int) == goal,
        decreases grid.path@.len() - i,
    {
        let targets = grid.long_cheat(&cheat_space, grid.path[i]);
        let ghost row_goal = saving(index, i as int, targets@, 0);
        let ghost before = cheat_moves;
        let mut k: usize = 0;
        while k < targets.len()
            invariant
                0 <= k <= targets@.len(),
                cheat_moves + saving(index, i as int, targets@, k as int) == before + row_goal,
                before + long_cheats(grid.path@, cheat_space@, cols as int, i as int) == goal,
            decreases targets@.len() - k,
        {
            let (target, moves) = targets[k];
            if target < position_map.len() {
                match position_map[target] {
                    Some(j) => {
                        if j > i && j - i >= moves && j - i - moves >= WORTH {
                            assert(saving(index, i as int, targets@, k as int) >= 1);
                            if cheat_moves == u32::MAX {
                                return None;
                            }
                            cheat_moves += 1;
                        }
                    },
                    None => {},
                }
            }
            k += 1;
        }
        i += 1;
    }
    Some(cheat_moves)
}

} // verus!
