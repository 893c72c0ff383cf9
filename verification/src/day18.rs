//! Bytes fall one after another on a square memory of 71 by 71 places and
//! block the place they fall on. The first part asks for the least number of
//! steps from the top left corner to the bottom right one once 1024 bytes have
//! fallen; the second for the first byte that cuts the two corners off from
//! each other.
use vstd::prelude::*;
use vstd::string::StringSliceAdditionalSpecFns;
use vstd::utf8::encode_utf8;
use crate::text::{
    views, lines_of, lines, split_seq, split, as_u32, parse_u32, decimal_digits, format_u128,
    to_text, lemma_ascii_is_utf8, is_ascii_bytes,
};

verus! {

/// The side of the memory.
pub const SIDE: usize = 71;

/// The number of places of the memory.
pub const CELLS: usize = 5041;

/// The bottom right corner; the top left one is place 0.
pub const TARGET: usize = 5040;

/// The number of bytes that have fallen in the first part.
pub const FALLEN: usize = 1024;

/// The place that a line of the text names: two numbers with a comma between.
pub open spec fn point_of(line: Seq<u8>) -> Option<(u32, u32)> {
    let f = split_seq(line, seq![44u8]);
    if f.len() < 2 {
        None
    } else {
        match (as_u32(f[0]), as_u32(f[1])) {
            (Some(x), Some(y)) => Some((x, y)),
            _ => None,
        }
    }
}

/// The places that the lines name, if every line names one.
pub open spec fn points_of(ls: Seq<Seq<u8>>) -> Option<Seq<(u32, u32)>>
    decreases ls.len(),
{
    if ls.len() == 0 {
        Some(seq![])
    } else {
        match (point_of(ls[0]), points_of(ls.drop_first())) {
            (Some(p), Some(rest)) => Some(seq![p] + rest),
            _ => None,
        }
    }
}

/// The byte `pt` falls inside a memory of `rows` rows and `cols` columns, on
/// place `p`. The places are numbered row by row.
pub open spec fn hits(pt: (u32, u32), rows: int, cols: int, p: int) -> bool {
    pt.0 < rows && pt.1 < cols && pt.0 * cols + pt.1 == p
}

/// Which places of a memory of `rows` rows and `cols` columns can be
/// stepped on after the first `n` bytes have fallen: those that no byte fell
/// on, but for the place `start` where the walk begins.
pub open spec fn open_after(points: Seq<(u32, u32)>, n: int, rows: int, cols: int, start: int) -> Seq<
    bool,
> {
    Seq::new(
        (rows * cols) as nat,
        |p: int|
            p != start && forall|i: int|
                0 <= i < n && i < points.len() ==> !hits(#[trigger] points[i], rows, cols, p),
    )
}

/// A memory: which of its places can be stepped on, row by row, the number
/// of its columns, and the place where the walk begins.
pub struct Room {
    pub open: Seq<bool>,
    pub cols: int,
    pub start: int,
}

/// The memory after the first `n` bytes have fallen.
pub open spec fn room_after(
    points: Seq<(u32, u32)>,
    n: int,
    rows: int,
    cols: int,
    start: (usize, usize),
) -> Room {
    Room {
        open: open_after(points, n, rows, cols, start.0 * cols + start.1),
        cols: cols,
        start: start.0 * cols + start.1,
    }
}

/// The memory of the puzzle after the first `n` bytes have fallen.
pub open spec fn memory_after(points: Seq<(u32, u32)>, n: int) -> Room {
    room_after(points, n, SIDE as int, SIDE as int, (0, 0))
}

/// Place `p` can be reached from the start in at most `k` steps, each to a
/// neighbour above, below, left or right that can be stepped on.
pub open spec fn within(m: Room, k: nat, p: int) -> bool
    decreases k,
{
    if k == 0 {
        p == m.start
    } else {
        within(m, (k - 1) as nat, p) || (m.cols > 0 && 0 <= p < m.open.len() && m.open[p] && ((p
            % m.cols > 0 && within(m, (k - 1) as nat, p - 1)) || (p % m.cols < m.cols - 1 && p + 1
            < m.open.len() && within(m, (k - 1) as nat, p + 1)) || (p >= m.cols && within(
            m,
            (k - 1) as nat,
            p - m.cols,
        )) || (p + m.cols < m.open.len() && within(m, (k - 1) as nat, p + m.cols))))
    }
}

/// `k` is the least number of steps in which `p` can be reached.
pub open spec fn is_least(m: Room, p: int, k: nat) -> bool {
    within(m, k, p) && forall|j: nat| j < k ==> !within(m, j, p)
}

/// The least number of steps in which `p` can be reached, if it can be reached at all.
pub open spec fn least_steps(m: Room, p: int) -> Option<nat> {
    if exists|k: nat| within(m, k, p) {
        Some(choose|k: nat| is_least(m, p, k))
    } else {
        None
    }
}

/// The place in row 70 and column 70 of a memory of `rows` rows and `cols`
/// columns can still be reached from `start` after the bytes up to the one
/// of index `limit` have fallen.
pub open spec fn reachable_in(
    points: Seq<(u32, u32)>,
    limit: int,
    rows: int,
    cols: int,
    start: (usize, usize),
) -> bool {
    let m = room_after(points, limit + 1, rows, cols, start);
    let target = 70 * cols + 70;
    rows > 70 && cols > 70 && exists|k: nat| within(m, k, target)
}

/// The bottom right corner of the memory of the puzzle can still be reached
/// from the top left one after the bytes up to the one of index `limit` have
/// fallen.
pub open spec fn reachable(points: Seq<(u32, u32)>, limit: int) -> bool {
    reachable_in(points, limit, SIDE as int, SIDE as int, (0, 0))
}

/// The answer to the first part for the text `s`.
pub open spec fn answer_one(s: Seq<u8>) -> Option<u32> {
    match points_of(lines_of(s)) {
        None => None,
        Some(points) => if points.len() < FALLEN || exists|i: int|
            0 <= i < FALLEN && !(points[i].0 < SIDE && points[i].1 < SIDE) {
            None
        } else {
            match least_steps(memory_after(points, FALLEN as int), TARGET as int) {
                Some(k) => Some(k as u32),
                None => None,
            }
        },
    }
}

/// The index of the first byte, not before the 1024 of the first part, after
/// whose fall the bottom right corner cannot be reached.
pub open spec fn is_first_cut(points: Seq<(u32, u32)>, i: int) -> bool {
    &&& FALLEN <= i < points.len()
    &&& !reachable(points, i)
    &&& forall|j: int| FALLEN <= j < i ==> reachable(points, j)
}

/// A place as the answer writes it: two numbers with a comma between.
pub open spec fn written(pt: (u32, u32)) -> Seq<u8> {
    decimal_digits(pt.0 as nat) + seq![44u8] + decimal_digits(pt.1 as nat)
}

/// The answer to the second part for the text `s`, as bytes.
pub open spec fn answer_two(s: Seq<u8>) -> Option<Seq<u8>> {
    match points_of(lines_of(s)) {
        None => None,
        Some(points) => if exists|i: int| is_first_cut(points, i) {
            Some(written(points[choose|i: int| is_first_cut(points, i)]))
        } else {
            None
        },
    }
}

/// What can be reached in `j` steps can be reached in `k >= j` steps.
pub proof fn lemma_within_more_steps(m: Room, j: nat, k: nat, p: int)
    requires
        j <= k,
        within(m, j, p),
    ensures
        within(m, k, p),
    decreases k,
{
    if j < k {
        lemma_within_more_steps(m, j, (k - 1) as nat, p);
    }
}

/// What can be reached with fewer free places can be reached with more.
pub proof fn lemma_within_more_room(a: Room, b: Room, k: nat, p: int)
    requires
        a.cols == b.cols,
        a.start == b.start,
        a.open.len() == b.open.len(),
        forall|q: int| 0 <= q < a.open.len() && a.open[q] ==> b.open[q],
        within(a, k, p),
    ensures
        within(b, k, p),
    decreases k,
{
    if k > 0 {
        let j = (k - 1) as nat;
        if within(a, j, p) {
            lemma_within_more_room(a, b, j, p);
        } else {
            if p % a.cols > 0 && within(a, j, p - 1) {
                lemma_within_more_room(a, b, j, p - 1);
            } else if p % a.cols < a.cols - 1 && p + 1 < a.open.len() && within(a, j, p + 1) {
                lemma_within_more_room(a, b, j, p + 1);
            } else if p >= a.cols && within(a, j, p - a.cols) {
                lemma_within_more_room(a, b, j, p - a.cols);
            } else {
                lemma_within_more_room(a, b, j, p + a.cols);
            }
        }
    }
}

/// Once a further step reaches nothing new, no number of steps does.
pub proof fn lemma_within_settled(m: Room, k: nat, j: nat, p: int)
    requires
        forall|q: int| within(m, k + 1, q) == within(m, k, q),
        within(m, j, p),
    ensures
        within(m, k, p),
    decreases j,
{
    if j <= k {
        lemma_within_more_steps(m, j, k, p);
    } else {
        let i = (j - 1) as nat;
        if within(m, i, p) {
            lemma_within_settled(m, k, i, p);
        } else {
            if p % m.cols > 0 && within(m, i, p - 1) {
                lemma_within_settled(m, k, i, p - 1);
            } else if p % m.cols < m.cols - 1 && p + 1 < m.open.len() && within(m, i, p + 1) {
                lemma_within_settled(m, k, i, p + 1);
            } else if p >= m.cols && within(m, i, p - m.cols) {
                lemma_within_settled(m, k, i, p - m.cols);
            } else {
                lemma_within_settled(m, k, i, p + m.cols);
            }
            assert(within(m, k + 1, p));
        }
    }
}

/// Only the start and places of the memory are ever reached.
pub proof fn lemma_within_inside(m: Room, k: nat, p: int)
    requires
        within(m, k, p),
    ensures
        p == m.start || 0 <= p < m.open.len(),
    decreases k,
{
    if k > 0 && within(m, (k - 1) as nat, p) {
        lemma_within_inside(m, (k - 1) as nat, p);
    }
}

/// A falling byte never frees a place: what is cut off stays cut off.
pub proof fn lemma_reachable_earlier(points: Seq<(u32, u32)>, i: int, j: int)
    requires
        i <= j,
        reachable(points, j),
    ensures
        reachable(points, i),
{
    let a = memory_after(points, j + 1);
    let b = memory_after(points, i + 1);
    let target = 70 * SIDE + 70;
    let k = choose|k: nat| within(a, k, target);
    lemma_within_more_room(a, b, k, target);
}

/// How many entries of `s` are true.
pub open spec fn count_true(s: Seq<bool>) -> nat
    decreases s.len(),
{
    if s.len() == 0 {
        0
    } else {
        count_true(s.drop_last()) + if s.last() {
            1nat
        } else {
            0nat
        }
    }
}

proof fn lemma_count_grows(a: Seq<bool>, b: Seq<bool>)
    requires
        a.len() == b.len(),
        forall|i: int| 0 <= i < a.len() && a[i] ==> b[i],
    ensures
        count_true(a) <= count_true(b) <= b.len(),
        (exists|i: int| 0 <= i < a.len() && !a[i] && b[i]) ==> count_true(a) < count_true(b),
    decreases a.len(),
{
    if a.len() > 0 {
        let a1 = a.drop_last();
        let b1 = b.drop_last();
        lemma_count_grows(a1, b1);
        if exists|i: int| 0 <= i < a.len() && !a[i] && b[i] {
            let i = choose|i: int| 0 <= i < a.len() && !a[i] && b[i];
            if i < a.len() - 1 {
                assert(!a1[i] && b1[i]);
            }
        }
    }
}

fn parse_point(line: &Vec<u8>) -> (out: Option<(u32, u32)>)
    ensures
        out == point_of(line@),
{
    let comma: Vec<u8> = vec![44u8];
    assert(comma@ =~= seq![44u8]);
    let f = split(line.as_slice(), comma.as_slice());
    assert(views(f@).len() == f@.len());
    if f.len() < 2 {
        return None;
    }
    assert(views(f@)[0] == f@[0]@);
    assert(views(f@)[1] == f@[1]@);
    match (parse_u32(f[0].as_slice()), parse_u32(f[1].as_slice())) {
        (Some(x), Some(y)) => Some((x, y)),
        _ => None,
    }
}

#[verifier::loop_isolation(false)]
fn parse_points(ls: &Vec<Vec<u8>>) -> (out: Option<Vec<(u32, u32)>>)
    ensures
        match points_of(views(ls@)) {
            Some(points) => out is Some && out->0@ == points,
            None => out is None,
        },
{
    let ghost all = views(ls@);
    let mut acc: Vec<(u32, u32)> = Vec::new();
    let mut i: usize = 0;
    assert(all.skip(0) =~= all);
    while i < ls.len()
        invariant
            0 <= i <= ls@.len(),
            match points_of(all.skip(i as int)) {
                Some(rest) => points_of(all) == Some(acc@ + rest),
                None => points_of(all) is None,
            },
        decreases ls@.len() - i,
    {
        assert(all.skip(i as int)[0] == ls@[i as int]@);
        assert(all.skip(i as int).drop_first() =~= all.skip(i + 1));
        match parse_point(&ls[i]) {
            None => {
                return None;
            },
            Some(p) => {
                proof {
                    match points_of(all.skip(i + 1)) {
                        Some(rest) => {
                            assert(acc@.push(p) + rest =~= acc@ + (seq![p] + rest));
                        },
                        None => {},
                    }
                }
                acc.push(p);
            },
        }
        i += 1;
    }
    assert(acc@ + Seq::<(u32, u32)>::empty() =~= acc@);
    Some(acc)
}

/// The places of a memory of `rows` rows and `cols` columns that can be
/// stepped on after the first `n` bytes have fallen. With `strict`, a byte
/// that falls outside the memory is not accepted.
#[verifier::loop_isolation(false)]
fn free_places(
    points: &Vec<(u32, u32)>,
    n: usize,
    strict: bool,
    rows: usize,
    cols: usize,
    start: usize,
) -> (out: Option<Vec<bool>>)
    requires
        n <= points@.len(),
        rows * cols <= usize::MAX,
    ensures
        out is None <==> strict && exists|i: int|
            0 <= i < n && !(points@[i].0 < rows && points@[i].1 < cols),
        out matches Some(v) ==> v@ == open_after(
            points@,
            n as int,
            rows as int,
            cols as int,
            start as int,
        ),
{
    let cells = rows * cols;
    let mut grid: Vec<bool> = Vec::new();
    let mut p: usize = 0;
    while p < cells
        invariant
            0 <= p <= cells,
            grid@.len() == p,
            forall|q: int| 0 <= q < p ==> grid@[q] == (q != start),
        decreases cells - p,
    {
        grid.push(p != start);
        p += 1;
    }
    let mut j: usize = 0;
    while j < n
        invariant
            0 <= j <= n,
            grid@.len() == cells,
            forall|i: int| 0 <= i < j && strict ==> points@[i].0 < rows && points@[i].1 < cols,
            forall|q: int|
                0 <= q < cells ==> grid@[q] == (q != start && forall|i: int|
                    0 <= i < j ==> !hits(#[trigger] points@[i], rows as int, cols as int, q)),
        decreases n - j,
    {
        let (x, y) = points[j];
        if (x as usize) < rows && (y as usize) < cols {
            assert(x * cols + y < rows * cols) by (nonlinear_arith)
                requires
                    0 <= x < rows,
                    0 <= y < cols,
            ;
            assert(x * cols >= 0) by (nonlinear_arith)
                requires
                    0 <= x,
                    0 <= cols,
            ;
            let at = x as usize * cols + y as usize;
            let ghost before = grid@;
            grid.set(at, false);
            assert forall|q: int| 0 <= q < cells implies grid@[q] == (q != start && forall|i: int|
                0 <= i < j + 1 ==> !hits(#[trigger] points@[i], rows as int, cols as int, q)) by {
                if q == at {
                    assert(hits(points@[j as int], rows as int, cols as int, q));
                } else {
                    assert(!hits(points@[j as int], rows as int, cols as int, q));
                    assert(grid@[q] == before[q]);
                }
            }
        } else {
            if strict {
                return None;
            }
            assert forall|q: int| 0 <= q < cells implies grid@[q] == (q != start && forall|i: int|
                0 <= i < j + 1 ==> !hits(#[trigger] points@[i], rows as int, cols as int, q)) by {
                assert(!hits(points@[j as int], rows as int, cols as int, q));
            }
        }
        j += 1;
    }
    assert(grid@ =~= open_after(points@, n as int, rows as int, cols as int, start as int));
    Some(grid)
}

/// What can be reached in one step more.
#[verifier::loop_isolation(false)]
fn next_layer(open: &Vec<bool>, seen: &Vec<bool>, cols: usize, Ghost(m): Ghost<Room>, Ghost(k): Ghost<
    nat,
>) -> (next: Vec<bool>)
    requires
        cols > 0,
        m.open == open@,
        m.cols == cols,
        seen@.len() == open@.len(),
        forall|p: int| 0 <= p < open@.len() ==> seen@[p] == within(m, k, p),
    ensures
        next@.len() == open@.len(),
        forall|p: int| 0 <= p < open@.len() ==> next@[p] == within(m, k + 1, p),
{
    let len = open.len();
    let mut next: Vec<bool> = Vec::new();
    let mut p: usize = 0;
    while p < len
        invariant
            0 <= p <= len,
            next@.len() == p,
            forall|q: int| 0 <= q < p ==> next@[q] == within(m, k + 1, q),
        decreases len - p,
    {
        proof {
            vstd::arithmetic::div_mod::lemma_mod_decreases(p as nat, cols as nat);
        }
        let near = (p % cols > 0 && seen[p - 1]) || (p % cols < cols - 1 && len - p > 1 && seen[p
            + 1]) || (p >= cols && seen[p - cols]) || (len - p > cols && seen[p + cols]);
        let v = seen[p] || (open[p] && near);
        assert(v == within(m, k + 1, p as int));
        next.push(v);
        p += 1;
    }
    next
}

#[verifier::loop_isolation(false)]
fn same_marks(a: &Vec<bool>, b: &Vec<bool>) -> (r: bool)
    requires
        a@.len() == b@.len(),
    ensures
        r == (a@ == b@),
{
    let mut i: usize = 0;
    while i < a.len()
        invariant
            0 <= i <= a@.len(),
            forall|k: int| 0 <= k < i ==> a@[k] == b@[k],
        decreases a@.len() - i,
    {
        if a[i] != b[i] {
            return false;
        }
        i += 1;
    }
    assert(a@ =~= b@);
    true
}

/// The least number of steps from the place `start` to the place `target`
/// over the places that can be stepped on, in a memory of `cols` columns, if
/// there is a way at all.
#[verifier::loop_isolation(false)]
pub fn shortest_path(open: &Vec<bool>, cols: usize, start: usize, target: usize) -> (out: Option<
    usize,
>)
    requires
        cols > 0,
        start < open@.len(),
        target < open@.len(),
    ensures
        match out {
            Some(k) => is_least(
                (Room { open: open@, cols: cols as int, start: start as int }),
                target as int,
                k as nat,
            ),
            None => forall|k: nat|
                !within(
                    (Room { open: open@, cols: cols as int, start: start as int }),
                    k,
                    target as int,
                ),
        },
        out matches Some(k) ==> k <= open@.len(),
{
    let ghost m = Room { open: open@, cols: cols as int, start: start as int };
    if start == target {
        return Some(0);
    }
    let len = open.len();
    let mut seen: Vec<bool> = Vec::new();
    let mut p: usize = 0;
    while p < len
        invariant
            0 <= p <= len,
            seen@.len() == p,
            forall|q: int| 0 <= q < p ==> seen@[q] == (q == start),
        decreases len - p,
    {
        seen.push(p == start);
        p += 1;
    }
    let mut k: usize = 0;
    proof {
        let one = Seq::new(len as nat, |q: int| false);
        assert(forall|i: int| 0 <= i < one.len() && one[i] ==> seen@[i]);
        lemma_count_grows(one, seen@);
        assert(!one[start as int] && seen@[start as int]);
    }
    loop
        invariant
            seen@.len() == len,
            forall|q: int| 0 <= q < len ==> seen@[q] == within(m, k as nat, q),
            !within(m, k as nat, target as int),
            k < count_true(seen@) <= len,
        decreases len - count_true(seen@),
    {
        let next = next_layer(open, &seen, cols, Ghost(m), Ghost(k as nat));
        proof {
            assert forall|i: int| 0 <= i < seen@.len() && seen@[i] implies next@[i] by {
                lemma_within_more_steps(m, k as nat, (k + 1) as nat, i);
            }
            lemma_count_grows(seen@, next@);
        }
        if next[target] {
            assert forall|j: nat| j < k + 1 implies !within(m, j, target as int) by {
                if within(m, j, target as int) {
                    lemma_within_more_steps(m, j, k as nat, target as int);
                }
            }
            return Some(k + 1);
        }
        if same_marks(&next, &seen) {
            assert forall|j: nat| !within(m, j, target as int) by {
                if within(m, j, target as int) {
                    assert forall|q: int| within(m, (k + 1) as nat, q) == within(m, k as nat, q) by {
                        if within(m, (k + 1) as nat, q) {
                            lemma_within_inside(m, (k + 1) as nat, q);
                        }
                        if within(m, k as nat, q) {
                            lemma_within_inside(m, k as nat, q);
                        }
                        if 0 <= q < len {
                            assert(next@[q] == within(m, (k + 1) as nat, q));
                            assert(seen@[q] == within(m, k as nat, q));
                        }
                    }
                    lemma_within_settled(m, k as nat, j, target as int);
                }
            }
            return None;
        }
        proof {
            assert(exists|i: int| 0 <= i < seen@.len() && !seen@[i] && next@[i]) by {
                if forall|i: int| 0 <= i < seen@.len() ==> (seen@[i] || !next@[i]) {
                    assert(next@ =~= seen@);
                }
            }
        }
        seen = next;
        k += 1;
    }
}

/// Whether the place in row 70 and column 70 of a memory of `rows` rows and
/// `cols` columns can still be reached from `starting_position` after the
/// bytes up to the one of index `byte_limit` have fallen.
pub fn path_reachable(
    byte_positions: &Vec<(u32, u32)>,
    byte_limit: usize,
    rows: usize,
    cols: usize,
    starting_position: (usize, usize),
) -> (r: bool)
    requires
        byte_limit < byte_positions@.len(),
        starting_position.0 < rows,
        starting_position.1 < cols,
        rows * cols <= usize::MAX,
    ensures
        r == reachable_in(
            byte_positions@,
            byte_limit as int,
            rows as int,
            cols as int,
            starting_position,
        ),
{
    if rows <= 70 || cols <= 70 {
        return false;
    }
    let n = byte_positions.len();
    assert(starting_position.0 * cols + starting_position.1 < rows * cols) by (nonlinear_arith)
        requires
            0 <= starting_position.0 < rows,
            0 <= starting_position.1 < cols,
    ;
    assert(starting_position.0 * cols >= 0) by (nonlinear_arith)
        requires
            0 <= starting_position.0,
            0 <= cols,
    ;
    assert(70 * cols + 70 < rows * cols) by (nonlinear_arith)
        requires
            rows > 70,
            cols > 70,
    ;
    let start = starting_position.0 * cols + starting_position.1;
    let open = match free_places(byte_positions, byte_limit + 1, false, rows, cols, start) {
        Some(v) => v,
        None => {
            return false;
        },
    };
    let ghost m = room_after(
        byte_positions@,
        byte_limit + 1,
        rows as int,
        cols as int,
        starting_position,
    );
    assert(m == (Room { open: open@, cols: cols as int, start: start as int }));
    match shortest_path(&open, cols, start, 70 * cols + 70) {
        Some(k) => {
            assert(within(m, k as nat, 70 * cols + 70));
            true
        },
        None => false,
    }
}

/// The least number of steps from corner to corner once 1024 bytes have fallen.
pub fn part_one(input: &str) -> (out: Option<u32>)
    ensures
        out == answer_one(input.spec_bytes()),
{
    let ls = lines(input.as_bytes());
    let points = match parse_points(&ls) {
        Some(p) => p,
        None => {
            return None;
        },
    };
    if points.len() < FALLEN {
        return None;
    }
    let open = match free_places(&points, FALLEN, true, SIDE, SIDE, 0) {
        Some(v) => v,
        None => {
            return None;
        },
    };
    let ghost m = memory_after(points@, FALLEN as int);
    assert(m == (Room { open: open@, cols: SIDE as int, start: 0 }));
    match shortest_path(&open, SIDE, 0, TARGET) {
        Some(k) => {
            assert(exists|j: nat| within(m, j, TARGET as int));
            let ghost c = choose|j: nat| is_least(m, TARGET as int, j);
            assert(c == k) by {
                assert(is_least(m, TARGET as int, k as nat));
                if c < k {
                    assert(!within(m, c, TARGET as int));
                } else if k < c {
                    assert(!within(m, k as nat, TARGET as int));
                }
            }
            Some(k as u32)
        },
        None => None,
    }
}

/// The place of the first byte that cuts the two corners off from each
/// other, written as two numbers with a comma between.
#[verifier::loop_isolation(false)]
pub fn part_two(input: &str) -> (out: Option<String>)
    ensures
        match answer_two(input.spec_bytes()) {
            Some(b) => out is Some && encode_utf8(out->0@) == b,
            None => out is None,
        },
{
    let ls = lines(input.as_bytes());
    let points = match parse_points(&ls) {
        Some(p) => p,
        None => {
            return None;
        },
    };
    let mut low: usize = FALLEN;
    let mut high: usize = points.len();
    let mut first: Option<usize> = None;
    while low < high
        invariant
            FALLEN <= low,
            high <= points@.len(),
            forall|j: int| FALLEN <= j < low ==> reachable(points@, j),
            high < points@.len() ==> !reachable(points@, high as int) && first == Some(high),
            high == points@.len() ==> first is None,
            high < points@.len() ==> low <= high,
        decreases high - low,
    {
        let mid = low + (high - low) / 2;
        if path_reachable(&points, mid, SIDE, SIDE, (0, 0)) {
            assert forall|j: int| FALLEN <= j < mid + 1 implies reachable(points@, j) by {
                lemma_reachable_earlier(points@, j, mid as int);
            }
            low = mid + 1;
        } else {
            first = Some(mid);
            high = mid;
        }
    }
    match first {
        Some(index) => {
            assert(is_first_cut(points@, index as int));
            let ghost c = choose|i: int| is_first_cut(points@, i);
            assert(c == index);
            let (x, y) = points[index];
            let mut text = format_u128(x as u128);
            text.push(44u8);
            let mut tail = format_u128(y as u128);
            text.append(&mut tail);
            assert(text@ =~= written((x, y)));
            proof {
                crate::text::lemma_digits_round_trip(x as nat);
                crate::text::lemma_digits_round_trip(y as nat);
                assert(is_ascii_bytes(text@));
                lemma_ascii_is_utf8(text@);
            }
            to_text(text)
        },
        None => {
            assert forall|i: int| !is_first_cut(points@, i) by {
                if is_first_cut(points@, i) {
                    assert(reachable(points@, i));
                }
            }
            None
        },
    }
}

} // verus!
