//! Maps drawn in text: a sequence of rows of bytes, not necessarily all of
//! one length. Reading or writing outside the map is reported, never done.
use vstd::prelude::*;
use crate::text::views;

verus! {

/// The byte at row `r`, column `c`, if the map has such a place.
pub open spec fn cell(g: Seq<Seq<u8>>, r: int, c: int) -> Option<u8> {
    if 0 <= r < g.len() && 0 <= c < g[r].len() {
        Some(g[r][c])
    } else {
        None
    }
}

/// The map is no larger than a machine can hold.
pub open spec fn of_machine_size(g: Seq<Seq<u8>>) -> bool {
    g.len() <= usize::MAX && forall|r: int| 0 <= r < g.len() ==> (#[trigger] g[r]).len() <= usize::MAX
}

/// The map with `v` written at row `r`, column `c`, if it has such a place.
pub open spec fn with_cell(g: Seq<Seq<u8>>, r: int, c: int, v: u8) -> Option<Seq<Seq<u8>>> {
    if 0 <= r < g.len() && 0 <= c < g[r].len() {
        Some(g.update(r, g[r].update(c, v)))
    } else {
        None
    }
}

/// `x` moved `k` steps in the direction of the sign of `d`.
pub open spec fn shifted(x: int, d: int, k: int) -> int {
    if d < 0 {
        x - k
    } else if d > 0 {
        x + k
    } else {
        x
    }
}

/// Reads one place of the map.
pub fn get(g: &Vec<Vec<u8>>, r: usize, c: usize) -> (b: Option<u8>)
    ensures
        b == cell(views(g@), r as int, c as int),
{
    if r < g.len() && c < g[r].len() {
        Some(g[r][c])
    } else {
        None
    }
}

/// Reads the place at row `r`, column `c`, which may lie outside the map on
/// any side.
pub fn get_at(g: &Vec<Vec<u8>>, r: i128, c: i128) -> (b: Option<u8>)
    ensures
        b == cell(views(g@), r as int, c as int),
{
    if r < 0 || c < 0 || r >= g.len() as i128 {
        return None;
    }
    let row = &g[r as usize];
    if c >= row.len() as i128 {
        return None;
    }
    Some(row[c as usize])
}

/// Writes one place of the map, and says whether there was such a place.
pub fn put(g: &mut Vec<Vec<u8>>, r: usize, c: usize, v: u8) -> (ok: bool)
    ensures
        match with_cell(views(old(g)@), r as int, c as int, v) {
            Some(n) => ok && views(final(g)@) == n,
            None => !ok && *final(g) == *old(g),
        },
{
    if r < g.len() && c < g[r].len() {
        g[r][c] = v;
        assert(views(g@) =~= views(old(g)@).update(
            r as int,
            views(old(g)@)[r as int].update(c as int, v),
        ));
        true
    } else {
        false
    }
}

/// Moves an index `k` steps in the direction of the sign of `d`, if the
/// result is an index at all.
pub fn shift(x: usize, d: i8, k: usize) -> (y: Option<usize>)
    ensures
        match y {
            Some(v) => v == shifted(x as int, d as int, k as int),
            None => shifted(x as int, d as int, k as int) < 0 || shifted(
                x as int,
                d as int,
                k as int,
            ) > usize::MAX,
        },
{
    if d < 0 {
        if k <= x {
            Some(x - k)
        } else {
            None
        }
    } else if d > 0 {
        x.checked_add(k)
    } else {
        Some(x)
    }
}

/// Reads the place `k` steps away from `(r, c)` in the direction of the signs
/// of `dr` and `dc`.
pub fn get_rel(g: &Vec<Vec<u8>>, r: usize, c: usize, dr: i8, dc: i8, k: usize) -> (b: Option<u8>)
    ensures
        b == cell(
            views(g@),
            shifted(r as int, dr as int, k as int),
            shifted(c as int, dc as int, k as int),
        ),
{
    match (shift(r, dr, k), shift(c, dc, k)) {
        (Some(a), Some(b)) => get(g, a, b),
        _ => {
            proof {
                let rr = shifted(r as int, dr as int, k as int);
                assert(g.len() == g@.len());
                if 0 <= rr < g@.len() {
                    assert(g@[rr].len() == g@[rr]@.len());
                }
            }
            None
        },
    }
}

/// Writes the place `k` steps away from `(r, c)` in the direction of the
/// signs of `dr` and `dc`, and says whether there was such a place.
pub fn put_rel(g: &mut Vec<Vec<u8>>, r: usize, c: usize, dr: i8, dc: i8, k: usize, v: u8) -> (ok:
    bool)
    ensures
        match with_cell(
            views(old(g)@),
            shifted(r as int, dr as int, k as int),
            shifted(c as int, dc as int, k as int),
            v,
        ) {
            Some(n) => ok && views(final(g)@) == n,
            None => !ok && *final(g) == *old(g),
        },
{
    match (shift(r, dr, k), shift(c, dc, k)) {
        (Some(a), Some(b)) => put(g, a, b, v),
        _ => {
            proof {
                let rr = shifted(r as int, dr as int, k as int);
                assert(g.len() == g@.len());
                if 0 <= rr < g@.len() {
                    assert(g@[rr].len() == g@[rr]@.len());
                }
            }
            false
        },
    }
}

/// The first column below `cols` of row `r`, from `c` on, that holds `mark`.
/// `None` where the row ends before that.
pub open spec fn mark_in_row(g: Seq<Seq<u8>>, cols: int, r: int, c: int, mark: u8) -> Option<
    Option<int>,
>
    decreases cols - c,
{
    if c >= cols {
        Some(None)
    } else {
        match cell(g, r, c) {
            None => None,
            Some(b) => if b == mark {
                Some(Some(c))
            } else {
                mark_in_row(g, cols, r, c + 1, mark)
            },
        }
    }
}

/// The first place in reading order, from row `r` on, that holds `mark`,
/// looking at the first `cols` places of each row. Without any, the top left
/// corner. `None` where a row is shorter than that and the mark has not been
/// found before the row ends.
pub open spec fn first_mark(g: Seq<Seq<u8>>, cols: int, r: int, mark: u8) -> Option<(int, int)>
    decreases g.len() - r,
{
    if 0 <= r < g.len() {
        match mark_in_row(g, cols, r, 0, mark) {
            None => None,
            Some(None) => first_mark(g, cols, r + 1, mark),
            Some(Some(c)) => Some((r, c)),
        }
    } else {
        Some((0, 0))
    }
}

/// Looks for the first place that holds `mark`.
#[verifier::loop_isolation(false)]
pub fn find_first(map: &Vec<Vec<u8>>, cols: usize, mark: u8) -> (out: Option<(usize, usize)>)
    ensures
        match first_mark(views(map@), cols as int, 0, mark) {
            Some(p) => out == Some((p.0 as usize, p.1 as usize)) && 0 <= p.0 <= usize::MAX && 0
                <= p.1 <= usize::MAX,
            None => out is None,
        },
{
    let ghost g = views(map@);
    let mut r: usize = 0;
    while r < map.len()
        invariant
            0 <= r <= map@.len(),
            first_mark(g, cols as int, r as int, mark) == first_mark(g, cols as int, 0, mark),
        decreases map@.len() - r,
    {
        let mut c: usize = 0;
        while c < cols
            invariant
                0 <= c <= cols,
                mark_in_row(g, cols as int, r as int, c as int, mark) == mark_in_row(
                    g,
                    cols as int,
                    r as int,
                    0,
                    mark,
                ),
            decreases cols - c,
        {
            match get(map, r, c) {
                None => {
                    return None;
                },
                Some(b) => {
                    if b == mark {
                        return Some((r, c));
                    }
                    c += 1;
                },
            }
        }
        r += 1;
    }
    Some((0, 0))
}

/// Whether `x` is among the entries of `v`.
#[verifier::loop_isolation(false)]
pub fn has_place(v: &Vec<(usize, usize)>, x: (usize, usize)) -> (r: bool)
    ensures
        r == v@.contains(x),
{
    let mut i: usize = 0;
    while i < v.len()
        invariant
            0 <= i <= v@.len(),
            forall|k: int| 0 <= k < i ==> v@[k] != x,
        decreases v@.len() - i,
    {
        if v[i].0 == x.0 && v[i].1 == x.1 {
            assert(v@[i as int] == x);
            return true;
        }
        i += 1;
    }
    false
}

/// The number of different places among the entries of `v`.
#[verifier::loop_isolation(false)]
pub fn count_distinct(v: &Vec<(usize, usize)>) -> (n: usize)
    ensures
        n == v@.to_set().len(),
{
    let mut seen: Vec<(usize, usize)> = Vec::new();
    let mut i: usize = 0;
    assert(v@.take(0).to_set() =~= seen@.to_set());
    while i < v.len()
        invariant
            0 <= i <= v@.len(),
            seen@.no_duplicates(),
            seen@.to_set() == v@.take(i as int).to_set(),
        decreases v@.len() - i,
    {
        let x = v[i];
        proof {
            let t = v@.take(i + 1);
            assert(t.drop_last() =~= v@.take(i as int));
            assert(t =~= v@.take(i as int).push(x));
            vstd::seq_lib::lemma_seq_contains_after_push(v@.take(i as int), x, x);
            assert forall|y: (usize, usize)| t.contains(y) <==> (v@.take(i as int).contains(y) || y
                == x) by {
                vstd::seq_lib::lemma_seq_contains_after_push(v@.take(i as int), x, y);
            }
            assert(t.to_set() =~= v@.take(i as int).to_set().insert(x));
        }
        if !has_place(&seen, x) {
            proof {
                assert forall|y: (usize, usize)| seen@.push(x).contains(y) <==> (seen@.contains(y)
                    || y == x) by {
                    vstd::seq_lib::lemma_seq_contains_after_push(seen@, x, y);
                }
                assert(seen@.push(x).to_set() =~= seen@.to_set().insert(x));
            }
            seen.push(x);
        } else {
            assert(seen@.to_set().insert(x) =~= seen@.to_set());
        }
        i += 1;
    }
    proof {
        assert(v@.take(i as int) =~= v@);
        seen@.unique_seq_to_set();
    }
    seen.len()
}

} // verus!
