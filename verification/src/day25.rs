//! Locks and keys, drawn as blocks of lines of `#` and `.`. The answer is
//! the number of pairs of a key and a lock that fit: in no column do the
//! pins of the two overlap.
use vstd::prelude::*;
use vstd::string::StringSliceAdditionalSpecFns;
use crate::text::{views, lines_of, lines, split_seq, split, same_bytes};

verus! {

/// The sums of the entries of `a` and `b` side by side, as far as both
/// reach, from the `i`-th on. `None` where a sum does not fit in a byte.
pub open spec fn added(a: Seq<u8>, b: Seq<u8>, i: int) -> Option<Seq<u8>>
    decreases a.len() - i,
{
    if 0 <= i < a.len() && i < b.len() {
        if a[i] + b[i] > u8::MAX {
            None
        } else {
            match added(a, b, i + 1) {
                None => None,
                Some(rest) => Some(seq![(a[i] + b[i]) as u8] + rest),
            }
        }
    } else {
        Some(seq![])
    }
}

/// A line with 1 for each `#` and 0 for whatever else.
pub open spec fn filled(line: Seq<u8>) -> Seq<u8> {
    Seq::new(
        line.len(),
        |i: int|
            if line[i] == 35 {
                1u8
            } else {
                0u8
            },
    )
}

/// The counts of `#` by column through the lines from the `i`-th on, added
/// to `heights`.
pub open spec fn counted(ls: Seq<Seq<u8>>, i: int, heights: Seq<u8>) -> Option<Seq<u8>>
    decreases ls.len() - i,
{
    if 0 <= i < ls.len() {
        match added(heights, filled(ls[i]), 0) {
            None => None,
            Some(h) => counted(ls, i + 1, h),
        }
    } else {
        Some(heights)
    }
}

/// Each entry less one, but not less than zero.
pub open spec fn lowered(h: Seq<u8>) -> Seq<u8> {
    Seq::new(
        h.len(),
        |i: int|
            if h[i] > 0 {
                (h[i] - 1) as u8
            } else {
                0u8
            },
    )
}

/// The heights of the pins of a schematic, in five columns.
pub open spec fn heights_of(schematic: Seq<u8>) -> Option<Seq<u8>> {
    match counted(lines_of(schematic), 0, seq![0u8, 0u8, 0u8, 0u8, 0u8]) {
        None => None,
        Some(h) => Some(lowered(h)),
    }
}

/// `"....."`: the first line of a key.
pub open spec fn empty_row() -> Seq<u8> {
    seq![46u8, 46u8, 46u8, 46u8, 46u8]
}

/// The keys and the locks of the schematics from the `i`-th on, behind
/// `keys` and `locks`. `None` where a schematic has no line.
pub open spec fn sorted_out(
    blocks: Seq<Seq<u8>>,
    i: int,
    keys: Seq<Seq<u8>>,
    locks: Seq<Seq<u8>>,
) -> Option<(Seq<Seq<u8>>, Seq<Seq<u8>>)>
    decreases blocks.len() - i,
{
    if 0 <= i < blocks.len() {
        match heights_of(blocks[i]) {
            None => None,
            Some(h) => if lines_of(blocks[i]).len() == 0 {
                None
            } else if lines_of(blocks[i])[0] == empty_row() {
                sorted_out(blocks, i + 1, keys.push(h), locks)
            } else {
                sorted_out(blocks, i + 1, keys, locks.push(h))
            },
        }
    } else {
        Some((keys, locks))
    }
}

/// Key and lock fit: side by side no column is higher than five.
pub open spec fn fit(key: Seq<u8>, lock: Seq<u8>) -> Option<bool> {
    match added(key, lock, 0) {
        None => None,
        Some(c) => Some(forall|i: int| 0 <= i < c.len() ==> #[trigger] c[i] < 6),
    }
}

/// The number of pairs that fit, from key `i` and lock `j` on, added to `acc`.
pub open spec fn fitting(keys: Seq<Seq<u8>>, locks: Seq<Seq<u8>>, i: int, j: int, acc: u32)
    -> Option<u32>
    decreases keys.len() - i, locks.len() - j,
{
    if 0 <= i < keys.len() {
        if 0 <= j < locks.len() {
            match fit(keys[i], locks[j]) {
                None => None,
                Some(f) => if f {
                    if acc >= u32::MAX {
                        None
                    } else {
                        fitting(keys, locks, i, j + 1, (acc + 1) as u32)
                    }
                } else {
                    fitting(keys, locks, i, j + 1, acc)
                },
            }
        } else {
            fitting(keys, locks, i + 1, 0, acc)
        }
    } else {
        Some(acc)
    }
}

/// The answer to the first part for the text `s`.
pub open spec fn answer_one(s: Seq<u8>) -> Option<u32> {
    match sorted_out(split_seq(s, seq![10u8, 10u8]), 0, seq![], seq![]) {
        None => None,
        Some(kl) => fitting(kl.0, kl.1, 0, 0, 0),
    }
}

/// Adds two rows of numbers entry by entry, as far as both reach.
#[verifier::loop_isolation(false)]
pub fn add_vectors(a: &Vec<u8>, b: &Vec<u8>) -> (out: Option<Vec<u8>>)
    ensures
        match added(a@, b@, 0) {
            Some(s) => out is Some && out->0@ == s,
            None => out is None,
        },
{
    let mut out: Vec<u8> = Vec::new();
    let mut i: usize = 0;
    while i < a.len() && i < b.len()
        invariant
            0 <= i <= a@.len(),
            i <= b@.len(),
            match added(a@, b@, i as int) {
                Some(rest) => added(a@, b@, 0) == Some(out@ + rest),
                None => added(a@, b@, 0) is None,
            },
        decreases a@.len() - i,
    {
        let s = match a[i].checked_add(b[i]) {
            Some(s) => s,
            None => {
                return None;
            },
        };
        proof {
            match added(a@, b@, i + 1) {
                Some(rest) => {
                    assert(out@.push(s) + rest =~= out@ + (seq![s] + rest));
                },
                None => {},
            }
        }
        out.push(s);
        i += 1;
    }
    assert(out@ + Seq::<u8>::empty() =~= out@);
    Some(out)
}

#[verifier::loop_isolation(false)]
fn fill_of(line: &Vec<u8>) -> (out: Vec<u8>)
    ensures
        out@ == filled(line@),
{
    let mut out: Vec<u8> = Vec::new();
    let mut i: usize = 0;
    while i < line.len()
        invariant
            0 <= i <= line@.len(),
            out@.len() == i,
            forall|k: int| 0 <= k < i ==> out@[k] == filled(line@)[k],
        decreases line@.len() - i,
    {
        out.push(if line[i] == 35 {
            1
        } else {
            0
        });
        i += 1;
    }
    assert(out@ =~= filled(line@));
    out
}

/// The heights of the pins of a schematic.
#[verifier::loop_isolation(false)]
pub fn is_filled(ls: &Vec<Vec<u8>>) -> (out: Option<Vec<u8>>)
    ensures
        match counted(views(ls@), 0, seq![0u8, 0u8, 0u8, 0u8, 0u8]) {
            Some(h) => out is Some && out->0@ == lowered(h),
            None => out is None,
        },
{
    let ghost all = views(ls@);
    let mut heights: Vec<u8> = vec![0u8, 0u8, 0u8, 0u8, 0u8];
    assert(heights@ =~= seq![0u8, 0u8, 0u8, 0u8, 0u8]);
    let ghost goal = counted(all, 0, heights@);
    let mut i: usize = 0;
    while i < ls.len()
        invariant
            0 <= i <= ls@.len(),
            counted(all, i as int, heights@) == goal,
        decreases ls@.len() - i,
    {
        assert(all[i as int] == ls@[i as int]@);
        let fill = fill_of(&ls[i]);
        heights = match add_vectors(&heights, &fill) {
            Some(h) => h,
            None => {
                return None;
            },
        };
        i += 1;
    }
    let ghost counts = heights@;
    let mut k: usize = 0;
    while k < heights.len()
        invariant
            0 <= k <= heights@.len(),
            heights@.len() == counts.len(),
            forall|j: int| 0 <= j < k ==> heights@[j] == lowered(counts)[j],
            forall|j: int| k <= j < heights@.len() ==> heights@[j] == counts[j],
        decreases heights@.len() - k,
    {
        let h = heights[k];
        heights.set(k, if h > 0 {
            h - 1
        } else {
            0
        });
        k += 1;
    }
    assert(heights@ =~= lowered(counts));
    Some(heights)
}

#[verifier::loop_isolation(false)]
fn fits(key: &Vec<u8>, lock: &Vec<u8>) -> (out: Option<bool>)
    ensures
        out == fit(key@, lock@),
{
    let combined = match add_vectors(key, lock) {
        Some(c) => c,
        None => {
            return None;
        },
    };
    let mut i: usize = 0;
    while i < combined.len()
        invariant
            0 <= i <= combined@.len(),
            forall|k: int| 0 <= k < i ==> #[trigger] combined@[k] < 6,
        decreases combined@.len() - i,
    {
        if combined[i] >= 6 {
            return Some(false);
        }
        i += 1;
    }
    Some(true)
}

/// The number of pairs of a key and a lock that fit.
#[verifier::loop_isolation(false)]
pub fn part_one(input: &str) -> (out: Option<u32>)
    ensures
        out == answer_one(input.spec_bytes()),
{
    let pat: Vec<u8> = vec![10u8, 10u8];
    assert(pat@ =~= seq![10u8, 10u8]);
    let blocks = split(input.as_bytes(), pat.as_slice());
    let ghost all = views(blocks@);
    let mut keys: Vec<Vec<u8>> = Vec::new();
    let mut locks: Vec<Vec<u8>> = Vec::new();
    assert(views(keys@) =~= Seq::<Seq<u8>>::empty());
    assert(views(locks@) =~= Seq::<Seq<u8>>::empty());
    let ghost goal = sorted_out(all, 0, seq![], seq![]);
    let empty: Vec<u8> = vec![46u8, 46u8, 46u8, 46u8, 46u8];
    assert(empty@ =~= empty_row());
    let mut i: usize = 0;
    while i < blocks.len()
        invariant
            0 <= i <= blocks@.len(),
            sorted_out(all, i as int, views(keys@), views(locks@)) == goal,
        decreases blocks@.len() - i,
    {
        assert(all[i as int] == blocks@[i as int]@);
        let ls = lines(blocks[i].as_slice());
        let heights = match is_filled(&ls) {
            Some(h) => h,
            None => {
                return None;
            },
        };
        assert(views(ls@).len() == ls@.len());
        if ls.len() == 0 {
            return None;
        }
        assert(views(ls@)[0] == ls@[0]@);
        if same_bytes(ls[0].as_slice(), empty.as_slice()) {
            proof {
                crate::text::lemma_views_push(keys@, heights);
            }
            keys.push(heights);
        } else {
            proof {
                crate::text::lemma_views_push(locks@, heights);
            }
            locks.push(heights);
        }
        i += 1;
    }
    let ghost ks = views(keys@);
    let ghost lk = views(locks@);
    let mut result: u32 = 0;
    let mut a: usize = 0;
    while a < keys.len()
        invariant
            0 <= a <= keys@.len(),
            fitting(ks, lk, a as int, 0, result) == fitting(ks, lk, 0, 0, 0),
        decreases keys@.len() - a,
    {
        let mut b: usize = 0;
        while b < locks.len()
            invariant
                0 <= b <= locks@.len(),
                0 <= a < keys@.len(),
                fitting(ks, lk, a as int, b as int, result) == fitting(ks, lk, 0, 0, 0),
            decreases locks@.len() - b,
        {
            assert(ks[a as int] == keys@[a as int]@);
            assert(lk[b as int] == locks@[b as int]@);
            match fits(&keys[a], &locks[b]) {
                None => {
                    return None;
                },
                Some(f) => {
                    if f {
                        if result == u32::MAX {
                            return None;
                        }
                        result += 1;
                    }
                },
            }
            b += 1;
        }
        a += 1;
    }
    Some(result)
}

/// There is no second part to this puzzle.
pub fn part_two(input: &str) -> (out: Option<u32>)
    ensures
        out is None,
{
    None
}

} // verus!
