//! Towels with stripes of colours are laid end to end to show a design.
//! The first part counts the designs that can be shown with the patterns
//! of towels at hand; the second counts the ways to show them.
use vstd::prelude::*;
use vstd::string::StringSliceAdditionalSpecFns;
use crate::text::{
    views, lines_of, lines, split_seq, split, split_once_seq, split_once, matches_at, occurs_at,
};

verus! {

/// The patterns named in the first section: what stands between the
/// commas, each followed by a space, but for what is empty; from the `i`-th on.
pub open spec fn patterns_of(pieces: Seq<Seq<u8>>, i: int) -> Seq<Seq<u8>>
    decreases pieces.len() - i,
{
    if 0 <= i < pieces.len() {
        (if pieces[i].len() > 0 {
            seq![pieces[i]]
        } else {
            seq![]
        }) + patterns_of(pieces, i + 1)
    } else {
        seq![]
    }
}

/// The number of ways to show the design from its `index`-th stripe on
/// with a towel of one of the patterns from the `k`-th on laid first.
pub open spec fn ways_with(patterns: Seq<Seq<u8>>, design: Seq<u8>, index: int, k: int) -> nat
    decreases design.len() - index, patterns.len() - k,
{
    if 0 <= k < patterns.len() && 0 <= index < design.len() {
        (if patterns[k].len() > 0 && matches_at(design, patterns[k], index) {
            ways(patterns, design, index + patterns[k].len())
        } else {
            0
        }) + ways_with(patterns, design, index, k + 1)
    } else {
        0
    }
}

/// The number of ways to show the design from its `index`-th stripe on.
pub open spec fn ways(patterns: Seq<Seq<u8>>, design: Seq<u8>, index: int) -> nat
    decreases design.len() - index, patterns.len() + 1,
{
    if index >= design.len() {
        1
    } else if index < 0 {
        0
    } else {
        ways_with(patterns, design, index, 0)
    }
}

/// The design can be shown.
pub open spec fn possible(patterns: Seq<Seq<u8>>, design: Seq<u8>) -> bool {
    ways(patterns, design, 0) > 0
}

/// The number of the designs from the `i`-th on that can be shown.
pub open spec fn possible_count(patterns: Seq<Seq<u8>>, designs: Seq<Seq<u8>>, i: int) -> nat
    decreases designs.len() - i,
{
    if 0 <= i < designs.len() {
        (if possible(patterns, designs[i]) {
            1nat
        } else {
            0nat
        }) + possible_count(patterns, designs, i + 1)
    } else {
        0
    }
}

/// The number of ways to show the designs from the `i`-th on, all together.
pub open spec fn ways_count(patterns: Seq<Seq<u8>>, designs: Seq<Seq<u8>>, i: int) -> nat
    decreases designs.len() - i,
{
    if 0 <= i < designs.len() {
        ways(patterns, designs[i], 0) + ways_count(patterns, designs, i + 1)
    } else {
        0
    }
}

/// The separator of the patterns: a comma and a space.
pub open spec fn comma_space() -> Seq<u8> {
    seq![44u8, 32u8]
}

/// The answer to the first part for the text `s`.
pub open spec fn answer_one(s: Seq<u8>) -> Option<u32> {
    match split_once_seq(s, seq![10u8, 10u8]) {
        None => None,
        Some(halves) => {
            let n = possible_count(
                patterns_of(split_seq(halves.0, comma_space()), 0),
                lines_of(halves.1),
                0,
            );
            if n <= u32::MAX {
                Some(n as u32)
            } else {
                None
            }
        },
    }
}

/// The answer to the second part for the text `s`.
pub open spec fn answer_two(s: Seq<u8>) -> Option<u64> {
    match split_once_seq(s, seq![10u8, 10u8]) {
        None => None,
        Some(halves) => {
            let n = ways_count(
                patterns_of(split_seq(halves.0, comma_space()), 0),
                lines_of(halves.1),
                0,
            );
            if n <= u64::MAX {
                Some(n as u64)
            } else {
                None
            }
        },
    }
}

/// A count kept as far as it fits in 64 bits.
pub open spec fn capped(n: nat) -> Option<u64> {
    if n <= u64::MAX {
        Some(n as u64)
    } else {
        None
    }
}

fn add_capped(a: Option<u64>, b: Option<u64>, Ghost(x): Ghost<nat>, Ghost(y): Ghost<nat>) -> (out:
    Option<u64>)
    requires
        a == capped(x),
        b == capped(y),
    ensures
        out == capped(x + y),
{
    match (a, b) {
        (Some(p), Some(q)) => p.checked_add(q),
        _ => None,
    }
}

/// The table of counts has an entry for each stripe of the design and one
/// for its end, and each entry that is filled is the number of ways to show
/// the design from that stripe on.
pub open spec fn counts_ok(memo: Seq<Option<u64>>, patterns: Seq<Seq<u8>>, design: Seq<u8>) -> bool {
    &&& memo.len() == design.len() + 1
    &&& forall|i: int|
        0 <= i < memo.len() ==> ((#[trigger] memo[i]) matches Some(v) ==> ways(patterns, design, i)
            == v)
}

/// The table of answers has an entry for each stripe of the design and one
/// for its end, and each entry that is filled says whether the design can be
/// shown from that stripe on.
pub open spec fn flags_ok(memo: Seq<Option<bool>>, patterns: Seq<Seq<u8>>, design: Seq<u8>) -> bool {
    &&& memo.len() == design.len() + 1
    &&& forall|i: int|
        0 <= i < memo.len() ==> ((#[trigger] memo[i]) matches Some(b) ==> b == (ways(
            patterns,
            design,
            i,
        ) > 0))
}

/// The number of ways to show the design from its `index`-th stripe on, as
/// far as it fits in 64 bits. What is found goes into the table `memo`, and
/// what the table holds is not counted again.
#[verifier::loop_isolation(false)]
pub fn count_designs(
    patterns: &Vec<Vec<u8>>,
    design: &Vec<u8>,
    index: usize,
    memo: &mut Vec<Option<u64>>,
) -> (out: Option<u64>)
    requires
        index <= design@.len(),
        counts_ok(old(memo)@, views(patterns@), design@),
    ensures
        counts_ok(final(memo)@, views(patterns@), design@),
        out == capped(ways(views(patterns@), design@, index as int)),
    decreases design@.len() - index, patterns@.len() + 1,
{
    let ghost ps = views(patterns@);
    match memo[index] {
        Some(cached) => {
            return Some(cached);
        },
        None => {},
    }
    if index == design.len() {
        memo.set(index, Some(1));
        return Some(1);
    }
    let mut total_ways: u64 = 0;
    let mut k: usize = 0;
    while k < patterns.len()
        invariant
            0 <= k <= patterns@.len(),
            index < design@.len(),
            counts_ok(memo@, ps, design@),
            total_ways + ways_with(ps, design@, index as int, k as int) == ways_with(
                ps,
                design@,
                index as int,
                0,
            ),
        decreases design@.len() - index, patterns@.len() - k,
    {
        let p = &patterns[k];
        assert(ps[k as int] == p@);
        if p.len() > 0 && occurs_at(design.as_slice(), p.as_slice(), index) {
            let found = match count_designs(patterns, design, index + p.len(), memo) {
                Some(c) => c,
                None => {
                    return None;
                },
            };
            total_ways = match total_ways.checked_add(found) {
                Some(t) => t,
                None => {
                    return None;
                },
            };
        }
        k += 1;
    }
    memo.set(index, Some(total_ways));
    Some(total_ways)
}

/// Whether the design can be shown from its `index`-th stripe on. What is
/// found goes into the table `memo`, and what the table holds is not looked
/// for again.
#[verifier::loop_isolation(false)]
pub fn design_possible(
    patterns: &Vec<Vec<u8>>,
    design: &Vec<u8>,
    index: usize,
    memo: &mut Vec<Option<bool>>,
) -> (out: bool)
    requires
        index <= design@.len(),
        flags_ok(old(memo)@, views(patterns@), design@),
    ensures
        flags_ok(final(memo)@, views(patterns@), design@),
        out == (ways(views(patterns@), design@, index as int) > 0),
    decreases design@.len() - index, patterns@.len() + 1,
{
    let ghost ps = views(patterns@);
    match memo[index] {
        Some(cached) => {
            return cached;
        },
        None => {},
    }
    if index == design.len() {
        memo.set(index, Some(true));
        return true;
    }
    let mut k: usize = 0;
    while k < patterns.len()
        invariant
            0 <= k <= patterns@.len(),
            index < design@.len(),
            flags_ok(memo@, ps, design@),
            ways_with(ps, design@, index as int, k as int) == ways_with(ps, design@, index as int, 0),
        decreases design@.len() - index, patterns@.len() - k,
    {
        let p = &patterns[k];
        assert(ps[k as int] == p@);
        if p.len() > 0 && occurs_at(design.as_slice(), p.as_slice(), index) {
            if design_possible(patterns, design, index + p.len(), memo) {
                memo.set(index, Some(true));
                return true;
            }
        }
        k += 1;
    }
    memo.set(index, Some(false));
    false
}

/// An empty table for a design of `n` stripes.
fn blank<T: Copy>(n: usize) -> (out: Vec<Option<T>>)
    ensures
        out@.len() == n + 1,
        forall|i: int| 0 <= i < out@.len() ==> out@[i] is None,
{
    let mut out: Vec<Option<T>> = Vec::new();
    while out.len() <= n
        invariant
            out@.len() <= n + 1,
            forall|i: int| 0 <= i < out@.len() ==> out@[i] is None,
        decreases n + 1 - out@.len(),
    {
        out.push(None);
    }
    out
}

#[verifier::loop_isolation(false)]
fn parse(input: &[u8]) -> (out: Option<(Vec<Vec<u8>>, Vec<Vec<u8>>)>)
    ensures
        match (split_once_seq(input@, seq![10u8, 10u8]), out) {
            (Some(halves), Some(o)) => views(o.0@) == patterns_of(
                split_seq(halves.0, comma_space()),
                0,
            ) && views(o.1@) == lines_of(halves.1),
            (None, None) => true,
            _ => false,
        },
{
    let pat: Vec<u8> = vec![10u8, 10u8];
    assert(pat@ =~= seq![10u8, 10u8]);
    let (top, bottom) = match split_once(input, pat.as_slice()) {
        Some(p) => p,
        None => {
            return None;
        },
    };
    let sep: Vec<u8> = vec![44u8, 32u8];
    assert(sep@ =~= comma_space());
    let pieces = split(top.as_slice(), sep.as_slice());
    let ghost all = views(pieces@);
    let mut patterns: Vec<Vec<u8>> = Vec::new();
    assert(views(patterns@) =~= Seq::<Seq<u8>>::empty());
    let mut i: usize = 0;
    while i < pieces.len()
        invariant
            0 <= i <= pieces@.len(),
            views(patterns@) + patterns_of(all, i as int) == patterns_of(all, 0),
        decreases pieces@.len() - i,
    {
        assert(all[i as int] == pieces@[i as int]@);
        let ghost before = views(patterns@);
        let ghost rest = patterns_of(all, i + 1);
        if pieces[i].len() > 0 {
            let copy = crate::text::copy_range(pieces[i].as_slice(), 0, pieces[i].len());
            assert(copy@ =~= pieces@[i as int]@);
            proof {
                crate::text::lemma_views_push(patterns@, copy);
            }
            patterns.push(copy);
            assert(views(patterns@) + rest =~= before + (seq![all[i as int]] + rest));
        } else {
            assert(views(patterns@) + rest =~= before + (Seq::<Seq<u8>>::empty() + rest));
        }
        i += 1;
    }
    assert(views(patterns@) + Seq::<Seq<u8>>::empty() =~= views(patterns@));
    let designs = lines(bottom.as_slice());
    Some((patterns, designs))
}

/// The number of designs that can be shown.
#[verifier::loop_isolation(false)]
pub fn part_one(input: &str) -> (out: Option<u32>)
    ensures
        out == answer_one(input.spec_bytes()),
{
    let (patterns, designs) = match parse(input.as_bytes()) {
        Some(p) => p,
        None => {
            return None;
        },
    };
    let ghost ps = views(patterns@);
    let ghost ds = views(designs@);
    let mut count: u32 = 0;
    let mut lost = false;
    let mut i: usize = designs.len();
    while i > 0
        invariant
            0 <= i <= designs@.len(),
            !lost ==> count == possible_count(ps, ds, i as int),
            lost ==> possible_count(ps, ds, i as int) > u32::MAX,
        decreases i,
    {
        i -= 1;
        assert(ds[i as int] == designs@[i as int]@);
        let mut memo: Vec<Option<bool>> = blank(designs[i].len());
        if design_possible(&patterns, &designs[i], 0, &mut memo) {
            if !lost {
                if count == u32::MAX {
                    lost = true;
                } else {
                    count += 1;
                }
            }
        }
    }
    if lost {
        None
    } else {
        Some(count)
    }
}

/// The number of ways to show the designs.
#[verifier::loop_isolation(false)]
pub fn part_two(input: &str) -> (out: Option<u64>)
    ensures
        out == answer_two(input.spec_bytes()),
{
    let (patterns, designs) = match parse(input.as_bytes()) {
        Some(p) => p,
        None => {
            return None;
        },
    };
    let ghost ps = views(patterns@);
    let ghost ds = views(designs@);
    let mut total: Option<u64> = Some(0);
    let mut i: usize = designs.len();
    while i > 0
        invariant
            0 <= i <= designs@.len(),
            total == capped(ways_count(ps, ds, i as int)),
        decreases i,
    {
        i -= 1;
        assert(ds[i as int] == designs@[i as int]@);
        let mut memo: Vec<Option<u64>> = blank(designs[i].len());
        let c = count_designs(&patterns, &designs[i], 0, &mut memo);
        total = add_capped(
            c,
            total,
            Ghost(ways(ps, ds[i as int], 0)),
            Ghost(ways_count(ps, ds, i + 1)),
        );
    }
    total
}

} // verus!
