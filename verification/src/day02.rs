//! Reports, one to a line, each a row of levels. A report is safe where
//! its levels all rise or all fall, by at least one and at most three from
//! one to the next. The first part counts the safe reports; the second also
//! counts those that are safe once one level is taken out.
use vstd::prelude::*;
use vstd::string::StringSliceAdditionalSpecFns;
use crate::text::{views, lines_of, lines, words_of, words, as_u32, parse_u32};

verus! {

/// The levels of a report: the words of the line that are numbers, from the
/// `i`-th word on.
pub open spec fn levels_of(parts: Seq<Seq<u8>>, i: int) -> Seq<u32>
    decreases parts.len() - i,
{
    if 0 <= i < parts.len() {
        (match as_u32(parts[i]) {
            Some(n) => seq![n],
            None => seq![],
        }) + levels_of(parts, i + 1)
    } else {
        seq![]
    }
}

/// Every level is greater than the one before.
pub open spec fn rising(levels: Seq<u32>) -> bool {
    forall|i: int| 0 <= i < levels.len() - 1 ==> #[trigger] levels[i] < levels[i + 1]
}

/// Every level is less than the one before.
pub open spec fn falling(levels: Seq<u32>) -> bool {
    forall|i: int| 0 <= i < levels.len() - 1 ==> #[trigger] levels[i] > levels[i + 1]
}

/// The step from `a` to `b` is of size one, two or three, the levels taken
/// as numbers of 32 bits with a sign. `None` where the step does not fit in
/// such a number.
pub open spec fn gentle(a: u32, b: u32) -> Option<bool> {
    let d = (b as i32) - (a as i32);
    if d <= i32::MIN || d > i32::MAX {
        None
    } else {
        Some(1 <= d <= 3 || -3 <= d <= -1)
    }
}

/// All steps from the `i`-th level on are gentle; the steps are looked at
/// in turn up to the first that is not.
pub open spec fn all_gentle(levels: Seq<u32>, i: int) -> Option<bool>
    decreases levels.len() - i,
{
    if 0 <= i < levels.len() - 1 {
        match gentle(levels[i], levels[i + 1]) {
            None => None,
            Some(g) => if g {
                all_gentle(levels, i + 1)
            } else {
                Some(false)
            },
        }
    } else {
        Some(true)
    }
}

/// Whether a report is safe.
pub open spec fn safe(levels: Seq<u32>) -> Option<bool> {
    if !(rising(levels) || falling(levels)) {
        Some(false)
    } else {
        all_gentle(levels, 0)
    }
}

/// Whether a report is safe once one of its levels, from the `i`-th on, is
/// taken out.
pub open spec fn safe_without_one(levels: Seq<u32>, i: int) -> Option<bool>
    decreases levels.len() - i,
{
    if 0 <= i < levels.len() {
        match safe(levels.remove(i)) {
            None => None,
            Some(s) => if s {
                Some(true)
            } else {
                safe_without_one(levels, i + 1)
            },
        }
    } else {
        Some(false)
    }
}

/// Whether a report counts: it is safe, or, with `tolerant`, safe once one
/// level is taken out.
pub open spec fn counts(levels: Seq<u32>, tolerant: bool) -> Option<bool> {
    match safe(levels) {
        None => None,
        Some(s) => if s || !tolerant {
            Some(s)
        } else {
            safe_without_one(levels, 0)
        },
    }
}

/// The number of reports from the `i`-th line on that count, added to `acc`.
pub open spec fn count_from(ls: Seq<Seq<u8>>, tolerant: bool, i: int, acc: usize) -> Option<usize>
    decreases ls.len() - i,
{
    if 0 <= i < ls.len() {
        match counts(levels_of(words_of(ls[i]), 0), tolerant) {
            None => None,
            Some(c) => if c {
                if acc >= usize::MAX {
                    None
                } else {
                    count_from(ls, tolerant, i + 1, (acc + 1) as usize)
                }
            } else {
                count_from(ls, tolerant, i + 1, acc)
            },
        }
    } else {
        Some(acc)
    }
}

/// The answer for the text `s`; of the count only the low 32 bits.
pub open spec fn answer(s: Seq<u8>, tolerant: bool) -> Option<u32> {
    match count_from(lines_of(s), tolerant, 0, 0) {
        Some(n) => Some(n as u32),
        None => None,
    }
}

#[verifier::loop_isolation(false)]
fn parse_levels(line: &Vec<u8>) -> (out: Vec<u32>)
    ensures
        out@ == levels_of(words_of(line@), 0),
{
    let parts = words(line.as_slice());
    let ghost ps = views(parts@);
    let mut out: Vec<u32> = Vec::new();
    let mut i: usize = 0;
    while i < parts.len()
        invariant
            0 <= i <= parts@.len(),
            out@ + levels_of(ps, i as int) == levels_of(ps, 0),
        decreases parts@.len() - i,
    {
        assert(ps[i as int] == parts@[i as int]@);
        let ghost before = out@;
        let ghost rest = levels_of(ps, i + 1);
        match parse_u32(parts[i].as_slice()) {
            Some(n) => {
                out.push(n);
                assert(out@ + rest =~= before + (seq![n] + rest));
            },
            None => {
                assert(out@ + rest =~= before + (Seq::<u32>::empty() + rest));
            },
        }
        i += 1;
    }
    assert(out@ + Seq::<u32>::empty() =~= out@);
    out
}

fn is_gentle(a: u32, b: u32) -> (out: Option<bool>)
    ensures
        out == gentle(a, b),
{
    let x = #[verifier::truncate] (a as i32);
    let y = #[verifier::truncate] (b as i32);
    match y.checked_sub(x) {
        Some(d) => {
            if d == i32::MIN {
                None
            } else {
                Some((1 <= d && d <= 3) || (-3 <= d && d <= -1))
            }
        },
        None => None,
    }
}

#[verifier::loop_isolation(false)]
fn all_rising(levels: &Vec<u32>) -> (r: bool)
    ensures
        r == rising(levels@),
{
    let n = levels.len();
    let mut i: usize = 1;
    while i < n
        invariant
            1 <= i,
            forall|k: int| 0 <= k < i - 1 ==> #[trigger] levels@[k] < levels@[k + 1],
        decreases n - i,
    {
        if !(levels[i - 1] < levels[i]) {
            assert(!(levels@[i - 1] < levels@[i - 1 + 1]));
            return false;
        }
        i += 1;
    }
    true
}

#[verifier::loop_isolation(false)]
fn all_falling(levels: &Vec<u32>) -> (r: bool)
    ensures
        r == falling(levels@),
{
    let n = levels.len();
    let mut i: usize = 1;
    while i < n
        invariant
            1 <= i,
            forall|k: int| 0 <= k < i - 1 ==> #[trigger] levels@[k] > levels@[k + 1],
        decreases n - i,
    {
        if !(levels[i - 1] > levels[i]) {
            assert(!(levels@[i - 1] > levels@[i - 1 + 1]));
            return false;
        }
        i += 1;
    }
    true
}

/// Whether a report is safe.
#[verifier::loop_isolation(false)]
pub fn is_safe(levels: &Vec<u32>) -> (out: Option<bool>)
    ensures
        out == safe(levels@),
{
    let n = levels.len();
    let is_increasing = all_rising(levels);
    let is_decreasing = all_falling(levels);
    if !(is_increasing || is_decreasing) {
        return Some(false);
    }
    let mut j: usize = 1;
    while j < n
        invariant
            1 <= j,
            all_gentle(levels@, j - 1) == all_gentle(levels@, 0),
        decreases n - j,
    {
        match is_gentle(levels[j - 1], levels[j]) {
            None => {
                return None;
            },
            Some(g) => {
                if !g {
                    return Some(false);
                }
            },
        }
        j += 1;
    }
    Some(true)
}

#[verifier::loop_isolation(false)]
fn without(levels: &Vec<u32>, i: usize) -> (out: Vec<u32>)
    requires
        i < levels@.len(),
    ensures
        out@ == levels@.remove(i as int),
{
    let mut out: Vec<u32> = Vec::new();
    let mut k: usize = 0;
    while k < levels.len()
        invariant
            0 <= k <= levels@.len(),
            out@.len() == (if k <= i {
                k as int
            } else {
                k - 1
            }),
            forall|j: int| 0 <= j < out@.len() ==> out@[j] == levels@.remove(i as int)[j],
        decreases levels@.len() - k,
    {
        if k != i {
            out.push(levels[k]);
        }
        k += 1;
    }
    assert(out@ =~= levels@.remove(i as int));
    out
}

#[verifier::loop_isolation(false)]
fn report_counts(levels: &Vec<u32>, tolerant: bool) -> (out: Option<bool>)
    ensures
        out == counts(levels@, tolerant),
{
    match is_safe(levels) {
        None => {
            return None;
        },
        Some(s) => {
            if s || !tolerant {
                return Some(s);
            }
        },
    }
    let mut i: usize = 0;
    while i < levels.len()
        invariant
            0 <= i <= levels@.len(),
            safe_without_one(levels@, i as int) == safe_without_one(levels@, 0),
        decreases levels@.len() - i,
    {
        let temp_levels = without(levels, i);
        match is_safe(&temp_levels) {
            None => {
                return None;
            },
            Some(s) => {
                if s {
                    return Some(true);
                }
            },
        }
        i += 1;
    }
    Some(false)
}

#[verifier::loop_isolation(false)]
fn count_reports(input: &[u8], tolerant: bool) -> (out: Option<u32>)
    ensures
        out == answer(input@, tolerant),
{
    let ls = lines(input);
    let ghost all = views(ls@);
    let mut count: usize = 0;
    let mut i: usize = 0;
    while i < ls.len()
        invariant
            0 <= i <= ls@.len(),
            count_from(all, tolerant, i as int, count) == count_from(all, tolerant, 0, 0),
        decreases ls@.len() - i,
    {
        assert(all[i as int] == ls@[i as int]@);
        let levels = parse_levels(&ls[i]);
        match report_counts(&levels, tolerant) {
            None => {
                return None;
            },
            Some(c) => {
                if c {
                    if count == usize::MAX {
                        return None;
                    }
                    count += 1;
                }
            },
        }
        i += 1;
    }
    Some(#[verifier::truncate] (count as u32))
}

/// The number of safe reports.
pub fn part_one(input: &str) -> (out: Option<u32>)
    ensures
        out == answer(input.spec_bytes(), false),
{
    count_reports(input.as_bytes(), false)
}

/// The number of reports that are safe, or safe once one level is taken out.
pub fn part_two(input: &str) -> (out: Option<u32>)
    ensures
        out == answer(input.spec_bytes(), true),
{
    count_reports(input.as_bytes(), true)
}

} // verus!
