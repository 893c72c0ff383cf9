//! Two lists of numbers stand side by side, one pair to a line. The first
//! part puts both lists in ascending order and adds up the distances between
//! the numbers that then stand side by side. The second adds up each number
//! of the left list times the number of times it stands in the right list.
use vstd::prelude::*;
use vstd::string::StringSliceAdditionalSpecFns;
use crate::text::{views, lines_of, lines, words_of, words, as_u32, parse_u32};

verus! {

/// The two numbers at the beginning of a line.
pub open spec fn pair_of(line: Seq<u8>) -> Option<(u32, u32)> {
    let parts = words_of(line);
    if parts.len() < 2 {
        None
    } else {
        match (as_u32(parts[0]), as_u32(parts[1])) {
            (Some(a), Some(b)) => Some((a, b)),
            _ => None,
        }
    }
}

/// The two lists that the lines from the `i`-th on hold, behind `left` and
/// `right`. `None` where a line does not begin with two numbers.
pub open spec fn lists_of(ls: Seq<Seq<u8>>, i: int, left: Seq<u32>, right: Seq<u32>) -> Option<
    (Seq<u32>, Seq<u32>),
>
    decreases ls.len() - i,
{
    if 0 <= i < ls.len() {
        match pair_of(ls[i]) {
            None => None,
            Some(p) => lists_of(ls, i + 1, left.push(p.0), right.push(p.1)),
        }
    } else {
        Some((left, right))
    }
}

/// Where `x` belongs in the ascending sequence `s`: behind the last entry
/// that is not greater.
pub open spec fn place_of(s: Seq<u32>, x: u32) -> int
    decreases s.len(),
{
    if s.len() > 0 && x < s.last() {
        place_of(s.drop_last(), x)
    } else {
        s.len() as int
    }
}

/// The numbers of `s` in ascending order.
pub open spec fn sorted(s: Seq<u32>) -> Seq<u32>
    decreases s.len(),
{
    if s.len() == 0 {
        seq![]
    } else {
        let before = sorted(s.drop_last());
        before.insert(place_of(before, s.last()), s.last())
    }
}

/// No entry is greater than the next.
pub open spec fn ascending(s: Seq<u32>) -> bool {
    forall|i: int, j: int| 0 <= i <= j < s.len() ==> s[i] <= s[j]
}

proof fn lemma_place_of(s: Seq<u32>, x: u32)
    requires
        ascending(s),
    ensures
        0 <= place_of(s, x) <= s.len(),
        forall|k: int| 0 <= k < place_of(s, x) ==> s[k] <= x,
        forall|k: int| place_of(s, x) <= k < s.len() ==> x < s[k],
    decreases s.len(),
{
    if s.len() > 0 && x < s.last() {
        let t = s.drop_last();
        assert(ascending(t)) by {
            assert forall|i: int, j: int| 0 <= i <= j < t.len() implies t[i] <= t[j] by {
                assert(s[i] <= s[j]);
            }
        }
        lemma_place_of(t, x);
        let p = place_of(t, x);
        assert forall|k: int| 0 <= k < p implies s[k] <= x by {
            assert(s[k] == t[k]);
        }
        assert forall|k: int| p <= k < s.len() implies x < s[k] by {
            if k < t.len() {
                assert(s[k] == t[k]);
            }
        }
    } else if s.len() > 0 {
        assert forall|k: int| 0 <= k < s.len() implies s[k] <= x by {
            assert(s[k] <= s[s.len() - 1]);
        }
    }
}

/// The sorted list is in ascending order and holds the same numbers, each
/// as often as the list itself.
pub proof fn lemma_sorted(s: Seq<u32>)
    ensures
        ascending(sorted(s)),
        sorted(s).len() == s.len(),
        sorted(s).to_multiset() == s.to_multiset(),
    decreases s.len(),
{
    broadcast use vstd::seq_lib::group_to_multiset_ensures;

    if s.len() == 0 {
        assert(sorted(s) =~= s);
    } else {
        let t = s.drop_last();
        let x = s.last();
        lemma_sorted(t);
        let before = sorted(t);
        lemma_place_of(before, x);
        let p = place_of(before, x);
        let after = before.insert(p, x);
        assert(ascending(after)) by {
            assert forall|i: int, j: int| 0 <= i <= j < after.len() implies after[i] <= after[j] by {
                if i < p && j < p {
                    assert(after[i] == before[i] && after[j] == before[j]);
                } else if i < p && j == p {
                    assert(after[i] == before[i]);
                } else if i < p && j > p {
                    assert(after[i] == before[i] && after[j] == before[j - 1]);
                } else if i == p && j > p {
                    assert(after[j] == before[j - 1]);
                } else if i > p {
                    assert(after[i] == before[i - 1] && after[j] == before[j - 1]);
                }
            }
        }
        assert(s =~= t.push(x));
        vstd::seq_lib::to_multiset_insert(before, p, x);
        assert(t.push(x) =~= t.insert(t.len() as int, x));
        vstd::seq_lib::to_multiset_insert(t, t.len() as int, x);
    }
}

/// The distance between two numbers, taken as numbers of 32 bits with a
/// sign. `None` where it does not fit in such a number.
pub open spec fn distance(a: u32, b: u32) -> Option<u32> {
    let d = (a as i32) - (b as i32);
    if d < i32::MIN || d > i32::MAX || d == i32::MIN {
        None
    } else if d < 0 {
        Some((-d) as u32)
    } else {
        Some(d as u32)
    }
}

/// The sum of the distances between the entries of `a` and `b` from the
/// `i`-th on, added to `acc`. `None` where `b` is too short or the sum does
/// not fit in 32 bits.
pub open spec fn total_distance(a: Seq<u32>, b: Seq<u32>, i: int, acc: u32) -> Option<u32>
    decreases a.len() - i,
{
    if 0 <= i < a.len() {
        if i >= b.len() {
            None
        } else {
            match distance(a[i], b[i]) {
                None => None,
                Some(d) => if acc + d > u32::MAX {
                    None
                } else {
                    total_distance(a, b, i + 1, (acc + d) as u32)
                },
            }
        }
    } else {
        Some(acc)
    }
}

/// The answer to the first part for the text `s`.
pub open spec fn answer_one(s: Seq<u8>) -> Option<u32> {
    match lists_of(lines_of(s), 0, seq![], seq![]) {
        None => None,
        Some(l) => total_distance(sorted(l.0), sorted(l.1), 0, 0),
    }
}

/// How often `x` stands in `s` from the `i`-th entry on.
pub open spec fn occurrences(s: Seq<u32>, x: u32, i: int) -> nat
    decreases s.len() - i,
{
    if 0 <= i < s.len() {
        (if s[i] == x {
            1nat
        } else {
            0nat
        }) + occurrences(s, x, i + 1)
    } else {
        0
    }
}

/// The sum, over the entries of `a` from the `i`-th on, of the entry times
/// the number of times it stands in `b`, of which the low 32 bits count;
/// added to `acc`. `None` where a product or the sum does not fit in 32 bits.
pub open spec fn similarity(a: Seq<u32>, b: Seq<u32>, i: int, acc: u32) -> Option<u32>
    decreases a.len() - i,
{
    if 0 <= i < a.len() {
        let times = (occurrences(b, a[i], 0) as usize) as u32;
        if a[i] * times > u32::MAX || acc + a[i] * times > u32::MAX {
            None
        } else {
            similarity(a, b, i + 1, (acc + a[i] * times) as u32)
        }
    } else {
        Some(acc)
    }
}

/// The answer to the second part for the text `s`.
pub open spec fn answer_two(s: Seq<u8>) -> Option<u32> {
    match lists_of(lines_of(s), 0, seq![], seq![]) {
        None => None,
        Some(l) => similarity(l.0, l.1, 0, 0),
    }
}

fn parse_pair(line: &Vec<u8>) -> (out: Option<(u32, u32)>)
    ensures
        out == pair_of(line@),
{
    let parts = words(line.as_slice());
    assert(views(parts@).len() == parts@.len());
    if parts.len() < 2 {
        return None;
    }
    assert(views(parts@)[0] == parts@[0]@);
    assert(views(parts@)[1] == parts@[1]@);
    match (parse_u32(parts[0].as_slice()), parse_u32(parts[1].as_slice())) {
        (Some(a), Some(b)) => Some((a, b)),
        _ => None,
    }
}

#[verifier::loop_isolation(false)]
fn parse_lists(input: &[u8]) -> (out: Option<(Vec<u32>, Vec<u32>)>)
    ensures
        match (lists_of(lines_of(input@), 0, seq![], seq![]), out) {
            (Some(l), Some(o)) => o.0@ == l.0 && o.1@ == l.1,
            (None, None) => true,
            _ => false,
        },
{
    let ls = lines(input);
    let ghost all = views(ls@);
    let mut first_list: Vec<u32> = Vec::new();
    let mut second_list: Vec<u32> = Vec::new();
    let ghost goal = lists_of(all, 0, first_list@, second_list@);
    let mut i: usize = 0;
    while i < ls.len()
        invariant
            0 <= i <= ls@.len(),
            lists_of(all, i as int, first_list@, second_list@) == goal,
        decreases ls@.len() - i,
    {
        assert(all[i as int] == ls@[i as int]@);
        match parse_pair(&ls[i]) {
            None => {
                return None;
            },
            Some((a, b)) => {
                first_list.push(a);
                second_list.push(b);
            },
        }
        i += 1;
    }
    Some((first_list, second_list))
}

/// Puts the numbers in ascending order.
#[verifier::loop_isolation(false)]
pub fn sort(v: &Vec<u32>) -> (out: Vec<u32>)
    ensures
        out@ == sorted(v@),
{
    let mut out: Vec<u32> = Vec::new();
    let mut i: usize = 0;
    assert(v@.take(0) =~= Seq::<u32>::empty());
    while i < v.len()
        invariant
            0 <= i <= v@.len(),
            out@ == sorted(v@.take(i as int)),
        decreases v@.len() - i,
    {
        let x = v[i];
        let ghost s = out@;
        let mut p: usize = out.len();
        assert(s.take(p as int) =~= s);
        while p > 0 && x < out[p - 1]
            invariant
                0 <= p <= out@.len(),
                s == out@,
                place_of(s.take(p as int), x) == place_of(s, x),
            decreases p,
        {
            assert(s.take(p as int).drop_last() =~= s.take(p - 1));
            p -= 1;
        }
        proof {
            assert(v@.take(i + 1).drop_last() =~= v@.take(i as int));
            assert(v@.take(i + 1).last() == x);
            if p > 0 {
                assert(s.take(p as int).last() == out@[p - 1]);
            }
            assert(place_of(s, x) == p);
        }
        out.insert(p, x);
        i += 1;
    }
    assert(v@.take(i as int) =~= v@);
    out
}

fn apart(a: u32, b: u32) -> (out: Option<u32>)
    ensures
        out == distance(a, b),
{
    let x = #[verifier::truncate] (a as i32);
    let y = #[verifier::truncate] (b as i32);
    match x.checked_sub(y) {
        Some(d) => {
            if d == i32::MIN {
                None
            } else if d < 0 {
                Some((-d) as u32)
            } else {
                Some(d as u32)
            }
        },
        None => None,
    }
}

/// The sum of the distances between the two lists in ascending order.
#[verifier::loop_isolation(false)]
pub fn part_one(input: &str) -> (out: Option<u32>)
    ensures
        out == answer_one(input.spec_bytes()),
{
    let (first_list, second_list) = match parse_lists(input.as_bytes()) {
        Some(l) => l,
        None => {
            return None;
        },
    };
    let first = sort(&first_list);
    let second = sort(&second_list);
    let mut distances: u32 = 0;
    let mut i: usize = 0;
    while i < first.len()
        invariant
            0 <= i <= first@.len(),
            total_distance(first@, second@, i as int, distances) == total_distance(
                first@,
                second@,
                0,
                0,
            ),
        decreases first@.len() - i,
    {
        if i >= second.len() {
            return None;
        }
        let d = match apart(first[i], second[i]) {
            Some(d) => d,
            None => {
                return None;
            },
        };
        distances = match distances.checked_add(d) {
            Some(s) => s,
            None => {
                return None;
            },
        };
        i += 1;
    }
    Some(distances)
}

#[verifier::loop_isolation(false)]
fn count_of(list: &Vec<u32>, x: u32) -> (n: usize)
    ensures
        n == occurrences(list@, x, 0),
{
    let mut n: usize = 0;
    let mut i: usize = list.len();
    while i > 0
        invariant
            0 <= i <= list@.len(),
            n == occurrences(list@, x, i as int),
            n <= list@.len() - i,
        decreases i,
    {
        i -= 1;
        if list[i] == x {
            n += 1;
        }
    }
    n
}

/// The sum of the numbers of the left list, each times the number of times
/// it stands in the right list.
#[verifier::loop_isolation(false)]
pub fn part_two(input: &str) -> (out: Option<u32>)
    ensures
        out == answer_two(input.spec_bytes()),
{
    let (first_list, second_list) = match parse_lists(input.as_bytes()) {
        Some(l) => l,
        None => {
            return None;
        },
    };
    let mut similarity_score: u32 = 0;
    let mut i: usize = 0;
    while i < first_list.len()
        invariant
            0 <= i <= first_list@.len(),
            similarity(first_list@, second_list@, i as int, similarity_score) == similarity(
                first_list@,
                second_list@,
                0,
                0,
            ),
        decreases first_list@.len() - i,
    {
        let id = first_list[i];
        let times = #[verifier::truncate] (count_of(&second_list, id) as u32);
        let term = match id.checked_mul(times) {
            Some(t) => t,
            None => {
                return None;
            },
        };
        similarity_score = match similarity_score.checked_add(term) {
            Some(s) => s,
            None => {
                return None;
            },
        };
        i += 1;
    }
    Some(similarity_score)
}

} // verus!
