//! Stones in a row, each with a number on it, change at every blink: a 0
//! becomes a 1; a number with an even count of digits splits into its two
//! halves; any other is multiplied by 2024. The answer is the number of
//! stones after 25 blinks in the first part, after 75 in the second.
use std::collections::HashMap;
use vstd::prelude::*;
use vstd::string::StringSliceAdditionalSpecFns;
use crate::text::{
    views, words_of, words, as_u32, as_u64, parse_u32, parse_u64, decimal_digits, format_u128,
    lemma_views_push,
};

verus! {

broadcast use vstd::std_specs::hash::group_hash_axioms;

/// The numbers on the stones that the stone marked `s` becomes at a blink.
/// With `wide`, the halves of a number are read in 64 bits, else in 32.
/// `None` where what the stone is marked with is no number or a number too large.
pub open spec fn blink(s: Seq<u8>, wide: bool) -> Option<Seq<u64>> {
    if s == seq![48u8] {
        Some(seq![1u64])
    } else if s.len() % 2 == 0 {
        let half = (s.len() / 2) as int;
        let left = s.subrange(0, half);
        let right = s.subrange(half, s.len() as int);
        if wide {
            match (as_u64(left), as_u64(right)) {
                (Some(a), Some(b)) => Some(seq![a, b]),
                _ => None,
            }
        } else {
            match (as_u32(left), as_u32(right)) {
                (Some(a), Some(b)) => Some(seq![a as u64, b as u64]),
                _ => None,
            }
        }
    } else {
        match as_u64(s) {
            Some(v) => if v * 2024 > u64::MAX {
                None
            } else {
                Some(seq![(v * 2024) as u64])
            },
            None => None,
        }
    }
}

/// The marks of stones with these numbers.
pub open spec fn marked(numbers: Seq<u64>) -> Seq<Seq<u8>> {
    Seq::new(numbers.len(), |i: int| decimal_digits(numbers[i] as nat))
}

/// The number of stones that the stone marked `s` has become after `steps` blinks.
pub open spec fn count(s: Seq<u8>, steps: nat, wide: bool) -> Option<nat>
    decreases steps, 0nat,
{
    if steps == 0 {
        Some(1)
    } else {
        match blink(s, wide) {
            None => None,
            Some(ns) => total_count(marked(ns), (steps - 1) as nat, wide, 0),
        }
    }
}

/// The sum of two counts, if both are there.
pub open spec fn add_opt(a: Option<nat>, b: Option<nat>) -> Option<nat> {
    match (a, b) {
        (Some(x), Some(y)) => Some(x + y),
        _ => None,
    }
}

/// The number of stones that the stones from the `i`-th on have become
/// after `steps` blinks.
pub open spec fn total_count(stones: Seq<Seq<u8>>, steps: nat, wide: bool, i: int) -> Option<nat>
    decreases steps, stones.len() - i + 1,
{
    if 0 <= i < stones.len() {
        add_opt(count(stones[i], steps, wide), total_count(stones, steps, wide, i + 1))
    } else {
        Some(0)
    }
}

/// The answer for the text `s`.
pub open spec fn answer(s: Seq<u8>, steps: nat, wide: bool) -> Option<usize> {
    match total_count(words_of(s), steps, wide, 0) {
        Some(n) => if n <= usize::MAX {
            Some(n as usize)
        } else {
            None
        },
        None => None,
    }
}

/// Without a blink every stone is one stone.
pub proof fn lemma_total_zero(stones: Seq<Seq<u8>>, wide: bool, i: int)
    requires
        0 <= i <= stones.len(),
    ensures
        total_count(stones, 0, wide, i) == Some((stones.len() - i) as nat),
    decreases stones.len() - i,
{
    if i < stones.len() {
        lemma_total_zero(stones, wide, i + 1);
        assert(count(stones[i], 0, wide) == Some(1nat));
    }
}

proof fn lemma_total_shift(a: Seq<Seq<u8>>, b: Seq<Seq<u8>>, steps: nat, wide: bool, j: int)
    requires
        0 <= j <= b.len(),
    ensures
        total_count(a + b, steps, wide, a.len() + j) == total_count(b, steps, wide, j),
    decreases b.len() - j,
{
    if j < b.len() {
        lemma_total_shift(a, b, steps, wide, j + 1);
        assert((a + b)[a.len() + j] == b[j]);
    }
}

/// Two rows of stones side by side become as many stones as the two apart.
pub proof fn lemma_total_append(a: Seq<Seq<u8>>, b: Seq<Seq<u8>>, steps: nat, wide: bool, i: int)
    requires
        0 <= i <= a.len(),
    ensures
        total_count(a + b, steps, wide, i) == add_opt(
            total_count(a, steps, wide, i),
            total_count(b, steps, wide, 0),
        ),
    decreases a.len() - i,
{
    if i < a.len() {
        lemma_total_append(a, b, steps, wide, i + 1);
        assert((a + b)[i] == a[i]);
    } else {
        lemma_total_shift(a, b, steps, wide, 0);
    }
}

/// The numbers on the stones that a stone becomes at a blink.
pub fn blink_stone(s: &[u8], wide: bool) -> (out: Option<Vec<u64>>)
    ensures
        match blink(s@, wide) {
            Some(ns) => out is Some && out->0@ == ns,
            None => out is None,
        },
{
    let n = s.len();
    if n == 1 && s[0] == 48 {
        assert(s@ =~= seq![48u8]);
        let out: Vec<u64> = vec![1u64];
        assert(out@ =~= seq![1u64]);
        return Some(out);
    }
    assert(s@ != seq![48u8]) by {
        if s@ == seq![48u8] {
            assert(s@.len() == 1 && s@[0] == 48);
        }
    }
    if n % 2 == 0 {
        let half = n / 2;
        let left = crate::text::copy_range(s, 0, half);
        let right = crate::text::copy_range(s, half, n);
        let (a, b) = if wide {
            match (parse_u64(left.as_slice()), parse_u64(right.as_slice())) {
                (Some(a), Some(b)) => (a, b),
                _ => {
                    return None;
                },
            }
        } else {
            match (parse_u32(left.as_slice()), parse_u32(right.as_slice())) {
                (Some(a), Some(b)) => (a as u64, b as u64),
                _ => {
                    return None;
                },
            }
        };
        let out: Vec<u64> = vec![a, b];
        assert(out@ =~= seq![a, b]);
        Some(out)
    } else {
        let v = match parse_u64(s) {
            Some(v) => v,
            None => {
                return None;
            },
        };
        let w = match v.checked_mul(2024) {
            Some(w) => w,
            None => {
                return None;
            },
        };
        let out: Vec<u64> = vec![w];
        assert(out@ =~= seq![w]);
        Some(out)
    }
}

/// The number of stones after 25 blinks.
#[verifier::loop_isolation(false)]
pub fn part_one(input: &str) -> (out: Option<usize>)
    ensures
        out == answer(input.spec_bytes(), 25, false),
{
    let mut current_stones = words(input.as_bytes());
    let ghost goal = total_count(views(current_stones@), 25, false, 0);
    let mut k: usize = 0;
    while k < 25
        invariant
            0 <= k <= 25,
            total_count(views(current_stones@), (25 - k) as nat, false, 0) == goal,
        decreases 25 - k,
    {
        let ghost cur = views(current_stones@);
        let ghost steps = (25 - k) as nat;
        let mut new_stones: Vec<Vec<u8>> = Vec::new();
        assert(views(new_stones@) =~= Seq::<Seq<u8>>::empty());
        let mut i: usize = 0;
        while i < current_stones.len()
            invariant
                0 <= i <= current_stones@.len(),
                cur == views(current_stones@),
                steps == 25 - k,
                add_opt(
                    total_count(views(new_stones@), (steps - 1) as nat, false, 0),
                    total_count(cur, steps, false, i as int),
                ) == goal,
            decreases current_stones@.len() - i,
        {
            assert(cur[i as int] == current_stones@[i as int]@);
            assert(total_count(cur, steps, false, i as int) == add_opt(
                count(cur[i as int], steps, false),
                total_count(cur, steps, false, i + 1),
            ));
            let numbers = match blink_stone(current_stones[i].as_slice(), false) {
                Some(ns) => ns,
                None => {
                    assert(count(cur[i as int], steps, false) is None);
                    return None;
                },
            };
            assert(count(cur[i as int], steps, false) == total_count(
                marked(numbers@),
                (steps - 1) as nat,
                false,
                0,
            ));
            let ghost before = views(new_stones@);
            let mut j: usize = 0;
            while j < numbers.len()
                invariant
                    0 <= j <= numbers@.len(),
                    views(new_stones@) == before + marked(numbers@).take(j as int),
                decreases numbers@.len() - j,
            {
                let digits = format_u128(numbers[j] as u128);
                proof {
                    lemma_views_push(new_stones@, digits);
                }
                new_stones.push(digits);
                j += 1;
                assert(views(new_stones@) =~= before + marked(numbers@).take(j as int));
            }
            proof {
                assert(marked(numbers@).take(j as int) =~= marked(numbers@));
                lemma_total_append(before, marked(numbers@), (steps - 1) as nat, false, 0);
            }
            i += 1;
        }
        current_stones = new_stones;
        k += 1;
    }
    proof {
        lemma_total_zero(views(current_stones@), false, 0);
    }
    Some(current_stones.len())
}

/// The place in the table of the stone with the number `n`, `steps` blinks
/// before the end.
pub open spec fn key_of(n: u64, steps: int) -> u128 {
    (n * 0x1_0000_0000_0000_0000 + steps) as u128
}

/// Every entry of the table is the number of stones that its stone becomes.
pub open spec fn memo_ok(memo: Map<u128, usize>, wide: bool) -> bool {
    forall|n: u64, k: nat|
        k <= u64::MAX && memo.contains_key(key_of(n, k as int)) ==> (#[trigger] count(
            decimal_digits(n as nat),
            k,
            wide,
        )) == Some(memo[key_of(n, k as int)] as nat)
}

/// The number of stones that the stone with the number `stone` has become
/// after `steps` blinks, if it fits in a machine word; looked up in the
/// table `memo` or worked out and noted there.
pub fn count_stones(stone: u64, steps: usize, wide: bool, memo: &mut HashMap<u128, usize>) -> (out:
    Option<usize>)
    requires
        memo_ok(old(memo)@, wide),
    ensures
        memo_ok(final(memo)@, wide),
        out == match count(decimal_digits(stone as nat), steps as nat, wide) {
            Some(c) => if c <= usize::MAX {
                Some(c as usize)
            } else {
                None
            },
            None => None,
        },
    decreases steps, 0nat,
{
    if steps == 0 {
        assert(count(decimal_digits(stone as nat), 0, wide) == Some(1nat));
        return Some(1);
    }
    let key: u128 = stone as u128 * 0x1_0000_0000_0000_0000 + steps as u128;
    assert(key == key_of(stone, steps as int));
    match memo.get(&key) {
        Some(v) => {
            assert(memo@.contains_key(key));
            assert(count(decimal_digits(stone as nat), steps as nat, wide) == Some(
                memo@[key] as nat,
            ));
            return Some(*v);
        },
        None => {},
    }
    let digits = format_u128(stone as u128);
    let numbers = match blink_stone(digits.as_slice(), wide) {
        Some(ns) => ns,
        None => {
            assert(count(digits@, steps as nat, wide) is None);
            return None;
        },
    };
    assert(count(digits@, steps as nat, wide) == total_count(
        marked(numbers@),
        (steps - 1) as nat,
        wide,
        0,
    ));
    let result = match sum_with(&numbers, steps - 1, wide, memo) {
        Some(r) => r,
        None => {
            return None;
        },
    };
    let ghost before = memo@;
    memo.insert(key, result);
    assert(memo_ok(memo@, wide)) by {
        assert forall|n: u64, k: nat|
            k <= u64::MAX && memo@.contains_key(key_of(n, k as int)) implies (#[trigger] count(
            decimal_digits(n as nat),
            k,
            wide,
        )) == Some(memo@[key_of(n, k as int)] as nat) by {
            if key_of(n, k as int) != key {
                assert(before.contains_key(key_of(n, k as int)));
            } else {
                assert(n == stone && k == steps);
            }
        }
    }
    Some(result)
}

/// The number of stones that the stones with these numbers have become
/// after `steps` blinks.
#[verifier::loop_isolation(false)]
fn sum_with(numbers: &Vec<u64>, steps: usize, wide: bool, memo: &mut HashMap<u128, usize>) -> (out:
    Option<usize>)
    requires
        memo_ok(old(memo)@, wide),
    ensures
        memo_ok(final(memo)@, wide),
        out == match total_count(marked(numbers@), steps as nat, wide, 0) {
            Some(c) => if c <= usize::MAX {
                Some(c as usize)
            } else {
                None
            },
            None => None,
        },
    decreases steps, 1nat,
{
    let ghost stones = marked(numbers@);
    // the stones are added up from the last to the first
    let mut total: usize = 0;
    let mut i: usize = numbers.len();
    let mut lost = false;
    while i > 0
        invariant
            0 <= i <= numbers@.len(),
            memo_ok(memo@, wide),
            !lost ==> total_count(stones, steps as nat, wide, i as int) == Some(total as nat),
            lost ==> (total_count(stones, steps as nat, wide, i as int) matches Some(c) ==> c
                > usize::MAX),
        decreases i,
    {
        i -= 1;
        assert(stones[i as int] == decimal_digits(numbers@[i as int] as nat));
        assert(total_count(stones, steps as nat, wide, i as int) == add_opt(
            count(stones[i as int], steps as nat, wide),
            total_count(stones, steps as nat, wide, i + 1),
        ));
        match count_stones(numbers[i], steps, wide, memo) {
            Some(c) => {
                if !lost {
                    match total.checked_add(c) {
                        Some(t) => {
                            total = t;
                        },
                        None => {
                            lost = true;
                        },
                    }
                }
            },
            None => {
                lost = true;
            },
        }
    }
    if lost {
        None
    } else {
        Some(total)
    }
}

/// The number of stones after 75 blinks.
#[verifier::loop_isolation(false)]
pub fn part_two(input: &str) -> (out: Option<usize>)
    ensures
        out == answer(input.spec_bytes(), 75, true),
{
    let stones = words(input.as_bytes());
    let ghost all = views(stones@);
    let mut memo: HashMap<u128, usize> = HashMap::new();
    let mut total: usize = 0;
    let mut lost = false;
    let mut i: usize = stones.len();
    while i > 0
        invariant
            0 <= i <= stones@.len(),
            memo_ok(memo@, true),
            !lost ==> total_count(all, 75, true, i as int) == Some(total as nat),
            lost ==> (total_count(all, 75, true, i as int) matches Some(c) ==> c > usize::MAX),
        decreases i,
    {
        i -= 1;
        assert(all[i as int] == stones@[i as int]@);
        assert(total_count(all, 75, true, i as int) == add_opt(
            count(all[i as int], 75, true),
            total_count(all, 75, true, i + 1),
        ));
        let here = match blink_stone(stones[i].as_slice(), true) {
            Some(ns) => {
                assert(count(all[i as int], 75, true) == total_count(marked(ns@), 74, true, 0));
                sum_with(&ns, 74, true, &mut memo)
            },
            None => {
                assert(count(all[i as int], 75, true) is None);
                None
            },
        };
        match here {
            Some(c) => {
                if !lost {
                    match total.checked_add(c) {
                        Some(t) => {
                            total = t;
                        },
                        None => {
                            lost = true;
                        },
                    }
                }
            },
            None => {
                lost = true;
            },
        }
    }
    if lost {
        None
    } else {
        Some(total)
    }
}

} // verus!
