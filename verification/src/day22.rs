//! Buyers on a market make their prices from secret numbers: each secret
//! number gives the next by three steps of shifting and mixing, and the price
//! is its last digit. The first part adds up the 2000th secret number after
//! each buyer's first; the second finds the most that can be earned by
//! selling to each buyer at the first time a chosen run of four price changes
//! has come up.
use std::collections::HashMap;
use vstd::prelude::*;
use vstd::string::StringSliceAdditionalSpecFns;
use crate::text::{views, lines_of, lines, as_u64, parse_u64};

verus! {

broadcast use vstd::std_specs::hash::group_hash_axioms;

/// The secret numbers made from each buyer's first.
pub const STEPS: usize = 2000;

/// The number of runs of four changes of a price between 0 and 9.
pub const RUNS: usize = 130321;

/// The secret number that follows `n`.
pub open spec fn next_secret(n: u64) -> u64 {
    let a = n ^ ((n << 6) & 16777215);
    let b = a ^ (a >> 5);
    b ^ ((b << 11) & 16777215)
}

/// The secret number `steps` steps after `n`.
pub open spec fn secret_after(n: u64, steps: nat) -> u64
    decreases steps,
{
    if steps == 0 {
        n
    } else {
        secret_after(next_secret(n), (steps - 1) as nat)
    }
}

/// The first `count` prices of the buyer whose first secret number is `n`.
pub open spec fn prices_of(n: u64, count: nat) -> Seq<u32>
    decreases count,
{
    if count == 0 {
        seq![]
    } else {
        seq![(n % 10) as u32] + prices_of(next_secret(n), (count - 1) as nat)
    }
}

/// The numbers that the lines spell, if every line spells one.
pub open spec fn numbers_of(ls: Seq<Seq<u8>>) -> Option<Seq<u64>>
    decreases ls.len(),
{
    if ls.len() == 0 {
        Some(seq![])
    } else {
        match (as_u64(ls[0]), numbers_of(ls.drop_first())) {
            (Some(n), Some(rest)) => Some(seq![n] + rest),
            _ => None,
        }
    }
}

/// The sum of the secret numbers 2000 steps after each of `numbers`, from
/// the `i`-th on, added to `acc`; `None` where it does not fit in 64 bits.
pub open spec fn total(numbers: Seq<u64>, i: int, acc: u64) -> Option<u64>
    decreases numbers.len() - i,
{
    if 0 <= i < numbers.len() {
        if acc + secret_after(numbers[i], STEPS as nat) > u64::MAX {
            None
        } else {
            total(numbers, i + 1, (acc + secret_after(numbers[i], STEPS as nat)) as u64)
        }
    } else {
        Some(acc)
    }
}

/// The answer to the first part for the text `s`.
pub open spec fn answer_one(s: Seq<u8>) -> Option<u64> {
    match numbers_of(lines_of(s)) {
        None => None,
        Some(numbers) => total(numbers, 0, 0),
    }
}

/// The number of the run of the four changes that end at the `i`-th price:
/// each change, between -9 and 9, is a digit of a number in base 19.
pub open spec fn run_index(prices: Seq<u32>, i: int) -> int {
    (((prices[i - 3] - prices[i - 4] + 9) * 19 + (prices[i - 2] - prices[i - 3] + 9)) * 19 + (
    prices[i - 1] - prices[i - 2] + 9)) * 19 + (prices[i] - prices[i - 1] + 9)
}

/// The first time, before the `n`-th price, that the run `k` has come up:
/// the index of the price at which it ends.
pub open spec fn first_time(prices: Seq<u32>, k: int, n: int) -> Option<int>
    decreases n,
{
    if n <= 4 {
        None
    } else {
        match first_time(prices, k, n - 1) {
            Some(i) => Some(i),
            None => if n - 1 < prices.len() && run_index(prices, n - 1) == k {
                Some(n - 1)
            } else {
                None
            },
        }
    }
}

/// What the run `k` earns from a buyer with these prices, of which the
/// first `n` count: the price at the first time the run comes up, or nothing.
pub open spec fn earned(prices: Seq<u32>, k: int, n: int) -> nat {
    match first_time(prices, k, n) {
        Some(i) => prices[i] as nat,
        None => 0,
    }
}

/// What the run `k` earns from the first `j` buyers.
pub open spec fn earnings(numbers: Seq<u64>, k: int, j: int) -> nat
    decreases j,
{
    if j <= 0 {
        0
    } else {
        earnings(numbers, k, j - 1) + earned(
            prices_of(numbers[j - 1], (STEPS + 1) as nat),
            k,
            STEPS + 1,
        )
    }
}

/// The most that one of the runs from the `k`-th on earns from all buyers.
pub open spec fn most(numbers: Seq<u64>, k: int) -> nat
    decreases RUNS - k,
{
    if 0 <= k < RUNS {
        let here = earnings(numbers, k, numbers.len() as int);
        let rest = most(numbers, k + 1);
        if here > rest {
            here
        } else {
            rest
        }
    } else {
        0
    }
}

/// The answer to the second part for the text `s`: the most that one run
/// earns. `None` where the earnings of some run do not fit in 32 bits.
pub open spec fn answer_two(s: Seq<u8>) -> Option<u32> {
    match numbers_of(lines_of(s)) {
        None => None,
        Some(numbers) => if exists|k: int|
            0 <= k < RUNS && #[trigger] earnings(numbers, k, numbers.len() as int) > u32::MAX {
            None
        } else {
            Some(most(numbers, 0) as u32)
        },
    }
}

/// A run that has come up has come up at the same time whatever comes later.
pub proof fn lemma_first_time_stays(prices: Seq<u32>, k: int, n: int, more: int)
    requires
        n <= more,
        first_time(prices, k, n) is Some,
    ensures
        first_time(prices, k, more) == first_time(prices, k, n),
    decreases more,
{
    if n < more {
        lemma_first_time_stays(prices, k, n, more - 1);
    }
}

/// Earnings do not shrink as more buyers come.
pub proof fn lemma_earnings_grow(numbers: Seq<u64>, k: int, j: int, more: int)
    requires
        j <= more,
    ensures
        earnings(numbers, k, j) <= earnings(numbers, k, more),
    decreases more - j,
{
    if j < more {
        lemma_earnings_grow(numbers, k, j, more - 1);
    }
}

/// The most that a run earns is what some run earns, and no run earns more.
pub proof fn lemma_most(numbers: Seq<u64>, k: int)
    requires
        0 <= k <= RUNS,
    ensures
        forall|r: int| k <= r < RUNS ==> #[trigger] earnings(numbers, r, numbers.len() as int)
            <= most(numbers, k),
        k < RUNS ==> exists|r: int|
            k <= r < RUNS && #[trigger] earnings(numbers, r, numbers.len() as int) == most(
                numbers,
                k,
            ),
    decreases RUNS - k,
{
    if k < RUNS {
        lemma_most(numbers, k + 1);
        let here = earnings(numbers, k, numbers.len() as int);
        if k + 1 < RUNS {
            let r = choose|r: int|
                k + 1 <= r < RUNS && #[trigger] earnings(numbers, r, numbers.len() as int) == most(
                    numbers,
                    k + 1,
                );
            if here > most(numbers, k + 1) {
                assert(earnings(numbers, k, numbers.len() as int) == most(numbers, k));
            } else {
                assert(earnings(numbers, r, numbers.len() as int) == most(numbers, k));
            }
        } else {
            assert(most(numbers, k + 1) == 0);
            assert(earnings(numbers, k, numbers.len() as int) == most(numbers, k));
        }
    }
}

fn step(n: u64) -> (out: u64)
    ensures
        out == next_secret(n),
{
    let a = n ^ ((n << 6) & 16777215);
    let b = a ^ (a >> 5);
    b ^ ((b << 11) & 16777215)
}

/// The secret number `steps` steps after `number`.
#[verifier::loop_isolation(false)]
pub fn secret_sequence(number: u64, steps: usize) -> (out: u64)
    ensures
        out == secret_after(number, steps as nat),
{
    let mut n = number;
    let mut i: usize = 0;
    while i < steps
        invariant
            0 <= i <= steps,
            secret_after(n, (steps - i) as nat) == secret_after(number, steps as nat),
        decreases steps - i,
    {
        n = step(n);
        i += 1;
    }
    n
}

#[verifier::loop_isolation(false)]
fn parse_numbers(ls: &Vec<Vec<u8>>) -> (out: Option<Vec<u64>>)
    ensures
        match numbers_of(views(ls@)) {
            Some(ns) => out is Some && out->0@ == ns,
            None => out is None,
        },
{
    let ghost all = views(ls@);
    let mut acc: Vec<u64> = Vec::new();
    let mut i: usize = 0;
    assert(all.skip(0) =~= all);
    while i < ls.len()
        invariant
            0 <= i <= ls@.len(),
            match numbers_of(all.skip(i as int)) {
                Some(rest) => numbers_of(all) == Some(acc@ + rest),
                None => numbers_of(all) is None,
            },
        decreases ls@.len() - i,
    {
        assert(all.skip(i as int)[0] == ls@[i as int]@);
        assert(all.skip(i as int).drop_first() =~= all.skip(i + 1));
        match parse_u64(ls[i].as_slice()) {
            None => {
                return None;
            },
            Some(n) => {
                proof {
                    match numbers_of(all.skip(i + 1)) {
                        Some(rest) => {
                            assert(acc@.push(n) + rest =~= acc@ + (seq![n] + rest));
                        },
                        None => {},
                    }
                }
                acc.push(n);
            },
        }
        i += 1;
    }
    assert(acc@ + Seq::<u64>::empty() =~= acc@);
    Some(acc)
}

/// The sum of the secret numbers 2000 steps after each buyer's first.
#[verifier::loop_isolation(false)]
pub fn part_one(input: &str) -> (out: Option<u64>)
    ensures
        out == answer_one(input.spec_bytes()),
{
    let ls = lines(input.as_bytes());
    let numbers = match parse_numbers(&ls) {
        Some(n) => n,
        None => {
            return None;
        },
    };
    let mut result: u64 = 0;
    let mut i: usize = 0;
    while i < numbers.len()
        invariant
            0 <= i <= numbers@.len(),
            total(numbers@, i as int, result) == total(numbers@, 0, 0),
        decreases numbers@.len() - i,
    {
        let s = secret_sequence(numbers[i], STEPS);
        result = match result.checked_add(s) {
            Some(r) => r,
            None => {
                return None;
            },
        };
        i += 1;
    }
    Some(result)
}

#[verifier::loop_isolation(false)]
fn prices(number: u64, count: usize) -> (out: Vec<u32>)
    ensures
        out@ == prices_of(number, count as nat),
        forall|k: int| 0 <= k < out@.len() ==> out@[k] < 10,
{
    let mut out: Vec<u32> = Vec::new();
    let mut n = number;
    let mut i: usize = 0;
    while i < count
        invariant
            0 <= i <= count,
            out@.len() == i,
            out@ + prices_of(n, (count - i) as nat) == prices_of(number, count as nat),
            forall|k: int| 0 <= k < out@.len() ==> out@[k] < 10,
        decreases count - i,
    {
        let ghost before = out@;
        let ghost rest = prices_of(next_secret(n), (count - i - 1) as nat);
        out.push((n % 10) as u32);
        assert(out@ + rest =~= before + (seq![(n % 10) as u32] + rest));
        n = step(n);
        i += 1;
    }
    assert(out@ + Seq::<u32>::empty() =~= out@);
    out
}

/// What the table of earnings holds for the run `k`; no entry counts as 0.
pub open spec fn held(m: Map<u32, u32>, k: u32) -> nat {
    if m.contains_key(k) {
        m[k] as nat
    } else {
        0
    }
}

/// What the run `k` earns from a buyer with these prices, of which the
/// first `n` count.
pub open spec fn gain(prices: Seq<u32>, k: u32, n: int) -> nat {
    earned(prices, k as int, n)
}

/// The run `k` has come up among the first `n` of these prices.
pub open spec fn came_up(prices: Seq<u32>, k: u32, n: int) -> bool {
    first_time(prices, k as int, n) is Some
}

/// The table of earnings after a buyer with these prices, of which the
/// first `n` count: each run that has come up has an entry, which holds what
/// the table held for the run and what the run earns from this buyer; the
/// other entries are as they were.
pub open spec fn priced(m: Map<u32, u32>, prices: Seq<u32>, n: int) -> Map<u32, u32> {
    Map::new(
        |k: u32| m.contains_key(k) || came_up(prices, k, n),
        |k: u32| (held(m, k) + gain(prices, k, n)) as u32,
    )
}

/// The number of a run of four changes, if each lies between -9 and 9.
pub open spec fn run_of(changes: (i8, i8, i8, i8)) -> Option<u32> {
    if -9 <= changes.0 <= 9 && -9 <= changes.1 <= 9 && -9 <= changes.2 <= 9 && -9 <= changes.3 <= 9 {
        Some(
            ((((changes.0 + 9) * 19 + (changes.1 + 9)) * 19 + (changes.2 + 9)) * 19 + (changes.3
                + 9)) as u32,
        )
    } else {
        None
    }
}

/// The number under which the table of earnings holds a run of four changes.
pub fn run_number(changes: (i8, i8, i8, i8)) -> (out: Option<u32>)
    ensures
        out == run_of(changes),
{
    let (a, b, c, d) = changes;
    if a < -9 || a > 9 || b < -9 || b > 9 || c < -9 || c > 9 || d < -9 || d > 9 {
        return None;
    }
    let a2: u32 = (a + 9) as u32;
    let b2: u32 = (b + 9) as u32;
    let c2: u32 = (c + 9) as u32;
    let d2: u32 = (d + 9) as u32;
    Some(((a2 * 19 + b2) * 19 + c2) * 19 + d2)
}

proof fn lemma_first_time_early(prices: Seq<u32>, k: int, n: int)
    requires
        n <= 4,
    ensures
        first_time(prices, k, n) is None,
{
}

/// Adds to the table of earnings what each run earns from one buyer in
/// `steps` changes of the price: a run that comes up gets an entry, under
/// its number, or has its entry raised. Says whether `steps + 1` prices can
/// be held and every entry still fits in 32 bits; where not, the table is
/// left in no particular state.
#[verifier::loop_isolation(false)]
pub fn sequence_pricing(number: u64, steps: usize, sequence_sums: &mut HashMap<u32, u32>) -> (ok:
    bool)
    ensures
        ok == (steps < usize::MAX && forall|k: u32|
            held(old(sequence_sums)@, k) + #[trigger] gain(
                prices_of(number, (steps + 1) as nat),
                k,
                steps + 1,
            ) <= u32::MAX),
        ok ==> final(sequence_sums)@ == priced(
            old(sequence_sums)@,
            prices_of(number, (steps + 1) as nat),
            steps + 1,
        ),
{
    if steps == usize::MAX {
        return false;
    }
    let ghost first = sequence_sums@;
    let p = prices(number, steps + 1);
    assert(p@.len() == steps + 1) by {
        lemma_prices_len(number, (steps + 1) as nat);
    }
    if steps < 4 {
        assert forall|k: u32| #[trigger] gain(p@, k, steps + 1) == 0 by {
            lemma_first_time_early(p@, k as int, steps + 1);
        }
        assert(sequence_sums@ =~= priced(first, p@, steps + 1)) by {
            assert forall|k: u32| !#[trigger] came_up(p@, k, steps + 1) by {
                lemma_first_time_early(p@, k as int, steps + 1);
            }
            assert forall|k: u32| first.contains_key(k) implies first[k] == (held(first, k) + gain(
                p@,
                k,
                steps + 1,
            )) as u32 by {
                assert(gain(p@, k, steps + 1) == 0);
            }
        }
        return true;
    }
    let mut seen: Vec<bool> = Vec::new();
    let mut k: usize = 0;
    while k < RUNS
        invariant
            0 <= k <= RUNS,
            seen@.len() == k,
            forall|j: int| 0 <= j < k ==> !seen@[j],
        decreases RUNS - k,
    {
        seen.push(false);
        k += 1;
    }
    assert(sequence_sums@ =~= priced(first, p@, 4)) by {
        assert forall|k: u32| !#[trigger] came_up(p@, k, 4) by {
            lemma_first_time_early(p@, k as int, 4);
        }
    }
    let mut i: usize = 4;
    while i < p.len()
        invariant
            4 <= i <= p@.len(),
            seen@.len() == RUNS,
            forall|k: int| 0 <= k < RUNS ==> (#[trigger] seen@[k]) == (first_time(p@, k, i as int) is Some),
            forall|k: u32| held(first, k) + #[trigger] gain(p@, k, i as int) <= u32::MAX,
            sequence_sums@ == priced(first, p@, i as int),
        decreases p@.len() - i,
    {
        let a = p[i - 3] as usize + 9 - p[i - 4] as usize;
        let b = p[i - 2] as usize + 9 - p[i - 3] as usize;
        let c = p[i - 1] as usize + 9 - p[i - 2] as usize;
        let d = p[i] as usize + 9 - p[i - 1] as usize;
        let at = ((a * 19 + b) * 19 + c) * 19 + d;
        assert(at == run_index(p@, i as int));
        let key: u32 = at as u32;
        let ghost before_seen = seen@;
        let ghost before = sequence_sums@;
        if !seen[at] {
            assert(first_time(p@, key as int, i as int) is None);
            assert(first_time(p@, key as int, i + 1) == Some(i as int));
            assert(gain(p@, key, i as int) == 0);
            let current: u32 = match sequence_sums.get(&key) {
                Some(v) => *v,
                None => 0,
            };
            assert(current == held(first, key)) by {
                assert(held(first, key) + gain(p@, key, i as int) <= u32::MAX);
            }
            let sum = match current.checked_add(p[i]) {
                Some(s) => s,
                None => {
                    proof {
                        lemma_first_time_stays(p@, key as int, i + 1, steps + 1);
                        assert(gain(p@, key, steps + 1) == p@[i as int]);
                    }
                    return false;
                },
            };
            sequence_sums.insert(key, sum);
            seen.set(at, true);
        }
        assert forall|k: int| 0 <= k < RUNS implies (#[trigger] seen@[k]) == (first_time(
            p@,
            k,
            i + 1,
        ) is Some) by {
            if k != at {
                assert(seen@[k] == before_seen[k]);
            }
        }
        assert forall|k: u32| held(first, k) + #[trigger] gain(p@, k, i + 1) <= u32::MAX by {
            assert(held(first, k) + gain(p@, k, i as int) <= u32::MAX);
            assert(before_seen[at as int] == (first_time(p@, at as int, i as int) is Some));
        }
        assert(sequence_sums@ =~= priced(first, p@, i + 1)) by {
            assert(before_seen[at as int] == (first_time(p@, at as int, i as int) is Some));
            assert forall|k: u32|
                sequence_sums@.contains_key(k) == priced(first, p@, i + 1).contains_key(k) by {
                assert(before.contains_key(k) == (first.contains_key(k) || came_up(p@, k, i as int)));
            }
            assert forall|k: u32| sequence_sums@.contains_key(k) implies sequence_sums@[k] == priced(
                first,
                p@,
                i + 1,
            )[k] by {
                assert(held(first, k) + gain(p@, k, i as int) <= u32::MAX);
                assert(held(first, k) + gain(p@, k, i + 1) <= u32::MAX);
                if before.contains_key(k) {
                    assert(before[k] == (held(first, k) + gain(p@, k, i as int)) as u32);
                }
            }
        }
        i += 1;
    }
    true
}

proof fn lemma_prices_len(n: u64, count: nat)
    ensures
        prices_of(n, count).len() == count,
    decreases count,
{
    if count > 0 {
        lemma_prices_len(next_secret(n), (count - 1) as nat);
    }
}

proof fn lemma_prices_small(n: u64, count: nat, i: int)
    requires
        0 <= i < count,
    ensures
        prices_of(n, count).len() == count,
        prices_of(n, count)[i] < 10,
    decreases count,
{
    lemma_prices_len(n, count);
    if i > 0 {
        lemma_prices_small(next_secret(n), (count - 1) as nat, i - 1);
        lemma_prices_len(next_secret(n), (count - 1) as nat);
    }
}

/// A run that comes up among prices below 10 has a number below 130321.
proof fn lemma_run_is_numbered(n: u64, count: nat, k: int, m: int)
    requires
        m <= count,
        first_time(prices_of(n, count), k, m) is Some,
    ensures
        0 <= k < RUNS,
    decreases m,
{
    let prices = prices_of(n, count);
    if m > 4 {
        match first_time(prices, k, m - 1) {
            Some(_) => {
                lemma_run_is_numbered(n, count, k, m - 1);
            },
            None => {
                lemma_prices_len(n, count);
                lemma_prices_small(n, count, m - 1);
                lemma_prices_small(n, count, m - 2);
                lemma_prices_small(n, count, m - 3);
                lemma_prices_small(n, count, m - 4);
                lemma_prices_small(n, count, m - 5);
            },
        }
    }
}

/// The most that can be earned with one run of four changes.
#[verifier::loop_isolation(false)]
pub fn part_two(input: &str) -> (out: Option<u32>)
    ensures
        out == answer_two(input.spec_bytes()),
{
    let ls = lines(input.as_bytes());
    let numbers = match parse_numbers(&ls) {
        Some(n) => n,
        None => {
            return None;
        },
    };
    let ghost all = numbers@;
    let mut sums: HashMap<u32, u32> = HashMap::new();
    let mut j: usize = 0;
    while j < numbers.len()
        invariant
            0 <= j <= numbers@.len(),
            forall|k: u32| (#[trigger] held(sums@, k)) == earnings(all, k as int, j as int),
        decreases numbers@.len() - j,
    {
        let ghost before = sums@;
        let ghost p = prices_of(all[j as int], (STEPS + 1) as nat);
        if !sequence_pricing(numbers[j], STEPS, &mut sums) {
            proof {
                let k = choose|k: u32| !(held(before, k) + #[trigger] gain(p, k, STEPS + 1) <= u32::MAX);
                assert(held(before, k) == earnings(all, k as int, j as int));
                assert(earnings(all, k as int, j + 1) > u32::MAX);
                lemma_earnings_grow(all, k as int, j + 1, all.len() as int);
                assert(gain(p, k, STEPS + 1) > 0);
                lemma_run_is_numbered(all[j as int], (STEPS + 1) as nat, k as int, STEPS + 1);
            }
            return None;
        }
        assert forall|k: u32| (#[trigger] held(sums@, k)) == earnings(all, k as int, j + 1) by {
            assert(held(before, k) == earnings(all, k as int, j as int));
            assert(held(before, k) + gain(p, k, STEPS + 1) <= u32::MAX);
            if first_time(p, k as int, STEPS + 1) is None {
                assert(gain(p, k, STEPS + 1) == 0);
            }
        }
        j += 1;
    }
    assert forall|k: int| 0 <= k < RUNS implies #[trigger] earnings(all, k, all.len() as int)
        <= u32::MAX by {
        assert(held(sums@, k as u32) == earnings(all, k, all.len() as int));
    }
    let mut best: u32 = 0;
    let mut i: usize = RUNS;
    while i > 0
        invariant
            0 <= i <= RUNS,
            best == most(all, i as int),
            forall|k: u32| (#[trigger] held(sums@, k)) == earnings(all, k as int, all.len() as int),
        decreases i,
    {
        i -= 1;
        let key: u32 = i as u32;
        let here: u32 = match sums.get(&key) {
            Some(v) => *v,
            None => 0,
        };
        assert(here == held(sums@, key));
        if here > best {
            best = here;
        }
    }
    Some(best)
}

/// A secret number below 2 to the power of 24 is followed by one below it.
pub proof fn lemma_secret_stays_small(n: u64)
    requires
        n < 16777216,
    ensures
        next_secret(n) < 16777216,
{
    let a = n ^ ((n << 6) & 16777215);
    let b = a ^ (a >> 5);
    let c = b ^ ((b << 11) & 16777215);
    assert(a < 16777216) by (bit_vector)
        requires
            n < 16777216,
            a == n ^ ((n << 6) & 16777215),
    ;
    assert(b < 16777216) by (bit_vector)
        requires
            a < 16777216,
            b == a ^ (a >> 5),
    ;
    assert(c < 16777216) by (bit_vector)
        requires
            b < 16777216,
            c == b ^ ((b << 11) & 16777215),
    ;
}

} // verus!
