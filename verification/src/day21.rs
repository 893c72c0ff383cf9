//! A code is typed on a keypad of digits by a robot, whose arm is steered
//! from a keypad of arrows by another robot, and so on through a chain of
//! robots up to the keypad that a person presses. The answer adds up, over
//! the codes, the number in the code times the least number of keys that the
//! person has to press.
use std::collections::HashMap;
use vstd::prelude::*;
use vstd::string::StringSliceAdditionalSpecFns;
use crate::text::{views, lines_of, lines, as_u32, parse_u32, as_u64, parse_u64, same_bytes};

verus! {

broadcast use vstd::std_specs::hash::group_hash_axioms;

/// The key `A`, on which every arm starts and with which a key is pressed.
pub const PRESS: u8 = 65;

/// The key `^`.
pub const UP: u8 = 94;

/// The key `v`.
pub const DOWN: u8 = 118;

/// The key `<`.
pub const LEFT: u8 = 60;

/// The key `>`.
pub const RIGHT: u8 = 62;

/// Where a key stands on the keypad of digits: row and column.
pub open spec fn numeric_place(key: u8) -> Option<(int, int)> {
    if key == 55 {
        Some((0, 0))
    } else if key == 56 {
        Some((0, 1))
    } else if key == 57 {
        Some((0, 2))
    } else if key == 52 {
        Some((1, 0))
    } else if key == 53 {
        Some((1, 1))
    } else if key == 54 {
        Some((1, 2))
    } else if key == 49 {
        Some((2, 0))
    } else if key == 50 {
        Some((2, 1))
    } else if key == 51 {
        Some((2, 2))
    } else if key == 48 {
        Some((3, 1))
    } else if key == PRESS {
        Some((3, 2))
    } else {
        None
    }
}

/// Where a key stands on the keypad of arrows.
pub open spec fn arrow_place(key: u8) -> Option<(int, int)> {
    if key == UP {
        Some((0, 1))
    } else if key == PRESS {
        Some((0, 2))
    } else if key == LEFT {
        Some((1, 0))
    } else if key == DOWN {
        Some((1, 1))
    } else if key == RIGHT {
        Some((1, 2))
    } else {
        None
    }
}

/// The key `key`, `n` times.
pub open spec fn repeated(key: u8, n: int) -> Seq<u8> {
    Seq::new(n as nat, |i: int| key)
}

/// How far two numbers are apart.
pub open spec fn gap(a: int, b: int) -> int {
    if a < b {
        b - a
    } else {
        a - b
    }
}

/// The ways to bring an arm from `from` to `to` and press, on a keypad
/// whose corner `hole` has no key: all the way along the rows and then along
/// the columns, or the other way round, each unless it passes the hole.
pub open spec fn ways(from: (int, int), to: (int, int), hole: (int, int)) -> Seq<Seq<u8>> {
    let rows = repeated(
        if from.0 < to.0 {
            DOWN
        } else {
            UP
        },
        gap(from.0, to.0),
    );
    let cols = repeated(
        if from.1 < to.1 {
            RIGHT
        } else {
            LEFT
        },
        gap(from.1, to.1),
    );
    (if (to.0, from.1) != hole {
        seq![rows + cols + seq![PRESS]]
    } else {
        seq![]
    }) + (if (from.0, to.1) != hole {
        seq![cols + rows + seq![PRESS]]
    } else {
        seq![]
    })
}

/// The ways to go from key `a` to key `b` and press it, on whichever keypad
/// has both: first those on the keypad of arrows, then those on the keypad
/// of digits. A way may stand here more than once.
pub open spec fn all_ways(a: u8, b: u8) -> Seq<Seq<u8>> {
    (match (arrow_place(a), arrow_place(b)) {
        (Some(p), Some(q)) => ways(p, q, (0, 0)),
        _ => seq![],
    }) + (match (numeric_place(a), numeric_place(b)) {
        (Some(p), Some(q)) => ways(p, q, (3, 0)),
        _ => seq![],
    })
}

/// `acc`, and behind it the sequences of `s` from the `i`-th on, each where
/// it stands first and nowhere else.
pub open spec fn once(s: Seq<Seq<u8>>, i: int, acc: Seq<Seq<u8>>) -> Seq<Seq<u8>>
    decreases s.len() - i,
{
    if 0 <= i < s.len() {
        once(
            s,
            i + 1,
            if acc.contains(s[i]) {
                acc
            } else {
                acc.push(s[i])
            },
        )
    } else {
        acc
    }
}

/// The ways to go from key `a` to key `b` and press it, each once, in the
/// order in which they first stand among all the ways.
pub open spec fn sequences(a: u8, b: u8) -> Seq<Seq<u8>> {
    once(all_ways(a, b), 0, seq![])
}

/// The least number of keys to press at the far end of a chain of `depth`
/// keypads of arrows so that the arm at the near end goes from key `a` to
/// key `b` and presses it. `None` where no keypad has both keys, or a number
/// on the way does not fit in a machine word.
pub open spec fn move_cost(a: u8, b: u8, depth: nat) -> Option<nat>
    decreases depth, 1int, 0int,
{
    if depth == 0 || sequences(a, b).len() == 0 {
        None
    } else {
        least_cost(sequences(a, b), (depth - 1) as nat, 0)
    }
}

/// The least of the costs of the sequences from the `i`-th on.
pub open spec fn least_cost(seqs: Seq<Seq<u8>>, depth: nat, i: int) -> Option<nat>
    decreases depth, 3int, seqs.len() - i,
{
    if 0 <= i < seqs.len() {
        match press_cost(seqs[i], depth, 0, PRESS, 0) {
            None => None,
            Some(c) => if i + 1 >= seqs.len() {
                Some(c)
            } else {
                match least_cost(seqs, depth, i + 1) {
                    None => None,
                    Some(d) => Some(
                        if c <= d {
                            c
                        } else {
                            d
                        },
                    ),
                }
            },
        }
    } else {
        None
    }
}

/// The least number of keys to press at the far end of a chain of `depth`
/// keypads so that the keys of `code`, from the `i`-th on, are pressed at the
/// near end, the arm standing on `prev`; added to `acc`.
pub open spec fn press_cost(code: Seq<u8>, depth: nat, i: int, prev: u8, acc: nat) -> Option<nat>
    decreases depth, 2int, code.len() - i,
{
    if depth == 0 {
        Some(code.len())
    } else if 0 <= i < code.len() {
        match move_cost(prev, code[i], depth) {
            None => None,
            Some(c) => if acc + c > usize::MAX {
                None
            } else {
                press_cost(code, depth, i + 1, code[i], acc + c)
            },
        }
    } else {
        Some(acc)
    }
}

/// `code` without its `A`s, from the `i`-th byte on.
pub open spec fn digits_of(code: Seq<u8>, i: int) -> Seq<u8>
    decreases code.len() - i,
{
    if 0 <= i < code.len() {
        (if code[i] != PRESS {
            seq![code[i]]
        } else {
            seq![]
        }) + digits_of(code, i + 1)
    } else {
        seq![]
    }
}

/// The sum, over the codes from the `i`-th on, of the number in the code
/// times the number of keys to press through two keypads of arrows and one of
/// digits, in 32 bits; added to `acc`. A code without a number counts 0. Of
/// the number of keys only the low 32 bits count.
pub open spec fn total_one(codes: Seq<Seq<u8>>, i: int, acc: u32) -> Option<u32>
    decreases codes.len() - i,
{
    if 0 <= i < codes.len() {
        let number = match as_u32(digits_of(codes[i], 0)) {
            Some(n) => n,
            None => 0u32,
        };
        match press_cost(codes[i], 3, 0, PRESS, 0) {
            None => None,
            Some(len) => {
                let term = number * ((len as usize) as u32);
                if term > u32::MAX || acc + term > u32::MAX {
                    None
                } else {
                    total_one(codes, i + 1, (acc + term) as u32)
                }
            },
        }
    } else {
        Some(acc)
    }
}

/// The same through 25 keypads of arrows and one of digits, in 64 bits.
pub open spec fn total_two(codes: Seq<Seq<u8>>, i: int, acc: u64) -> Option<u64>
    decreases codes.len() - i,
{
    if 0 <= i < codes.len() {
        let number = match as_u64(digits_of(codes[i], 0)) {
            Some(n) => n,
            None => 0u64,
        };
        match press_cost(codes[i], 26, 0, PRESS, 0) {
            None => None,
            Some(len) => {
                let term = number * len;
                if term > u64::MAX || acc + term > u64::MAX {
                    None
                } else {
                    total_two(codes, i + 1, (acc + term) as u64)
                }
            },
        }
    } else {
        Some(acc)
    }
}

fn numeric_position(key: u8) -> (out: Option<(usize, usize)>)
    ensures
        match numeric_place(key) {
            Some(p) => out == Some((p.0 as usize, p.1 as usize)) && 0 <= p.0 < 4 && 0 <= p.1 < 3,
            None => out is None,
        },
{
    if key == 55 {
        Some((0, 0))
    } else if key == 56 {
        Some((0, 1))
    } else if key == 57 {
        Some((0, 2))
    } else if key == 52 {
        Some((1, 0))
    } else if key == 53 {
        Some((1, 1))
    } else if key == 54 {
        Some((1, 2))
    } else if key == 49 {
        Some((2, 0))
    } else if key == 50 {
        Some((2, 1))
    } else if key == 51 {
        Some((2, 2))
    } else if key == 48 {
        Some((3, 1))
    } else if key == PRESS {
        Some((3, 2))
    } else {
        None
    }
}

fn arrow_position(key: u8) -> (out: Option<(usize, usize)>)
    ensures
        match arrow_place(key) {
            Some(p) => out == Some((p.0 as usize, p.1 as usize)) && 0 <= p.0 < 2 && 0 <= p.1 < 3,
            None => out is None,
        },
{
    if key == UP {
        Some((0, 1))
    } else if key == PRESS {
        Some((0, 2))
    } else if key == LEFT {
        Some((1, 0))
    } else if key == DOWN {
        Some((1, 1))
    } else if key == RIGHT {
        Some((1, 2))
    } else {
        None
    }
}

#[verifier::loop_isolation(false)]
fn push_repeated(out: &mut Vec<u8>, key: u8, n: usize)
    ensures
        final(out)@ == old(out)@ + repeated(key, n as int),
{
    let mut i: usize = 0;
    assert(out@ =~= old(out)@ + repeated(key, 0));
    while i < n
        invariant
            0 <= i <= n,
            out@ == old(out)@ + repeated(key, i as int),
        decreases n - i,
    {
        out.push(key);
        i += 1;
        assert(out@ =~= old(out)@ + repeated(key, i as int));
    }
}

/// Puts the ways to go from the place `from` to the place `to` and press
/// behind `out`.
pub fn combinations_to_string(
    from: (usize, usize),
    to: (usize, usize),
    hole: (usize, usize),
    out: &mut Vec<Vec<u8>>,
)
    ensures
        views(final(out)@) == views(old(out)@) + ways(
            (from.0 as int, from.1 as int),
            (to.0 as int, to.1 as int),
            (hole.0 as int, hole.1 as int),
        ),
{
    let r_repeats = if from.0 < to.0 {
        to.0 - from.0
    } else {
        from.0 - to.0
    };
    let c_repeats = if from.1 < to.1 {
        to.1 - from.1
    } else {
        from.1 - to.1
    };
    let r_key = if from.0 < to.0 {
        DOWN
    } else {
        UP
    };
    let c_key = if from.1 < to.1 {
        RIGHT
    } else {
        LEFT
    };
    let ghost rows = repeated(r_key, r_repeats as int);
    let ghost cols = repeated(c_key, c_repeats as int);
    let ghost before = views(out@);
    if !(to.0 == hole.0 && from.1 == hole.1) {
        let mut sequence: Vec<u8> = Vec::new();
        push_repeated(&mut sequence, r_key, r_repeats);
        push_repeated(&mut sequence, c_key, c_repeats);
        sequence.push(PRESS);
        assert(sequence@ =~= rows + cols + seq![PRESS]);
        out.push(sequence);
        assert(views(out@) =~= before + seq![rows + cols + seq![PRESS]]);
    } else {
        assert(views(out@) =~= before + Seq::<Seq<u8>>::empty());
    }
    let ghost mid = views(out@);
    if !(from.0 == hole.0 && to.1 == hole.1) {
        let mut sequence: Vec<u8> = Vec::new();
        push_repeated(&mut sequence, c_key, c_repeats);
        push_repeated(&mut sequence, r_key, r_repeats);
        sequence.push(PRESS);
        assert(sequence@ =~= cols + rows + seq![PRESS]);
        out.push(sequence);
        assert(views(out@) =~= mid + seq![cols + rows + seq![PRESS]]);
    } else {
        assert(views(out@) =~= mid + Seq::<Seq<u8>>::empty());
    }
    assert(views(out@) =~= before + ways(
        (from.0 as int, from.1 as int),
        (to.0 as int, to.1 as int),
        (hole.0 as int, hole.1 as int),
    ));
}

/// Whether `list` holds the sequence `x`.
#[verifier::loop_isolation(false)]
fn holds(list: &Vec<Vec<u8>>, x: &Vec<u8>) -> (r: bool)
    ensures
        r == views(list@).contains(x@),
{
    let mut i: usize = 0;
    while i < list.len()
        invariant
            0 <= i <= list@.len(),
            forall|k: int| 0 <= k < i ==> views(list@)[k] != x@,
        decreases list@.len() - i,
    {
        if same_bytes(list[i].as_slice(), x.as_slice()) {
            assert(views(list@)[i as int] == x@);
            return true;
        }
        i += 1;
    }
    false
}

/// The ways to go from key `a` to key `b` and press it, each once.
#[verifier::loop_isolation(false)]
pub fn keypad_combinations(a: u8, b: u8) -> (out: Vec<Vec<u8>>)
    ensures
        views(out@) == sequences(a, b),
{
    let mut all: Vec<Vec<u8>> = Vec::new();
    assert(views(all@) =~= Seq::<Seq<u8>>::empty());
    match (arrow_position(a), arrow_position(b)) {
        (Some(p), Some(q)) => {
            combinations_to_string(p, q, (0, 0), &mut all);
        },
        _ => {},
    }
    let ghost first = views(all@);
    match (numeric_position(a), numeric_position(b)) {
        (Some(p), Some(q)) => {
            combinations_to_string(p, q, (3, 0), &mut all);
        },
        _ => {
            assert(views(all@) =~= first + Seq::<Seq<u8>>::empty());
        },
    }
    assert(views(all@) =~= all_ways(a, b));
    let mut out: Vec<Vec<u8>> = Vec::new();
    assert(views(out@) =~= Seq::<Seq<u8>>::empty());
    let mut i: usize = 0;
    while i < all.len()
        invariant
            0 <= i <= all@.len(),
            views(all@) == all_ways(a, b),
            once(all_ways(a, b), i as int, views(out@)) == sequences(a, b),
        decreases all@.len() - i,
    {
        let ghost before = views(out@);
        if !holds(&out, &all[i]) {
            out.push(all[i].clone());
            assert(views(out@) =~= before.push(views(all@)[i as int]));
        }
        i += 1;
    }
    out
}

/// No way stands twice among the ways from key to key, and each of all the
/// ways stands among them.
pub proof fn lemma_sequences_once(a: u8, b: u8)
    ensures
        sequences(a, b).no_duplicates(),
        forall|x: Seq<u8>| sequences(a, b).contains(x) <==> all_ways(a, b).contains(x),
{
    lemma_once(all_ways(a, b), 0, seq![]);
    assert forall|x: Seq<u8>| sequences(a, b).contains(x) <==> all_ways(a, b).contains(x) by {
        if all_ways(a, b).contains(x) {
            let j = choose|j: int| 0 <= j < all_ways(a, b).len() && all_ways(a, b)[j] == x;
            assert(sequences(a, b).contains(all_ways(a, b)[j]));
        }
        if sequences(a, b).contains(x) {
            assert(once(all_ways(a, b), 0, seq![]).contains(x));
            assert(!Seq::<Seq<u8>>::empty().contains(x));
            let j = choose|j: int| 0 <= j < all_ways(a, b).len() && all_ways(a, b)[j] == x;
            assert(all_ways(a, b)[j] == x);
        }
    }
}

proof fn lemma_once(s: Seq<Seq<u8>>, i: int, acc: Seq<Seq<u8>>)
    requires
        0 <= i <= s.len(),
        acc.no_duplicates(),
    ensures
        once(s, i, acc).no_duplicates(),
        forall|x: Seq<u8>| acc.contains(x) ==> once(s, i, acc).contains(x),
        forall|j: int| i <= j < s.len() ==> once(s, i, acc).contains(#[trigger] s[j]),
        forall|x: Seq<u8>|
            once(s, i, acc).contains(x) ==> acc.contains(x) || exists|j: int|
                i <= j < s.len() && s[j] == x,
    decreases s.len() - i,
{
    if i < s.len() {
        let next = if acc.contains(s[i]) {
            acc
        } else {
            acc.push(s[i])
        };
        if !acc.contains(s[i]) {
            assert(next[acc.len() as int] == s[i]);
            assert forall|x: Seq<u8>| acc.contains(x) implies next.contains(x) by {
                let k = choose|k: int| 0 <= k < acc.len() && acc[k] == x;
                assert(next[k] == x);
            }
        }
        assert(next.contains(s[i]));
        lemma_once(s, i + 1, next);
        assert forall|x: Seq<u8>| once(s, i, acc).contains(x) implies acc.contains(x) || exists|
            j: int,
        |
            i <= j < s.len() && s[j] == x by {
            if next.contains(x) && !acc.contains(x) {
                let k = choose|k: int| 0 <= k < next.len() && next[k] == x;
                assert(k == acc.len());
                assert(s[i] == x);
            }
        }
    }
}

/// The place in the table of costs of the move from key `a` to key `b`
/// through `depth` keypads.
pub open spec fn slot(a: u8, b: u8, depth: int) -> u128 {
    ((depth * 256 + a) * 256 + b) as u128
}

/// Every cost that the table holds is the least cost of that move at that depth.
pub open spec fn memo_ok(memo: Map<u128, usize>) -> bool {
    forall|a: u8, b: u8, d: nat|
        d <= u64::MAX && memo.contains_key(slot(a, b, d as int)) ==> (#[trigger] move_cost(a, b, d))
            == Some(memo[slot(a, b, d as int)] as nat)
}

/// The least number of keys to press through `recurse` keypads of arrows so
/// that the arm at the near end goes from `a` to `b` and presses.
#[verifier::loop_isolation(false)]
fn cost_of_move(memo: &mut HashMap<u128, usize>, a: u8, b: u8, recurse: usize) -> (out: Option<
    usize,
>)
    requires
        memo_ok(old(memo)@),
        1 <= recurse,
    ensures
        memo_ok(final(memo)@),
        match move_cost(a, b, recurse as nat) {
            Some(c) => out == Some(c as usize) && c <= usize::MAX,
            None => out is None,
        },
    decreases recurse, 1int, 0int,
{
    let key: u128 = ((recurse as u128) * 256 + a as u128) * 256 + b as u128;
    assert(key == slot(a, b, recurse as int));
    match memo.get(&key) {
        Some(v) => {
            assert(memo@.contains_key(key));
            assert(move_cost(a, b, recurse as nat) == Some(memo@[key] as nat));
            return Some(*v);
        },
        None => {},
    }
    let seqs = keypad_combinations(a, b);
    assert(views(seqs@).len() == seqs@.len());
    if seqs.len() == 0 {
        return None;
    }
    let ghost goal = least_cost(views(seqs@), (recurse - 1) as nat, 0);
    let mut best: usize = 0;
    let mut i: usize = seqs.len();
    while i > 0
        invariant
            0 <= i <= seqs@.len(),
            memo_ok(memo@),
            views(seqs@) == sequences(a, b),
            i < seqs@.len() ==> least_cost(views(seqs@), (recurse - 1) as nat, i as int) == Some(
                best as nat,
            ),
        decreases recurse, 0int, i,
    {
        i -= 1;
        assert(views(seqs@)[i as int] == seqs@[i as int]@);
        let c = match recursive_keypad(memo, &seqs[i], recurse - 1) {
            Some(c) => c,
            None => {
                proof {
                    lemma_least_cost_none(views(seqs@), (recurse - 1) as nat, 0, i as int);
                }
                return None;
            },
        };
        if i + 1 >= seqs.len() || c <= best {
            best = c;
        }
    }
    let ghost before = memo@;
    memo.insert(key, best);
    assert forall|a2: u8, b2: u8, d: nat|
        d <= u64::MAX && memo@.contains_key(slot(a2, b2, d as int)) implies (#[trigger] move_cost(
        a2,
        b2,
        d,
    )) == Some(memo@[slot(a2, b2, d as int)] as nat) by {
        if slot(a2, b2, d as int) != key {
            assert(before.contains_key(slot(a2, b2, d as int)));
        } else {
            assert(a2 == a && b2 == b && d == recurse);
        }
    }
    Some(best)
}

proof fn lemma_least_cost_none(seqs: Seq<Seq<u8>>, depth: nat, from: int, i: int)
    requires
        0 <= from <= i < seqs.len(),
        press_cost(seqs[i], depth, 0, PRESS, 0) is None,
    ensures
        least_cost(seqs, depth, from) is None,
    decreases i - from,
{
    if from < i {
        lemma_least_cost_none(seqs, depth, from + 1, i);
    }
}

/// The least number of keys to press through `recurse` keypads of arrows so
/// that the keys of `code` are pressed at the near end. `memo` is the table
/// of the costs of single moves found so far: what it holds is not worked
/// out again, and what is worked out goes into it.
#[verifier::loop_isolation(false)]
pub fn recursive_keypad(memo: &mut HashMap<u128, usize>, code: &Vec<u8>, recurse: usize) -> (out:
    Option<usize>)
    requires
        memo_ok(old(memo)@),
    ensures
        memo_ok(final(memo)@),
        match press_cost(code@, recurse as nat, 0, PRESS, 0) {
            Some(c) => out == Some(c as usize) && c <= usize::MAX,
            None => out is None,
        },
    decreases recurse, 2int, 0int,
{
    if recurse == 0 {
        return Some(code.len());
    }
    let ghost goal = press_cost(code@, recurse as nat, 0, PRESS, 0);
    let mut previous_key = PRESS;
    let mut result: usize = 0;
    let mut i: usize = 0;
    while i < code.len()
        invariant
            0 <= i <= code@.len(),
            memo_ok(memo@),
            recurse >= 1,
            press_cost(code@, recurse as nat, i as int, previous_key, result as nat) == goal,
        decreases recurse, 1int, code@.len() - i,
    {
        let current_key = code[i];
        let c = match cost_of_move(memo, previous_key, current_key, recurse) {
            Some(c) => c,
            None => {
                return None;
            },
        };
        result = match result.checked_add(c) {
            Some(r) => r,
            None => {
                return None;
            },
        };
        previous_key = current_key;
        i += 1;
    }
    Some(result)
}

#[verifier::loop_isolation(false)]
fn strip_press(code: &Vec<u8>) -> (out: Vec<u8>)
    ensures
        out@ == digits_of(code@, 0),
{
    let mut out: Vec<u8> = Vec::new();
    let mut i: usize = 0;
    while i < code.len()
        invariant
            0 <= i <= code@.len(),
            out@ + digits_of(code@, i as int) == digits_of(code@, 0),
        decreases code@.len() - i,
    {
        let ghost before = out@;
        let ghost rest = digits_of(code@, i + 1);
        if code[i] != PRESS {
            out.push(code[i]);
            assert(out@ + rest =~= before + (seq![code@[i as int]] + rest));
        } else {
            assert(out@ + rest =~= before + (Seq::<u8>::empty() + rest));
        }
        i += 1;
    }
    assert(out@ + Seq::<u8>::empty() =~= out@);
    out
}

/// The sum of the complexities of the codes, with two robots at keypads of arrows.
#[verifier::loop_isolation(false)]
pub fn part_one(input: &str) -> (out: Option<u32>)
    ensures
        out == total_one(lines_of(input.spec_bytes()), 0, 0),
{
    let codes = lines(input.as_bytes());
    let ghost all = views(codes@);
    let mut memo: HashMap<u128, usize> = HashMap::new();
    let mut result: u32 = 0;
    let mut i: usize = 0;
    while i < codes.len()
        invariant
            0 <= i <= codes@.len(),
            memo_ok(memo@),
            total_one(all, i as int, result) == total_one(all, 0, 0),
        decreases codes@.len() - i,
    {
        assert(all[i as int] == codes@[i as int]@);
        let digits = strip_press(&codes[i]);
        let number: u32 = match parse_u32(digits.as_slice()) {
            Some(n) => n,
            None => 0,
        };
        let len = match recursive_keypad(&mut memo, &codes[i], 3) {
            Some(l) => l,
            None => {
                return None;
            },
        };
        let short = #[verifier::truncate]
        (len as u32);
        let term = match number.checked_mul(short) {
            Some(t) => t,
            None => {
                return None;
            },
        };
        result = match result.checked_add(term) {
            Some(r) => r,
            None => {
                return None;
            },
        };
        i += 1;
    }
    Some(result)
}

/// The sum of the complexities of the codes, with 25 robots at keypads of arrows.
#[verifier::loop_isolation(false)]
pub fn part_two(input: &str) -> (out: Option<u64>)
    ensures
        out == total_two(lines_of(input.spec_bytes()), 0, 0),
{
    let codes = lines(input.as_bytes());
    let ghost all = views(codes@);
    let mut memo: HashMap<u128, usize> = HashMap::new();
    let mut result: u64 = 0;
    let mut i: usize = 0;
    while i < codes.len()
        invariant
            0 <= i <= codes@.len(),
            memo_ok(memo@),
            total_two(all, i as int, result) == total_two(all, 0, 0),
        decreases codes@.len() - i,
    {
        assert(all[i as int] == codes@[i as int]@);
        let digits = strip_press(&codes[i]);
        let number: u64 = match parse_u64(digits.as_slice()) {
            Some(n) => n,
            None => 0,
        };
        let len = match recursive_keypad(&mut memo, &codes[i], 26) {
            Some(l) => l,
            None => {
                return None;
            },
        };
        let term = match number.checked_mul(len as u64) {
            Some(t) => t,
            None => {
                return None;
            },
        };
        result = match result.checked_add(term) {
            Some(r) => r,
            None => {
                return None;
            },
        };
        i += 1;
    }
    Some(result)
}

/// Every way from one key to another has as many keys as the two keys are
/// rows and columns apart, and one more to press.
pub proof fn lemma_ways_length(from: (int, int), to: (int, int), hole: (int, int), i: int)
    requires
        0 <= i < ways(from, to, hole).len(),
    ensures
        ways(from, to, hole)[i].len() == gap(from.0, to.0) + gap(from.1, to.1) + 1,
        ways(from, to, hole)[i].last() == PRESS,
{
}

} // verus!
