//! Equations with their operators missing: a test value, then the numbers
//! that shall give it, taken from left to right with an operator between each
//! two. The answer is the sum of the test values that can be made: with
//! addition and multiplication in the first part, also with the joining of
//! the digits in the second.
//!
//! Of two equations with one test value the later one stands. A result on
//! the way that is greater than the test value is dropped.
use std::collections::HashSet;
use vstd::prelude::*;
use vstd::string::StringSliceAdditionalSpecFns;
use crate::text::{
    views, lines_of, lines, split_seq, split, words_of, words, trimmed, trim, as_u64, parse_u64,
    decimal_digits, format_u128,
};

verus! {

broadcast use vstd::std_specs::hash::group_hash_axioms;

/// An equation: the value to make and the numbers to make it from.
pub struct Equation {
    pub test_value: u64,
    pub numbers: Vec<u64>,
}

/// An equation as the contracts see it.
pub struct EquationView {
    pub test_value: u64,
    pub numbers: Seq<u64>,
}

impl View for Equation {
    type V = EquationView;

    open spec fn view(&self) -> EquationView {
        EquationView { test_value: self.test_value, numbers: self.numbers@ }
    }
}

/// The views of the equations.
pub open spec fn equation_views(v: Seq<Equation>) -> Seq<EquationView> {
    Seq::new(v.len(), |i: int| v[i]@)
}

/// The words, from the `i`-th on, that are numbers.
pub open spec fn numbers_in(parts: Seq<Seq<u8>>, i: int) -> Seq<u64>
    decreases parts.len() - i,
{
    if 0 <= i < parts.len() {
        (match as_u64(parts[i]) {
            Some(n) => seq![n],
            None => seq![],
        }) + numbers_in(parts, i + 1)
    } else {
        seq![]
    }
}

/// The equation of a line: a test value, 0 where it is no number, a colon,
/// and numbers. `None` where the line has no colon.
pub open spec fn equation_of(line: Seq<u8>) -> Option<EquationView> {
    let parts = split_seq(line, seq![58u8]);
    if parts.len() < 2 {
        None
    } else {
        Some(
            EquationView {
                test_value: match as_u64(trimmed(parts[0])) {
                    Some(v) => v,
                    None => 0,
                },
                numbers: numbers_in(words_of(parts[1]), 0),
            },
        )
    }
}

/// The index of the first equation, from the `i`-th on, with this test
/// value, or the number of equations.
pub open spec fn index_of(table: Seq<EquationView>, value: u64, i: int) -> int
    decreases table.len() - i,
{
    if 0 <= i < table.len() {
        if table[i].test_value == value {
            i
        } else {
            index_of(table, value, i + 1)
        }
    } else {
        table.len() as int
    }
}

/// The table with one more equation, in the place of the one with the same
/// test value if there is one.
pub open spec fn with_equation(table: Seq<EquationView>, e: EquationView) -> Seq<EquationView> {
    let p = index_of(table, e.test_value, 0);
    if 0 <= p < table.len() {
        table.update(p, e)
    } else {
        table.push(e)
    }
}

/// The table of the equations of the lines from the `i`-th on.
pub open spec fn table_of(ls: Seq<Seq<u8>>, i: int, table: Seq<EquationView>) -> Option<
    Seq<EquationView>,
>
    decreases ls.len() - i,
{
    if 0 <= i < ls.len() {
        match equation_of(ls[i]) {
            None => None,
            Some(e) => table_of(ls, i + 1, with_equation(table, e)),
        }
    } else {
        Some(table)
    }
}

/// The results with one more, unless it is among them or greater than `limit`.
pub open spec fn kept(set: Seq<u64>, v: u64, limit: u64) -> Seq<u64> {
    if v <= limit && !set.contains(v) {
        set.push(v)
    } else {
        set
    }
}

/// 10 to the power of `d`.
pub open spec fn pow10(d: nat) -> nat
    decreases d,
{
    if d == 0 {
        1
    } else {
        10 * pow10((d - 1) as nat)
    }
}

/// The results of `set`, from the `i`-th on, each taken together with
/// `num` by every operator; put to `acc`. `None` where a sum, a product or,
/// with `joining`, a joining does not fit in 64 bits.
pub open spec fn combined(
    set: Seq<u64>,
    num: u64,
    limit: u64,
    joining: bool,
    i: int,
    acc: Seq<u64>,
) -> Option<Seq<u64>>
    decreases set.len() - i,
{
    if 0 <= i < set.len() {
        let res = set[i];
        let shift = pow10(decimal_digits(num as nat).len());
        if res + num > u64::MAX || res * num > u64::MAX {
            None
        } else if joining && (shift > u64::MAX || res * shift > u64::MAX || res * shift + num
            > u64::MAX) {
            None
        } else {
            let with_sum = kept(acc, (res + num) as u64, limit);
            let with_product = kept(with_sum, (res * num) as u64, limit);
            combined(
                set,
                num,
                limit,
                joining,
                i + 1,
                if joining {
                    kept(with_product, (res * shift + num) as u64, limit)
                } else {
                    with_product
                },
            )
        }
    } else {
        Some(acc)
    }
}

/// The results that the numbers up to the `k`-th give, from those up to the
/// one before.
pub open spec fn results(numbers: Seq<u64>, limit: u64, joining: bool, k: int, set: Seq<u64>)
    -> Option<Seq<u64>>
    decreases numbers.len() - k,
{
    if 1 <= k < numbers.len() {
        match combined(set, numbers[k], limit, joining, 0, seq![]) {
            None => None,
            Some(next) => results(numbers, limit, joining, k + 1, next),
        }
    } else {
        Some(set)
    }
}

/// Whether the equation can be made. `None` where it has no numbers.
pub open spec fn solvable(e: EquationView, joining: bool) -> Option<bool> {
    if e.numbers.len() == 0 {
        None
    } else {
        match results(e.numbers, e.test_value, joining, 1, seq![e.numbers[0]]) {
            None => None,
            Some(set) => Some(set.contains(e.test_value)),
        }
    }
}

/// The sum of the test values of the equations from the `i`-th on that can
/// be made, added to `acc`.
pub open spec fn calibration(table: Seq<EquationView>, joining: bool, i: int, acc: u64) -> Option<
    u64,
>
    decreases table.len() - i,
{
    if 0 <= i < table.len() {
        match solvable(table[i], joining) {
            None => None,
            Some(s) => if s {
                if acc + table[i].test_value > u64::MAX {
                    None
                } else {
                    calibration(table, joining, i + 1, (acc + table[i].test_value) as u64)
                }
            } else {
                calibration(table, joining, i + 1, acc)
            },
        }
    } else {
        Some(acc)
    }
}

/// The answer for the text `s`.
pub open spec fn answer(s: Seq<u8>, joining: bool) -> Option<u64> {
    match table_of(lines_of(s), 0, seq![]) {
        None => None,
        Some(table) => calibration(table, joining, 0, 0),
    }
}

#[verifier::loop_isolation(false)]
fn parse_equation(line: &Vec<u8>) -> (out: Option<Equation>)
    ensures
        match equation_of(line@) {
            Some(e) => out is Some && out->0@ == e,
            None => out is None,
        },
{
    let colon: Vec<u8> = vec![58u8];
    assert(colon@ =~= seq![58u8]);
    let parts = split(line.as_slice(), colon.as_slice());
    assert(views(parts@).len() == parts@.len());
    if parts.len() < 2 {
        return None;
    }
    assert(views(parts@)[0] == parts@[0]@);
    assert(views(parts@)[1] == parts@[1]@);
    let ws = words(parts[1].as_slice());
    let ghost all = views(ws@);
    let mut numbers: Vec<u64> = Vec::new();
    let mut i: usize = 0;
    while i < ws.len()
        invariant
            0 <= i <= ws@.len(),
            numbers@ + numbers_in(all, i as int) == numbers_in(all, 0),
        decreases ws@.len() - i,
    {
        assert(all[i as int] == ws@[i as int]@);
        let ghost before = numbers@;
        let ghost rest = numbers_in(all, i + 1);
        match parse_u64(ws[i].as_slice()) {
            Some(n) => {
                numbers.push(n);
                assert(numbers@ + rest =~= before + (seq![n] + rest));
            },
            None => {
                assert(numbers@ + rest =~= before + (Seq::<u64>::empty() + rest));
            },
        }
        i += 1;
    }
    assert(numbers@ + Seq::<u64>::empty() =~= numbers@);
    let t = trim(parts[0].as_slice());
    let test_value = match parse_u64(t.as_slice()) {
        Some(v) => v,
        None => 0,
    };
    Some(Equation { test_value, numbers })
}

#[verifier::loop_isolation(false)]
fn insert_equation(table: &mut Vec<Equation>, e: Equation)
    ensures
        equation_views(final(table)@) == with_equation(equation_views(old(table)@), e@),
{
    let ghost t = equation_views(table@);
    let mut i: usize = 0;
    while i < table.len()
        invariant
            0 <= i <= table@.len(),
            t == equation_views(table@),
            *table == *old(table),
            index_of(t, e.test_value, i as int) == index_of(t, e.test_value, 0),
        decreases table@.len() - i,
    {
        assert(t[i as int] == table@[i as int]@);
        if table[i].test_value == e.test_value {
            let ghost ev = e@;
            table.set(i, e);
            assert(equation_views(table@) =~= t.update(i as int, ev));
            return ;
        }
        i += 1;
    }
    let ghost ev = e@;
    table.push(e);
    assert(equation_views(table@) =~= t.push(ev));
}

#[verifier::loop_isolation(false)]
fn has_value(set: &Vec<u64>, v: u64) -> (r: bool)
    ensures
        r == set@.contains(v),
{
    let mut i: usize = 0;
    while i < set.len()
        invariant
            0 <= i <= set@.len(),
            forall|k: int| 0 <= k < i ==> set@[k] != v,
        decreases set@.len() - i,
    {
        if set[i] == v {
            return true;
        }
        i += 1;
    }
    false
}

/// Puts one more result to the results, unless it is among them or greater
/// than `limit`. `index` holds the results for looking them up.
fn keep(set: &mut Vec<u64>, index: &mut HashSet<u64>, v: u64, limit: u64)
    requires
        old(index)@ == old(set)@.to_set(),
    ensures
        final(set)@ == kept(old(set)@, v, limit),
        final(index)@ == final(set)@.to_set(),
{
    if v <= limit && !index.contains(&v) {
        proof {
            assert forall|y: u64| set@.push(v).contains(y) <==> (set@.contains(y) || y == v) by {
                vstd::seq_lib::lemma_seq_contains_after_push(set@, v, y);
            }
            assert(set@.push(v).to_set() =~= set@.to_set().insert(v));
        }
        set.push(v);
        index.insert(v);
    }
}

proof fn lemma_pow10_grows(j: nat, k: nat)
    requires
        j <= k,
    ensures
        1 <= pow10(j) <= pow10(k),
    decreases k,
{
    if k > 0 {
        if j < k {
            lemma_pow10_grows(j, (k - 1) as nat);
        } else {
            lemma_pow10_grows((j - 1) as nat, (k - 1) as nat);
        }
    }
}

/// The number of decimal digits of `n`.
pub fn digits_count(n: u64) -> (out: usize)
    ensures
        out == decimal_digits(n as nat).len(),
{
    format_u128(n as u128).len()
}

/// 10 to the power of `d`, if it fits in 64 bits.
#[verifier::loop_isolation(false)]
pub fn power_of_ten(d: usize) -> (out: Option<u64>)
    ensures
        out == if pow10(d as nat) <= u64::MAX {
            Some(pow10(d as nat) as u64)
        } else {
            None
        },
{
    let mut p: u64 = 1;
    let mut i: usize = 0;
    while i < d
        invariant
            0 <= i <= d,
            p == pow10(i as nat),
        decreases d - i,
    {
        p = match p.checked_mul(10) {
            Some(q) => q,
            None => {
                proof {
                    lemma_pow10_grows((i + 1) as nat, d as nat);
                }
                return None;
            },
        };
        i += 1;
    }
    Some(p)
}

#[verifier::loop_isolation(false)]
fn combine(set: &Vec<u64>, num: u64, limit: u64, joining: bool) -> (out: Option<Vec<u64>>)
    ensures
        match combined(set@, num, limit, joining, 0, seq![]) {
            Some(s) => out is Some && out->0@ == s,
            None => out is None,
        },
{
    let shift = if joining {
        power_of_ten(digits_count(num))
    } else {
        None
    };
    let ghost goal = combined(set@, num, limit, joining, 0, seq![]);
    let mut new_set: Vec<u64> = Vec::new();
    let mut index: HashSet<u64> = HashSet::new();
    assert(new_set@.to_set() =~= Set::<u64>::empty());
    let mut i: usize = 0;
    while i < set.len()
        invariant
            0 <= i <= set@.len(),
            index@ == new_set@.to_set(),
            combined(set@, num, limit, joining, i as int, new_set@) == goal,
        decreases set@.len() - i,
    {
        let res = set[i];
        let sum = match res.checked_add(num) {
            Some(s) => s,
            None => {
                return None;
            },
        };
        let prod = match res.checked_mul(num) {
            Some(p) => p,
            None => {
                return None;
            },
        };
        if joining {
            let conc = match shift {
                Some(sh) => match res.checked_mul(sh) {
                    Some(m) => match m.checked_add(num) {
                        Some(c) => c,
                        None => {
                            return None;
                        },
                    },
                    None => {
                        return None;
                    },
                },
                None => {
                    return None;
                },
            };
            keep(&mut new_set, &mut index, sum, limit);
            keep(&mut new_set, &mut index, prod, limit);
            keep(&mut new_set, &mut index, conc, limit);
        } else {
            keep(&mut new_set, &mut index, sum, limit);
            keep(&mut new_set, &mut index, prod, limit);
        }
        i += 1;
    }
    Some(new_set)
}

/// Whether the equation can be made.
#[verifier::loop_isolation(false)]
pub fn can_be_made(e: &Equation, joining: bool) -> (out: Option<bool>)
    ensures
        out == solvable(e@, joining),
{
    if e.numbers.len() == 0 {
        return None;
    }
    let mut set: Vec<u64> = Vec::new();
    set.push(e.numbers[0]);
    assert(set@ =~= seq![e.numbers@[0]]);
    let ghost goal = results(e.numbers@, e.test_value, joining, 1, set@);
    let mut k: usize = 1;
    while k < e.numbers.len()
        invariant
            1 <= k <= e.numbers@.len(),
            results(e.numbers@, e.test_value, joining, k as int, set@) == goal,
        decreases e.numbers@.len() - k,
    {
        set = match combine(&set, e.numbers[k], e.test_value, joining) {
            Some(s) => s,
            None => {
                return None;
            },
        };
        k += 1;
    }
    Some(has_value(&set, e.test_value))
}

#[verifier::loop_isolation(false)]
fn calibrate(input: &[u8], joining: bool) -> (out: Option<u64>)
    ensures
        out == answer(input@, joining),
{
    let ls = lines(input);
    let ghost all = views(ls@);
    let mut equations: Vec<Equation> = Vec::new();
    assert(equation_views(equations@) =~= Seq::<EquationView>::empty());
    let ghost table_goal = table_of(all, 0, seq![]);
    let mut i: usize = 0;
    while i < ls.len()
        invariant
            0 <= i <= ls@.len(),
            table_of(all, i as int, equation_views(equations@)) == table_goal,
        decreases ls@.len() - i,
    {
        assert(all[i as int] == ls@[i as int]@);
        match parse_equation(&ls[i]) {
            None => {
                return None;
            },
            Some(e) => {
                insert_equation(&mut equations, e);
            },
        }
        i += 1;
    }
    let ghost table = equation_views(equations@);
    let mut valid_sum: u64 = 0;
    let mut k: usize = 0;
    while k < equations.len()
        invariant
            0 <= k <= equations@.len(),
            calibration(table, joining, k as int, valid_sum) == calibration(table, joining, 0, 0),
        decreases equations@.len() - k,
    {
        assert(table[k as int] == equations@[k as int]@);
        match can_be_made(&equations[k], joining) {
            None => {
                return None;
            },
            Some(s) => {
                if s {
                    valid_sum = match valid_sum.checked_add(equations[k].test_value) {
                        Some(v) => v,
                        None => {
                            return None;
                        },
                    };
                }
            },
        }
        k += 1;
    }
    Some(valid_sum)
}

/// The sum of the test values that addition and multiplication can make.
pub fn part_one(input: &str) -> (out: Option<u64>)
    ensures
        out == answer(input.spec_bytes(), false),
{
    calibrate(input.as_bytes(), false)
}

/// The sum of the test values that addition, multiplication and joining can make.
pub fn part_two(input: &str) -> (out: Option<u64>)
    ensures
        out == answer(input.spec_bytes(), true),
{
    calibrate(input.as_bytes(), true)
}

/// What an operator makes of the result so far and the next number: 0 adds,
/// 1 multiplies, 2 joins the digits.
pub open spec fn applied(op: int, res: int, num: u64) -> int {
    if op == 0 {
        res + num
    } else if op == 1 {
        res * num
    } else {
        res * pow10(decimal_digits(num as nat).len()) + num
    }
}

/// The value of the numbers up to the `k`-th, taken from left to right with
/// the operators between them.
pub open spec fn value_of(numbers: Seq<u64>, ops: Seq<int>, k: int) -> int
    decreases k,
{
    if k <= 0 {
        numbers[0] as int
    } else {
        applied(ops[k - 1], value_of(numbers, ops, k - 1), numbers[k])
    }
}

/// Every operator of the list is one that may be used.
pub open spec fn allowed(ops: Seq<int>, joining: bool) -> bool {
    forall|i: int| 0 <= i < ops.len() ==> 0 <= #[trigger] ops[i] <= (if joining { 2int } else { 1int })
}

/// Some `k` operators make `v` of the numbers up to the `k`-th.
pub open spec fn made(numbers: Seq<u64>, joining: bool, k: int, v: u64) -> bool {
    exists|ops: Seq<int>|
        ops.len() == k && allowed(ops, joining) && #[trigger] value_of(numbers, ops, k) == v
}

/// Each value of the list is made of the numbers up to the `k`-th.
pub open spec fn all_made(numbers: Seq<u64>, joining: bool, k: int, set: Seq<u64>) -> bool {
    forall|i: int| 0 <= i < set.len() ==> made(numbers, joining, k, #[trigger] set[i])
}

proof fn lemma_value_prefix(numbers: Seq<u64>, ops: Seq<int>, op: int, k: int)
    requires
        0 <= k <= ops.len(),
    ensures
        value_of(numbers, ops.push(op), k) == value_of(numbers, ops, k),
    decreases k,
{
    if k > 0 {
        lemma_value_prefix(numbers, ops, op, k - 1);
        assert(ops.push(op)[k - 1] == ops[k - 1]);
    }
}

proof fn lemma_made_step(numbers: Seq<u64>, joining: bool, k: int, res: u64, op: int, v: u64)
    requires
        0 <= k,
        made(numbers, joining, k, res),
        0 <= op <= (if joining { 2int } else { 1int }),
        v == applied(op, res as int, numbers[k + 1]),
    ensures
        made(numbers, joining, k + 1, v),
{
    let ops = choose|ops: Seq<int>|
        ops.len() == k && allowed(ops, joining) && #[trigger] value_of(numbers, ops, k) == res;
    let more = ops.push(op);
    lemma_value_prefix(numbers, ops, op, k);
    assert(more[k] == op);
    assert(allowed(more, joining)) by {
        assert forall|i: int| 0 <= i < more.len() implies 0 <= #[trigger] more[i] <= (if joining {
            2int
        } else {
            1int
        }) by {
            if i < k {
                assert(more[i] == ops[i]);
            }
        }
    }
    assert(value_of(numbers, more, k + 1) == v);
}

proof fn lemma_kept_made(numbers: Seq<u64>, joining: bool, k: int, acc: Seq<u64>, v: u64, limit: u64)
    requires
        all_made(numbers, joining, k, acc),
        made(numbers, joining, k, v),
    ensures
        all_made(numbers, joining, k, kept(acc, v, limit)),
{
    let out = kept(acc, v, limit);
    assert forall|i: int| 0 <= i < out.len() implies made(numbers, joining, k, #[trigger] out[i]) by {
        if i < acc.len() {
            assert(out[i] == acc[i]);
        }
    }
}

proof fn lemma_combined_made(
    numbers: Seq<u64>,
    limit: u64,
    joining: bool,
    k: int,
    set: Seq<u64>,
    i: int,
    acc: Seq<u64>,
)
    requires
        0 <= k,
        0 <= i,
        all_made(numbers, joining, k, set),
        all_made(numbers, joining, k + 1, acc),
    ensures
        combined(set, numbers[k + 1], limit, joining, i, acc) matches Some(out) ==> all_made(
            numbers,
            joining,
            k + 1,
            out,
        ),
    decreases set.len() - i,
{
    let num = numbers[k + 1];
    if i < set.len() {
        let res = set[i];
        let shift = pow10(decimal_digits(num as nat).len());
        if res + num > u64::MAX || res * num > u64::MAX {
        } else if joining && (shift > u64::MAX || res * shift > u64::MAX || res * shift + num
            > u64::MAX) {
        } else {
            assert(made(numbers, joining, k, set[i]));
            let sum = (res + num) as u64;
            let product = (res * num) as u64;
            lemma_made_step(numbers, joining, k, res, 0, sum);
            lemma_made_step(numbers, joining, k, res, 1, product);
            let with_sum = kept(acc, sum, limit);
            lemma_kept_made(numbers, joining, k + 1, acc, sum, limit);
            let with_product = kept(with_sum, product, limit);
            lemma_kept_made(numbers, joining, k + 1, with_sum, product, limit);
            if joining {
                let joined = (res * shift + num) as u64;
                lemma_made_step(numbers, joining, k, res, 2, joined);
                lemma_kept_made(numbers, joining, k + 1, with_product, joined, limit);
                lemma_combined_made(
                    numbers,
                    limit,
                    joining,
                    k,
                    set,
                    i + 1,
                    kept(with_product, joined, limit),
                );
            } else {
                lemma_combined_made(numbers, limit, joining, k, set, i + 1, with_product);
            }
        }
    }
}

proof fn lemma_results_made(numbers: Seq<u64>, limit: u64, joining: bool, k: int, set: Seq<u64>)
    requires
        1 <= k,
        all_made(numbers, joining, k - 1, set),
    ensures
        results(numbers, limit, joining, k, set) matches Some(out) ==> all_made(
            numbers,
            joining,
            if k < numbers.len() {
                numbers.len() - 1
            } else {
                k - 1
            },
            out,
        ),
    decreases numbers.len() - k,
{
    if k < numbers.len() {
        lemma_combined_made(numbers, limit, joining, k - 1, set, 0, seq![]);
        match combined(set, numbers[k], limit, joining, 0, seq![]) {
            None => {},
            Some(next) => {
                lemma_results_made(numbers, limit, joining, k + 1, next);
            },
        }
    }
}

/// An equation that is found to be made has operators that make it: taken
/// from left to right with them, its numbers give the test value.
pub proof fn lemma_made_equation_has_operators(e: EquationView, joining: bool)
    requires
        solvable(e, joining) == Some(true),
    ensures
        exists|ops: Seq<int>|
            ops.len() == e.numbers.len() - 1 && allowed(ops, joining) && #[trigger] value_of(
                e.numbers,
                ops,
                e.numbers.len() - 1,
            ) == e.test_value,
{
    let first = seq![e.numbers[0]];
    assert(all_made(e.numbers, joining, 0, first)) by {
        let none = Seq::<int>::empty();
        assert(allowed(none, joining));
        assert(value_of(e.numbers, none, 0) == e.numbers[0]);
        assert(made(e.numbers, joining, 0, first[0]));
    }
    lemma_results_made(e.numbers, e.test_value, joining, 1, first);
    let out = results(e.numbers, e.test_value, joining, 1, first)->0;
    let i = choose|i: int| 0 <= i < out.len() && out[i] == e.test_value;
    assert(made(e.numbers, joining, e.numbers.len() - 1, out[i]));
}

proof fn lemma_kept_holds(acc: Seq<u64>, v: u64, limit: u64, x: u64)
    ensures
        acc.contains(x) ==> kept(acc, v, limit).contains(x),
        v <= limit ==> kept(acc, v, limit).contains(v),
{
    if v <= limit && !acc.contains(v) {
        assert(acc.push(v)[acc.len() as int] == v);
        if acc.contains(x) {
            let i = choose|i: int| 0 <= i < acc.len() && acc[i] == x;
            assert(acc.push(v)[i] == x);
        }
    }
}

proof fn lemma_combined_holds(
    set: Seq<u64>,
    num: u64,
    limit: u64,
    joining: bool,
    i: int,
    acc: Seq<u64>,
    j: int,
    op: int,
    x: u64,
)
    requires
        0 <= i,
        0 <= op <= (if joining { 2int } else { 1int }),
    ensures
        combined(set, num, limit, joining, i, acc) matches Some(out) ==> (acc.contains(x)
            ==> out.contains(x)) && (i <= j < set.len() && applied(op, set[j] as int, num) == x && x
            <= limit ==> out.contains(x)),
    decreases set.len() - i,
{
    if i < set.len() {
        let res = set[i];
        let shift = pow10(decimal_digits(num as nat).len());
        if res + num > u64::MAX || res * num > u64::MAX {
        } else if joining && (shift > u64::MAX || res * shift > u64::MAX || res * shift + num
            > u64::MAX) {
        } else {
            let sum = (res + num) as u64;
            let product = (res * num) as u64;
            let with_sum = kept(acc, sum, limit);
            let with_product = kept(with_sum, product, limit);
            lemma_kept_holds(acc, sum, limit, x);
            lemma_kept_holds(with_sum, product, limit, x);
            if joining {
                let joined = (res * shift + num) as u64;
                let with_joined = kept(with_product, joined, limit);
                lemma_kept_holds(with_product, joined, limit, x);
                lemma_combined_holds(set, num, limit, joining, i + 1, with_joined, j, op, x);
            } else {
                lemma_combined_holds(set, num, limit, joining, i + 1, with_product, j, op, x);
            }
        }
    }
}

proof fn lemma_applied_grows(op: int, res: int, num: u64)
    requires
        0 <= res,
        num >= 1,
    ensures
        applied(op, res, num) >= res,
{
    lemma_pow10_grows(0, decimal_digits(num as nat).len());
    let shift = pow10(decimal_digits(num as nat).len());
    assert(res * num >= res) by (nonlinear_arith)
        requires
            res >= 0,
            num >= 1,
    ;
    assert(res * shift >= res) by (nonlinear_arith)
        requires
            res >= 0,
            shift >= 1,
    ;
}

proof fn lemma_value_not_negative(numbers: Seq<u64>, ops: Seq<int>, k: int)
    requires
        0 <= k < numbers.len(),
        forall|j: int| 1 <= j < numbers.len() ==> #[trigger] numbers[j] >= 1,
    ensures
        0 <= value_of(numbers, ops, k),
    decreases k,
{
    if k > 0 {
        lemma_value_not_negative(numbers, ops, k - 1);
        lemma_applied_grows(ops[k - 1], value_of(numbers, ops, k - 1), numbers[k]);
    }
}

proof fn lemma_results_hold(
    numbers: Seq<u64>,
    limit: u64,
    joining: bool,
    k: int,
    set: Seq<u64>,
    ops: Seq<int>,
)
    requires
        1 <= k <= numbers.len(),
        ops.len() == numbers.len() - 1,
        allowed(ops, joining),
        forall|j: int| 1 <= j < numbers.len() ==> #[trigger] numbers[j] >= 1,
        value_of(numbers, ops, k - 1) <= limit ==> set.contains(value_of(numbers, ops, k - 1) as u64),
        value_of(numbers, ops, numbers.len() - 1) == limit,
    ensures
        results(numbers, limit, joining, k, set) matches Some(out) ==> out.contains(limit),
    decreases numbers.len() - k,
{
    if k < numbers.len() {
        match combined(set, numbers[k], limit, joining, 0, seq![]) {
            None => {},
            Some(next) => {
                let before = value_of(numbers, ops, k - 1);
                let after = value_of(numbers, ops, k);
                lemma_value_not_negative(numbers, ops, k - 1);
                lemma_applied_grows(ops[k - 1], before, numbers[k]);
                if after <= limit {
                    let j = choose|j: int| 0 <= j < set.len() && set[j] == before as u64;
                    lemma_combined_holds(
                        set,
                        numbers[k],
                        limit,
                        joining,
                        0,
                        seq![],
                        j,
                        ops[k - 1],
                        after as u64,
                    );
                }
                lemma_results_hold(numbers, limit, joining, k + 1, next, ops);
            },
        }
    }
}

/// Where no number but the first is 0, an equation that some operators make
/// is found to be made, unless a number on the way is too large for 64 bits.
pub proof fn lemma_operators_make_equation(e: EquationView, joining: bool, ops: Seq<int>)
    requires
        solvable(e, joining) is Some,
        forall|j: int| 1 <= j < e.numbers.len() ==> #[trigger] e.numbers[j] >= 1,
        ops.len() == e.numbers.len() - 1,
        allowed(ops, joining),
        value_of(e.numbers, ops, e.numbers.len() - 1) == e.test_value,
    ensures
        solvable(e, joining) == Some(true),
{
    let first = seq![e.numbers[0]];
    assert(first[0] == e.numbers[0]);
    lemma_results_hold(e.numbers, e.test_value, joining, 1, first, ops);
}

} // verus!
