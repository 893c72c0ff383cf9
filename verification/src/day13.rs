//! Claw machines: each has two buttons that move the claw by a fixed amount
//! and a prize at a fixed place. Pressing the first button costs three
//! tokens, the second one token. The answer is the number of tokens that win
//! every prize that can be won; in the second part every prize stands
//! 10000000000000 further away on both axes.
//!
//! All arithmetic is done in 128-bit signed integers; where a value on the
//! way does not fit, there is no answer.
use vstd::prelude::*;
use vstd::string::StringSliceAdditionalSpecFns;
use crate::text::{views, lines_of, lines, split_seq, split, trimmed, trim, as_i128, parse_i128};

verus! {

/// How much further away the prizes stand in the second part.
pub const FAR: i128 = 10000000000000;

/// A claw machine: what a press of each button moves the claw by, and where
/// the prize is.
#[derive(Clone, Copy, Debug)]
pub struct Machine {
    pub button_a: (i128, i128),
    pub button_b: (i128, i128),
    pub prize: (i128, i128),
}

/// The number written in the `k`-th of the fields of `line` that commas
/// part, after the first `sep` of that field.
pub open spec fn number_after(line: Seq<u8>, k: int, sep: u8) -> Option<i128> {
    let fields = split_seq(line, seq![44u8]);
    if 0 <= k < fields.len() {
        let parts = split_seq(fields[k], seq![sep]);
        if parts.len() < 2 {
            None
        } else {
            as_i128(trimmed(parts[1]))
        }
    } else {
        None
    }
}

/// The number fits in 128 bits with a sign.
pub open spec fn fits(x: int) -> bool {
    i128::MIN <= x <= i128::MAX
}

/// The two numbers of a line, each after a `sep`.
pub open spec fn pair_after(line: Seq<u8>, sep: u8) -> Option<(i128, i128)> {
    match number_after(line, 0, sep) {
        None => None,
        Some(x) => match number_after(line, 1, sep) {
            None => None,
            Some(y) => Some((x, y)),
        },
    }
}

/// The machine that a block of three lines describes. `Some(None)` where a
/// line does not have its two numbers: such a block is passed over. `None`
/// where a line that is needed is missing, or the prize cannot be moved away.
pub open spec fn machine_of(block: Seq<u8>, large_prize: bool) -> Option<Option<Machine>> {
    let ls = lines_of(block);
    if ls.len() < 1 {
        None
    } else {
        match pair_after(ls[0], 43) {
            None => Some(None),
            Some(a) => if ls.len() < 2 {
                None
            } else {
                match pair_after(ls[1], 43) {
                    None => Some(None),
                    Some(b) => if ls.len() < 3 {
                        None
                    } else {
                        match pair_after(ls[2], 61) {
                            None => Some(None),
                            Some(p) => if !large_prize {
                                Some(Some(Machine { button_a: a, button_b: b, prize: p }))
                            } else if fits(p.0 + FAR) && fits(p.1 + FAR) {
                                Some(
                                    Some(
                                        Machine {
                                            button_a: a,
                                            button_b: b,
                                            prize: ((p.0 + FAR) as i128, (p.1 + FAR) as i128),
                                        },
                                    ),
                                )
                            } else {
                                None
                            },
                        }
                    },
                }
            },
        }
    }
}

/// The machines of the blocks, in order, without the blocks passed over.
pub open spec fn machines_of(blocks: Seq<Seq<u8>>, large_prize: bool) -> Option<Seq<Machine>>
    decreases blocks.len(),
{
    if blocks.len() == 0 {
        Some(seq![])
    } else {
        match machine_of(blocks[0], large_prize) {
            None => None,
            Some(m) => match machines_of(blocks.drop_first(), large_prize) {
                None => None,
                Some(rest) => Some(
                    (match m {
                        Some(x) => seq![x],
                        None => seq![],
                    }) + rest,
                ),
            },
        }
    }
}

/// The number without its sign.
pub open spec fn abs(x: int) -> int {
    if x < 0 {
        -x
    } else {
        x
    }
}

/// The number `q` with `q * d == a`, if there is one and `d` is not zero.
pub open spec fn exact_quotient(a: int, d: int) -> Option<int> {
    if d == 0 || abs(a) % abs(d) != 0 {
        None
    } else if (a < 0) == (d < 0) {
        Some(abs(a) / abs(d))
    } else {
        Some(-(abs(a) / abs(d)))
    }
}

/// The numbers of presses of the two buttons that bring the claw to the
/// prize, by Cramer's rule: none where the buttons point the same way, where
/// the numbers are not whole, or where one of them is not positive. `None`
/// where a value on the way does not fit in 128 bits.
pub open spec fn solutions_of(m: Machine) -> Option<Seq<(i128, i128)>> {
    let (ax, ay) = (m.button_a.0 as int, m.button_a.1 as int);
    let (bx, by) = (m.button_b.0 as int, m.button_b.1 as int);
    let (px, py) = (m.prize.0 as int, m.prize.1 as int);
    let det = ax * by - ay * bx;
    let da = px * by - py * bx;
    let db = ax * py - ay * px;
    if !fits(ax * by) || !fits(ay * bx) || !fits(det) {
        None
    } else if det == 0 {
        Some(seq![])
    } else if !fits(px * by) || !fits(py * bx) || !fits(da) || !fits(ax * py) || !fits(ay * px)
        || !fits(db) {
        None
    } else if da == i128::MIN && det == -1 {
        None
    } else {
        match exact_quotient(da, det) {
            None => Some(seq![]),
            Some(ta) => if db == i128::MIN && det == -1 {
                None
            } else {
                match exact_quotient(db, det) {
                    None => Some(seq![]),
                    Some(tb) => if ta > 0 && tb > 0 {
                        Some(seq![(ta as i128, tb as i128)])
                    } else {
                        Some(seq![])
                    },
                }
            },
        }
    }
}

/// A quotient found is one indeed.
pub proof fn lemma_exact_quotient(a: int, d: int)
    ensures
        exact_quotient(a, d) matches Some(q) ==> q * d == a && abs(q) <= abs(a),
{
    if d != 0 && abs(a) % abs(d) == 0 {
        let n = abs(a);
        let m = abs(d);
        vstd::arithmetic::div_mod::lemma_fundamental_div_mod(n, m);
        let q = n / m;
        assert(n == m * q);
        assert(q * m == n) by (nonlinear_arith)
            requires
                n == m * q,
        ;
        assert((-q) * m == -n) by (nonlinear_arith)
            requires
                n == m * q,
        ;
        assert((-q) * (-m) == n) by (nonlinear_arith)
            requires
                n == m * q,
        ;
        assert(q * (-m) == -n) by (nonlinear_arith)
            requires
                n == m * q,
        ;
        assert(0 <= q <= n) by (nonlinear_arith)
            requires
                n == m * q,
                m >= 1,
                n >= 0,
        ;
    }
}

/// The presses that Cramer's rule finds do bring the claw to the prize.
pub proof fn lemma_solution_wins(m: Machine)
    ensures
        solutions_of(m) matches Some(s) ==> s.len() <= 1 && (s.len() == 1 ==> {
            &&& s[0].0 > 0
            &&& s[0].1 > 0
            &&& m.button_a.0 * s[0].0 + m.button_b.0 * s[0].1 == m.prize.0
            &&& m.button_a.1 * s[0].0 + m.button_b.1 * s[0].1 == m.prize.1
        }),
{
    let (ax, ay) = (m.button_a.0 as int, m.button_a.1 as int);
    let (bx, by) = (m.button_b.0 as int, m.button_b.1 as int);
    let (px, py) = (m.prize.0 as int, m.prize.1 as int);
    let det = ax * by - ay * bx;
    let da = px * by - py * bx;
    let db = ax * py - ay * px;
    match solutions_of(m) {
        Some(s) => {
            if s.len() == 1 {
                lemma_exact_quotient(da, det);
                lemma_exact_quotient(db, det);
                let ta = exact_quotient(da, det)->0;
                let tb = exact_quotient(db, det)->0;
                assert(ta <= i128::MAX) by {
                    if ta > i128::MAX {
                        assert(det == -1 && da == i128::MIN) by (nonlinear_arith)
                            requires
                                ta * det == da,
                                ta > i128::MAX,
                                i128::MIN <= da <= i128::MAX,
                                det != 0,
                        ;
                    }
                }
                assert(tb <= i128::MAX) by {
                    if tb > i128::MAX {
                        assert(det == -1 && db == i128::MIN) by (nonlinear_arith)
                            requires
                                tb * det == db,
                                tb > i128::MAX,
                                i128::MIN <= db <= i128::MAX,
                                det != 0,
                        ;
                    }
                }
                assert(s[0].0 == ta && s[0].1 == tb);
                assert(det * (ax * ta + bx * tb) == ax * (ta * det) + bx * (tb * det))
                    by (nonlinear_arith);
                assert(det * (ay * ta + by * tb) == ay * (ta * det) + by * (tb * det))
                    by (nonlinear_arith);
                assert(ax * da + bx * db == det * px) by (nonlinear_arith)
                    requires
                        da == px * by - py * bx,
                        db == ax * py - ay * px,
                        det == ax * by - ay * bx,
                ;
                assert(ay * da + by * db == det * py) by (nonlinear_arith)
                    requires
                        da == px * by - py * bx,
                        db == ax * py - ay * px,
                        det == ax * by - ay * bx,
                ;
                assert(ta * det == da);
                assert(tb * det == db);
                assert(det * (ax * ta + bx * tb) == det * px);
                assert(det * (ay * ta + by * tb) == det * py);
                assert(ax * ta + bx * tb == px) by (nonlinear_arith)
                    requires
                        det * (ax * ta + bx * tb) == det * px,
                        det != 0,
                ;
                assert(ay * ta + by * tb == py) by (nonlinear_arith)
                    requires
                        det * (ay * ta + by * tb) == det * py,
                        det != 0,
                ;
            }
        },
        None => {},
    }
}

/// The least cost among the ways to win, three tokens for a press of the
/// first button and one for a press of the second, or 0 without a way.
/// `None` where a cost does not fit in 128 bits.
pub open spec fn least_cost(s: Seq<(i128, i128)>) -> Option<int>
    decreases s.len(),
{
    if s.len() == 0 {
        Some(0)
    } else {
        let cost = s.last().0 * 3 + s.last().1;
        if !fits(s.last().0 * 3) || !fits(cost) {
            None
        } else if s.len() == 1 {
            Some(cost)
        } else {
            match least_cost(s.drop_last()) {
                None => None,
                Some(c) => Some(
                    if c <= cost {
                        c
                    } else {
                        cost
                    },
                ),
            }
        }
    }
}

/// The tokens spent on the machines, added to `acc` one machine after another.
pub open spec fn total_tokens(ms: Seq<Machine>, acc: int) -> Option<int>
    decreases ms.len(),
{
    if ms.len() == 0 {
        Some(acc)
    } else {
        match solutions_of(ms[0]) {
            None => None,
            Some(s) => match least_cost(s) {
                None => None,
                Some(c) => if fits(acc + c) {
                    total_tokens(ms.drop_first(), acc + c)
                } else {
                    None
                },
            },
        }
    }
}

/// The answer for the text `s`.
pub open spec fn answer(s: Seq<u8>, large_prize: bool) -> Option<i128> {
    match machines_of(split_seq(s, seq![10u8, 10u8]), large_prize) {
        None => None,
        Some(ms) => match total_tokens(ms, 0) {
            None => None,
            Some(t) => Some(t as i128),
        },
    }
}

fn read_number_after(line: &Vec<u8>, k: usize, sep: u8) -> (out: Option<i128>)
    ensures
        out == number_after(line@, k as int, sep),
{
    let comma: Vec<u8> = vec![44u8];
    assert(comma@ =~= seq![44u8]);
    let fields = split(line.as_slice(), comma.as_slice());
    assert(views(fields@).len() == fields@.len());
    if k >= fields.len() {
        return None;
    }
    assert(views(fields@)[k as int] == fields@[k as int]@);
    let pat: Vec<u8> = vec![sep];
    assert(pat@ =~= seq![sep]);
    let parts = split(fields[k].as_slice(), pat.as_slice());
    assert(views(parts@).len() == parts@.len());
    if parts.len() < 2 {
        return None;
    }
    assert(views(parts@)[1] == parts@[1]@);
    let t = trim(parts[1].as_slice());
    parse_i128(t.as_slice())
}

fn read_pair_after(line: &Vec<u8>, sep: u8) -> (out: Option<(i128, i128)>)
    ensures
        out == pair_after(line@, sep),
{
    let x = match read_number_after(line, 0, sep) {
        Some(x) => x,
        None => {
            return None;
        },
    };
    let y = match read_number_after(line, 1, sep) {
        Some(y) => y,
        None => {
            return None;
        },
    };
    Some((x, y))
}

fn parse_machine(block: &Vec<u8>, large_prize: bool) -> (out: Option<Option<Machine>>)
    ensures
        out == machine_of(block@, large_prize),
{
    let ls = lines(block.as_slice());
    assert(views(ls@).len() == ls@.len());
    if ls.len() < 1 {
        return None;
    }
    assert(views(ls@)[0] == ls@[0]@);
    let a = match read_pair_after(&ls[0], 43) {
        Some(a) => a,
        None => {
            return Some(None);
        },
    };
    if ls.len() < 2 {
        return None;
    }
    assert(views(ls@)[1] == ls@[1]@);
    let b = match read_pair_after(&ls[1], 43) {
        Some(b) => b,
        None => {
            return Some(None);
        },
    };
    if ls.len() < 3 {
        return None;
    }
    assert(views(ls@)[2] == ls@[2]@);
    let p = match read_pair_after(&ls[2], 61) {
        Some(p) => p,
        None => {
            return Some(None);
        },
    };
    if !large_prize {
        return Some(Some(Machine { button_a: a, button_b: b, prize: p }));
    }
    match (p.0.checked_add(FAR), p.1.checked_add(FAR)) {
        (Some(x), Some(y)) => Some(Some(Machine { button_a: a, button_b: b, prize: (x, y) })),
        _ => None,
    }
}

/// Reads the machines that the text describes, one for each block of lines
/// that has all its numbers.
#[verifier::loop_isolation(false)]
pub fn parse_machine_inputs(input: &[u8], large_prize: bool) -> (out: Option<Vec<Machine>>)
    ensures
        match machines_of(split_seq(input@, seq![10u8, 10u8]), large_prize) {
            Some(ms) => out is Some && out->0@ == ms,
            None => out is None,
        },
{
    let pat: Vec<u8> = vec![10u8, 10u8];
    assert(pat@ =~= seq![10u8, 10u8]);
    let blocks = split(input, pat.as_slice());
    let ghost all = views(blocks@);
    let mut acc: Vec<Machine> = Vec::new();
    let mut i: usize = 0;
    assert(all.skip(0) =~= all);
    while i < blocks.len()
        invariant
            0 <= i <= blocks@.len(),
            match machines_of(all.skip(i as int), large_prize) {
                Some(rest) => machines_of(all, large_prize) == Some(acc@ + rest),
                None => machines_of(all, large_prize) is None,
            },
        decreases blocks@.len() - i,
    {
        assert(all.skip(i as int)[0] == blocks@[i as int]@);
        assert(all.skip(i as int).drop_first() =~= all.skip(i + 1));
        match parse_machine(&blocks[i], large_prize) {
            None => {
                return None;
            },
            Some(m) => {
                let ghost before = acc@;
                match m {
                    Some(x) => {
                        acc.push(x);
                    },
                    None => {},
                }
                proof {
                    match machines_of(all.skip(i + 1), large_prize) {
                        Some(rest) => {
                            assert(acc@ + rest =~= before + ((match m {
                                Some(x) => seq![x],
                                None => seq![],
                            }) + rest));
                        },
                        None => {},
                    }
                }
            },
        }
        i += 1;
    }
    assert(acc@ + Seq::<Machine>::empty() =~= acc@);
    Some(acc)
}

fn magnitude(x: i128) -> (m: u128)
    ensures
        m == abs(x as int),
{
    if x >= 0 {
        x as u128
    } else if x == i128::MIN {
        0x8000_0000_0000_0000_0000_0000_0000_0000u128
    } else {
        (-x) as u128
    }
}

/// The whole quotient of `a` by `d`, if there is one.
fn divide_exactly(a: i128, d: i128) -> (out: Option<i128>)
    requires
        !(a == i128::MIN && d == -1),
    ensures
        match exact_quotient(a as int, d as int) {
            Some(q) => out == Some(q as i128) && fits(q),
            None => out is None,
        },
{
    if d == 0 {
        return None;
    }
    let n = magnitude(a);
    let m = magnitude(d);
    if n % m != 0 {
        return None;
    }
    let q = n / m;
    proof {
        lemma_exact_quotient(a as int, d as int);
    }
    if (a < 0) == (d < 0) {
        assert(q <= i128::MAX) by {
            if q > i128::MAX {
                assert(q * m == n) by (nonlinear_arith)
                    requires
                        (q as int) * (d as int) == a as int,
                        m == abs(d as int),
                        n == abs(a as int),
                        (a < 0) == (d < 0),
                ;
                assert(m == 1) by (nonlinear_arith)
                    requires
                        q * m == n,
                        q > i128::MAX,
                        n <= i128::MAX + 1,
                        m >= 1,
                ;
            }
        }
        Some(q as i128)
    } else {
        if q == 0x8000_0000_0000_0000_0000_0000_0000_0000u128 {
            Some(i128::MIN)
        } else {
            Some(-(q as i128))
        }
    }
}

/// The ways to win the prize, by Cramer's rule: at most one.
pub fn find_solutions_cramer(machine: &Machine) -> (out: Option<Vec<(i128, i128)>>)
    ensures
        match solutions_of(*machine) {
            Some(s) => out is Some && out->0@ == s,
            None => out is None,
        },
{
    let mut solutions: Vec<(i128, i128)> = Vec::new();
    let (ax, ay) = machine.button_a;
    let (bx, by) = machine.button_b;
    let (px, py) = machine.prize;
    let determinant = match (ax.checked_mul(by), ay.checked_mul(bx)) {
        (Some(u), Some(v)) => match u.checked_sub(v) {
            Some(d) => d,
            None => {
                return None;
            },
        },
        _ => {
            return None;
        },
    };
    if determinant == 0 {
        return Some(solutions);
    }
    let det_a = match (px.checked_mul(by), py.checked_mul(bx)) {
        (Some(u), Some(v)) => match u.checked_sub(v) {
            Some(d) => d,
            None => {
                return None;
            },
        },
        _ => {
            return None;
        },
    };
    let det_b = match (ax.checked_mul(py), ay.checked_mul(px)) {
        (Some(u), Some(v)) => match u.checked_sub(v) {
            Some(d) => d,
            None => {
                return None;
            },
        },
        _ => {
            return None;
        },
    };
    if det_a == i128::MIN && determinant == -1 {
        return None;
    }
    let ta = match divide_exactly(det_a, determinant) {
        Some(q) => q,
        None => {
            return Some(solutions);
        },
    };
    if det_b == i128::MIN && determinant == -1 {
        return None;
    }
    let tb = match divide_exactly(det_b, determinant) {
        Some(q) => q,
        None => {
            return Some(solutions);
        },
    };
    if ta > 0 && tb > 0 {
        solutions.push((ta, tb));
        assert(solutions@ =~= seq![(ta, tb)]);
    }
    Some(solutions)
}

/// The least number of tokens among the ways to win, 0 without a way.
#[verifier::loop_isolation(false)]
pub fn count_tokens(solutions: &Vec<(i128, i128)>) -> (out: Option<i128>)
    ensures
        match least_cost(solutions@) {
            Some(c) => out == Some(c as i128) && fits(c),
            None => out is None,
        },
{
    let mut best: i128 = 0;
    let mut i: usize = 0;
    assert(solutions@.take(0) =~= Seq::<(i128, i128)>::empty());
    while i < solutions.len()
        invariant
            0 <= i <= solutions@.len(),
            least_cost(solutions@.take(i as int)) == Some(best as int),
        decreases solutions@.len() - i,
    {
        let s = solutions[i];
        let ghost t = solutions@.take(i + 1);
        assert(t.drop_last() =~= solutions@.take(i as int));
        assert(t.last() == s);
        let cost = match s.0.checked_mul(3) {
            Some(c) => match c.checked_add(s.1) {
                Some(c) => c,
                None => {
                    proof {
                        lemma_cost_missing(solutions@, i + 1);
                    }
                    return None;
                },
            },
            None => {
                proof {
                    lemma_cost_missing(solutions@, i + 1);
                }
                return None;
            },
        };
        if i == 0 || cost < best {
            best = cost;
        }
        i += 1;
    }
    assert(solutions@.take(i as int) =~= solutions@);
    Some(best)
}

proof fn lemma_cost_missing(s: Seq<(i128, i128)>, n: int)
    requires
        0 <= n <= s.len(),
        least_cost(s.take(n)) is None,
    ensures
        least_cost(s) is None,
    decreases s.len() - n,
{
    if n < s.len() {
        assert(s.take(n + 1).drop_last() =~= s.take(n));
        lemma_cost_missing(s, n + 1);
    } else {
        assert(s.take(n) =~= s);
    }
}

#[verifier::loop_isolation(false)]
fn spend(machines: &Vec<Machine>) -> (out: Option<i128>)
    ensures
        match total_tokens(machines@, 0) {
            Some(t) => out == Some(t as i128) && fits(t),
            None => out is None,
        },
{
    let mut token_sum: i128 = 0;
    let mut i: usize = 0;
    assert(machines@.skip(0) =~= machines@);
    while i < machines.len()
        invariant
            0 <= i <= machines@.len(),
            total_tokens(machines@.skip(i as int), token_sum as int) == total_tokens(machines@, 0),
        decreases machines@.len() - i,
    {
        assert(machines@.skip(i as int)[0] == machines@[i as int]);
        assert(machines@.skip(i as int).drop_first() =~= machines@.skip(i + 1));
        let solutions = match find_solutions_cramer(&machines[i]) {
            Some(s) => s,
            None => {
                return None;
            },
        };
        let cost = match count_tokens(&solutions) {
            Some(c) => c,
            None => {
                return None;
            },
        };
        token_sum = match token_sum.checked_add(cost) {
            Some(t) => t,
            None => {
                return None;
            },
        };
        i += 1;
    }
    Some(token_sum)
}

/// The tokens that win every prize that can be won.
pub fn part_one(input: &str) -> (out: Option<i128>)
    ensures
        out == answer(input.spec_bytes(), false),
{
    let machines = match parse_machine_inputs(input.as_bytes(), false) {
        Some(m) => m,
        None => {
            return None;
        },
    };
    spend(&machines)
}

/// The same with every prize moved further away.
pub fn part_two(input: &str) -> (out: Option<i128>)
    ensures
        out == answer(input.spec_bytes(), true),
{
    let machines = match parse_machine_inputs(input.as_bytes(), true) {
        Some(m) => m,
        None => {
            return None;
        },
    };
    spend(&machines)
}

/// The quotient of a multiple of `d` by `d` is found.
pub proof fn lemma_quotient_of_multiple(q: int, d: int)
    requires
        d != 0,
    ensures
        exact_quotient(q * d, d) == Some(q),
{
    let n = abs(q);
    let m = abs(d);
    assert(abs(q * d) == n * m) by (nonlinear_arith)
        requires
            n == abs(q),
            m == abs(d),
    ;
    vstd::arithmetic::div_mod::lemma_mod_multiples_basic(n, m);
    vstd::arithmetic::div_mod::lemma_div_multiples_vanish(n, m);
    assert(n * m == m * n) by (nonlinear_arith);
    assert((n * m) % m == 0);
    assert((n * m) / m == n);
    if q != 0 {
        assert(((q * d < 0) == (d < 0)) == (q > 0)) by (nonlinear_arith)
            requires
                d != 0,
                q != 0,
        ;
    } else {
        assert(q * d == 0) by (nonlinear_arith)
            requires
                q == 0,
        ;
    }
}

/// Cramer's rule misses no way to win: where the buttons do not point the
/// same way and a positive number of presses of each brings the claw to the
/// prize, these numbers are what it finds.
pub proof fn lemma_every_win_is_found(m: Machine, a: i128, b: i128)
    requires
        solutions_of(m) is Some,
        m.button_a.0 * m.button_b.1 - m.button_a.1 * m.button_b.0 != 0,
        a > 0,
        b > 0,
        m.button_a.0 * a + m.button_b.0 * b == m.prize.0,
        m.button_a.1 * a + m.button_b.1 * b == m.prize.1,
    ensures
        solutions_of(m) == Some(seq![(a, b)]),
{
    let (ax, ay) = (m.button_a.0 as int, m.button_a.1 as int);
    let (bx, by) = (m.button_b.0 as int, m.button_b.1 as int);
    let (px, py) = (m.prize.0 as int, m.prize.1 as int);
    let det = ax * by - ay * bx;
    let da = px * by - py * bx;
    let db = ax * py - ay * px;
    let (ta, tb) = (a as int, b as int);
    assert(da == ta * det) by (nonlinear_arith)
        requires
            da == px * by - py * bx,
            det == ax * by - ay * bx,
            ax * ta + bx * tb == px,
            ay * ta + by * tb == py,
    ;
    assert(db == tb * det) by (nonlinear_arith)
        requires
            db == ax * py - ay * px,
            det == ax * by - ay * bx,
            ax * ta + bx * tb == px,
            ay * ta + by * tb == py,
    ;
    lemma_quotient_of_multiple(ta, det);
    lemma_quotient_of_multiple(tb, det);
    assert(!(da == i128::MIN && det == -1));
    assert(!(db == i128::MIN && det == -1));
}

} // verus!
