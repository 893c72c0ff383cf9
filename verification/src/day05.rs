//! Pages are to be printed in an order that the rules allow: a rule `a|b`
//! says that page `a` comes before page `b` wherever both are printed. The
//! first part adds up the middle pages of the updates that are in order; the
//! second puts the others in order and adds up their middle pages.
use vstd::prelude::*;
use vstd::string::StringSliceAdditionalSpecFns;
use crate::text::{
    views, lines_of, lines, split_seq, split, split_once_seq, split_once, trimmed, trim, as_u32,
    parse_u32,
};

verus! {

/// The rule of a line: two numbers with a bar between.
pub open spec fn rule_of(line: Seq<u8>) -> Option<(u32, u32)> {
    let parts = split_seq(line, seq![124u8]);
    if parts.len() < 2 {
        None
    } else {
        match (as_u32(parts[0]), as_u32(parts[1])) {
            (Some(a), Some(b)) => Some((a, b)),
            _ => None,
        }
    }
}

/// The rules of the lines from the `i`-th on. `None` where a line is no rule.
pub open spec fn rules_of(ls: Seq<Seq<u8>>, i: int) -> Option<Seq<(u32, u32)>>
    decreases ls.len() - i,
{
    if 0 <= i < ls.len() {
        match (rule_of(ls[i]), rules_of(ls, i + 1)) {
            (Some(r), Some(rest)) => Some(seq![r] + rest),
            _ => None,
        }
    } else {
        Some(seq![])
    }
}

/// The pages of an update: numbers with commas between, from the `i`-th on.
pub open spec fn pages_of(pieces: Seq<Seq<u8>>, i: int) -> Option<Seq<u32>>
    decreases pieces.len() - i,
{
    if 0 <= i < pieces.len() {
        match (as_u32(trimmed(pieces[i])), pages_of(pieces, i + 1)) {
            (Some(p), Some(rest)) => Some(seq![p] + rest),
            _ => None,
        }
    } else {
        Some(seq![])
    }
}

/// The updates of the lines from the `i`-th on. `None` where a line holds
/// something that is no page number.
pub open spec fn updates_of(ls: Seq<Seq<u8>>, i: int) -> Option<Seq<Seq<u32>>>
    decreases ls.len() - i,
{
    if 0 <= i < ls.len() {
        match (pages_of(split_seq(ls[i], seq![44u8]), 0), updates_of(ls, i + 1)) {
            (Some(u), Some(rest)) => Some(seq![u] + rest),
            _ => None,
        }
    } else {
        Some(seq![])
    }
}

/// The update is in order: no rule wants a later page before an earlier one.
pub open spec fn in_order(rules: Seq<(u32, u32)>, pages: Seq<u32>) -> bool {
    forall|i: int, j: int| 0 <= i < j < pages.len() ==> !rules.contains((pages[j], pages[i]))
}

/// Some rule names the page.
pub open spec fn named(rules: Seq<(u32, u32)>, page: u32) -> bool {
    exists|k: int| 0 <= k < rules.len() && ((#[trigger] rules[k]).0 == page || rules[k].1 == page)
}

/// Where `x` is put into the row `s`: before the pages at the end of the
/// row that a rule wants behind `x`. `None` where a page looked at is
/// named by no rule.
pub open spec fn place_of(rules: Seq<(u32, u32)>, s: Seq<u32>, x: u32) -> Option<int>
    decreases s.len(),
{
    if s.len() > 0 {
        if !named(rules, s.last()) {
            None
        } else if rules.contains((x, s.last())) {
            place_of(rules, s.drop_last(), x)
        } else {
            Some(s.len() as int)
        }
    } else {
        Some(0)
    }
}

/// The pages of an update put in a row one after another, each in its place.
pub open spec fn ordered(rules: Seq<(u32, u32)>, pages: Seq<u32>) -> Option<Seq<u32>>
    decreases pages.len(),
{
    if pages.len() == 0 {
        Some(seq![])
    } else {
        match ordered(rules, pages.drop_last()) {
            None => None,
            Some(s) => match place_of(rules, s, pages.last()) {
                None => None,
                Some(p) => Some(s.insert(p, pages.last())),
            },
        }
    }
}

/// The sum of the middle pages of the updates from the `i`-th on, added to
/// `acc`: of those in order, or, with `mending`, of the others once put in order.
pub open spec fn middles(
    rules: Seq<(u32, u32)>,
    updates: Seq<Seq<u32>>,
    mending: bool,
    i: int,
    acc: u32,
) -> Option<u32>
    decreases updates.len() - i,
{
    if 0 <= i < updates.len() {
        let pages = updates[i];
        if in_order(rules, pages) == mending {
            middles(rules, updates, mending, i + 1, acc)
        } else {
            let row = if mending {
                ordered(rules, pages)
            } else {
                Some(pages)
            };
            match row {
                None => None,
                Some(r) => if r.len() == 0 || acc + r[r.len() as int / 2] > u32::MAX {
                    None
                } else {
                    middles(rules, updates, mending, i + 1, (acc + r[r.len() as int / 2]) as u32)
                },
            }
        }
    } else {
        Some(acc)
    }
}

/// The answer for the text `s`.
pub open spec fn answer(s: Seq<u8>, mending: bool) -> Option<u32> {
    match split_once_seq(s, seq![10u8, 10u8]) {
        None => None,
        Some(halves) => match (updates_of(lines_of(halves.1), 0), rules_of(lines_of(halves.0), 0)) {
            (Some(updates), Some(rules)) => middles(rules, updates, mending, 0, 0),
            _ => None,
        },
    }
}

fn parse_rule(line: &Vec<u8>) -> (out: Option<(u32, u32)>)
    ensures
        out == rule_of(line@),
{
    let bar: Vec<u8> = vec![124u8];
    assert(bar@ =~= seq![124u8]);
    let parts = split(line.as_slice(), bar.as_slice());
    assert(views(parts@).len() == parts@.len());
    if parts.len() < 2 {
        return None;
    }
    assert(views(parts@)[0] == parts@[0]@);
    assert(views(parts@)[1] == parts@[1]@);
    match (parse_u32(parts[0].as_slice()), parse_u32(parts[1].as_slice())) {
        (Some(a), Some(b)) => Some((a, b)),
        _ => None,
    }
}

#[verifier::loop_isolation(false)]
fn parse_rules(ls: &Vec<Vec<u8>>) -> (out: Option<Vec<(u32, u32)>>)
    ensures
        match rules_of(views(ls@), 0) {
            Some(r) => out is Some && out->0@ == r,
            None => out is None,
        },
{
    let ghost all = views(ls@);
    let mut acc: Vec<(u32, u32)> = Vec::new();
    let mut i: usize = 0;
    while i < ls.len()
        invariant
            0 <= i <= ls@.len(),
            match rules_of(all, i as int) {
                Some(rest) => rules_of(all, 0) == Some(acc@ + rest),
                None => rules_of(all, 0) is None,
            },
        decreases ls@.len() - i,
    {
        assert(all[i as int] == ls@[i as int]@);
        match parse_rule(&ls[i]) {
            None => {
                return None;
            },
            Some(r) => {
                proof {
                    match rules_of(all, i + 1) {
                        Some(rest) => {
                            assert(acc@.push(r) + rest =~= acc@ + (seq![r] + rest));
                        },
                        None => {},
                    }
                }
                acc.push(r);
            },
        }
        i += 1;
    }
    assert(acc@ + Seq::<(u32, u32)>::empty() =~= acc@);
    Some(acc)
}

#[verifier::loop_isolation(false)]
fn parse_pages(line: &Vec<u8>) -> (out: Option<Vec<u32>>)
    ensures
        match pages_of(split_seq(line@, seq![44u8]), 0) {
            Some(p) => out is Some && out->0@ == p,
            None => out is None,
        },
{
    let comma: Vec<u8> = vec![44u8];
    assert(comma@ =~= seq![44u8]);
    let pieces = split(line.as_slice(), comma.as_slice());
    let ghost all = views(pieces@);
    let mut acc: Vec<u32> = Vec::new();
    let mut i: usize = 0;
    while i < pieces.len()
        invariant
            0 <= i <= pieces@.len(),
            match pages_of(all, i as int) {
                Some(rest) => pages_of(all, 0) == Some(acc@ + rest),
                None => pages_of(all, 0) is None,
            },
        decreases pieces@.len() - i,
    {
        assert(all[i as int] == pieces@[i as int]@);
        let t = trim(pieces[i].as_slice());
        match parse_u32(t.as_slice()) {
            None => {
                return None;
            },
            Some(p) => {
                proof {
                    match pages_of(all, i + 1) {
                        Some(rest) => {
                            assert(acc@.push(p) + rest =~= acc@ + (seq![p] + rest));
                        },
                        None => {},
                    }
                }
                acc.push(p);
            },
        }
        i += 1;
    }
    assert(acc@ + Seq::<u32>::empty() =~= acc@);
    Some(acc)
}

/// The views of the updates.
pub open spec fn update_views(v: Seq<Vec<u32>>) -> Seq<Seq<u32>> {
    Seq::new(v.len(), |i: int| v[i]@)
}

#[verifier::loop_isolation(false)]
fn parse_updates(ls: &Vec<Vec<u8>>) -> (out: Option<Vec<Vec<u32>>>)
    ensures
        match updates_of(views(ls@), 0) {
            Some(u) => out is Some && update_views(out->0@) == u,
            None => out is None,
        },
{
    let ghost all = views(ls@);
    let mut acc: Vec<Vec<u32>> = Vec::new();
    assert(update_views(acc@) =~= Seq::<Seq<u32>>::empty());
    let mut i: usize = 0;
    while i < ls.len()
        invariant
            0 <= i <= ls@.len(),
            match updates_of(all, i as int) {
                Some(rest) => updates_of(all, 0) == Some(update_views(acc@) + rest),
                None => updates_of(all, 0) is None,
            },
        decreases ls@.len() - i,
    {
        assert(all[i as int] == ls@[i as int]@);
        match parse_pages(&ls[i]) {
            None => {
                return None;
            },
            Some(u) => {
                proof {
                    match updates_of(all, i + 1) {
                        Some(rest) => {
                            assert(update_views(acc@.push(u)) + rest =~= update_views(acc@) + (seq![
                                u@,
                            ] + rest));
                        },
                        None => {},
                    }
                }
                acc.push(u);
            },
        }
        i += 1;
    }
    assert(update_views(acc@) + Seq::<Seq<u32>>::empty() =~= update_views(acc@));
    Some(acc)
}

/// Whether there is a rule `a|b`.
#[verifier::loop_isolation(false)]
pub fn has_rule(rules: &Vec<(u32, u32)>, a: u32, b: u32) -> (r: bool)
    ensures
        r == rules@.contains((a, b)),
{
    let mut i: usize = 0;
    while i < rules.len()
        invariant
            0 <= i <= rules@.len(),
            forall|k: int| 0 <= k < i ==> rules@[k] != (a, b),
        decreases rules@.len() - i,
    {
        if rules[i].0 == a && rules[i].1 == b {
            assert(rules@[i as int] == (a, b));
            return true;
        }
        i += 1;
    }
    false
}

#[verifier::loop_isolation(false)]
fn is_named(rules: &Vec<(u32, u32)>, page: u32) -> (r: bool)
    ensures
        r == named(rules@, page),
{
    let mut i: usize = 0;
    while i < rules.len()
        invariant
            0 <= i <= rules@.len(),
            forall|k: int| 0 <= k < i ==> !((#[trigger] rules@[k]).0 == page || rules@[k].1 == page),
        decreases rules@.len() - i,
    {
        if rules[i].0 == page || rules[i].1 == page {
            return true;
        }
        i += 1;
    }
    false
}

/// Whether the update is in order.
#[verifier::loop_isolation(false)]
pub fn is_in_order(rules: &Vec<(u32, u32)>, pages: &Vec<u32>) -> (r: bool)
    ensures
        r == in_order(rules@, pages@),
{
    let mut j: usize = 0;
    while j < pages.len()
        invariant
            0 <= j <= pages@.len(),
            forall|a: int, b: int| 0 <= a < b < j ==> !rules@.contains((pages@[b], pages@[a])),
        decreases pages@.len() - j,
    {
        let mut i: usize = 0;
        while i < j
            invariant
                0 <= i <= j < pages@.len(),
                forall|a: int| 0 <= a < i ==> !rules@.contains((pages@[j as int], pages@[a])),
            decreases j - i,
        {
            if has_rule(rules, pages[j], pages[i]) {
                return false;
            }
            i += 1;
        }
        j += 1;
    }
    true
}

/// Puts the pages of an update in order.
#[verifier::loop_isolation(false)]
pub fn put_in_order(rules: &Vec<(u32, u32)>, pages: &Vec<u32>) -> (out: Option<Vec<u32>>)
    ensures
        match ordered(rules@, pages@) {
            Some(s) => out is Some && out->0@ == s,
            None => out is None,
        },
{
    let mut row: Vec<u32> = Vec::new();
    let mut i: usize = 0;
    assert(pages@.take(0) =~= Seq::<u32>::empty());
    while i < pages.len()
        invariant
            0 <= i <= pages@.len(),
            ordered(rules@, pages@.take(i as int)) == Some(row@),
        decreases pages@.len() - i,
    {
        let x = pages[i];
        let ghost s = row@;
        let ghost t = pages@.take(i + 1);
        assert(t.drop_last() =~= pages@.take(i as int));
        assert(t.last() == x);
        let mut p: usize = row.len();
        let mut found = false;
        assert(s.take(p as int) =~= s);
        while p > 0 && !found
            invariant
                0 <= p <= row@.len(),
                s == row@,
                !found ==> place_of(rules@, s.take(p as int), x) == place_of(rules@, s, x),
                found ==> place_of(rules@, s, x) == Some(p as int),
            decreases p, if found { 0int } else { 1int },
        {
            assert(s.take(p as int).last() == row@[p - 1]);
            assert(s.take(p as int).drop_last() =~= s.take(p - 1));
            if !is_named(rules, row[p - 1]) {
                proof {
                    lemma_unordered(rules@, pages@, i + 1);
                }
                return None;
            }
            if has_rule(rules, x, row[p - 1]) {
                p -= 1;
            } else {
                found = true;
            }
        }
        row.insert(p, x);
        i += 1;
    }
    assert(pages@.take(i as int) =~= pages@);
    Some(row)
}

proof fn lemma_unordered(rules: Seq<(u32, u32)>, pages: Seq<u32>, n: int)
    requires
        0 <= n <= pages.len(),
        ordered(rules, pages.take(n)) is None,
    ensures
        ordered(rules, pages) is None,
    decreases pages.len() - n,
{
    if n < pages.len() {
        assert(pages.take(n + 1).drop_last() =~= pages.take(n));
        lemma_unordered(rules, pages, n + 1);
    } else {
        assert(pages.take(n) =~= pages);
    }
}

#[verifier::loop_isolation(false)]
fn sum_middles(input: &[u8], mending: bool) -> (out: Option<u32>)
    ensures
        out == answer(input@, mending),
{
    let pat: Vec<u8> = vec![10u8, 10u8];
    assert(pat@ =~= seq![10u8, 10u8]);
    let (top, bottom) = match split_once(input, pat.as_slice()) {
        Some(p) => p,
        None => {
            return None;
        },
    };
    let update_lines = lines(bottom.as_slice());
    let page_updates = match parse_updates(&update_lines) {
        Some(u) => u,
        None => {
            return None;
        },
    };
    let rule_lines = lines(top.as_slice());
    let rules = match parse_rules(&rule_lines) {
        Some(r) => r,
        None => {
            return None;
        },
    };
    let ghost us = update_views(page_updates@);
    let mut sum: u32 = 0;
    let mut i: usize = 0;
    while i < page_updates.len()
        invariant
            0 <= i <= page_updates@.len(),
            middles(rules@, us, mending, i as int, sum) == middles(rules@, us, mending, 0, 0),
        decreases page_updates@.len() - i,
    {
        assert(us[i as int] == page_updates@[i as int]@);
        let pages = &page_updates[i];
        let valid = is_in_order(&rules, pages);
        if valid != mending {
            let middle = if mending {
                match put_in_order(&rules, pages) {
                    Some(row) => {
                        if row.len() == 0 {
                            return None;
                        }
                        row[row.len() / 2]
                    },
                    None => {
                        return None;
                    },
                }
            } else {
                if pages.len() == 0 {
                    return None;
                }
                pages[pages.len() / 2]
            };
            sum = match sum.checked_add(middle) {
                Some(s) => s,
                None => {
                    return None;
                },
            };
        }
        i += 1;
    }
    Some(sum)
}

/// The sum of the middle pages of the updates that are in order.
pub fn part_one(input: &str) -> (out: Option<u32>)
    ensures
        out == answer(input.spec_bytes(), false),
{
    sum_middles(input.as_bytes(), false)
}

/// The sum of the middle pages of the other updates, put in order.
pub fn part_two(input: &str) -> (out: Option<u32>)
    ensures
        out == answer(input.spec_bytes(), true),
{
    sum_middles(input.as_bytes(), true)
}

proof fn lemma_place_in_row(rules: Seq<(u32, u32)>, s: Seq<u32>, x: u32)
    ensures
        place_of(rules, s, x) matches Some(p) ==> 0 <= p <= s.len(),
    decreases s.len(),
{
    if s.len() > 0 && named(rules, s.last()) && rules.contains((x, s.last())) {
        lemma_place_in_row(rules, s.drop_last(), x);
    }
}

/// An update put in order has the same pages as before, each as often.
pub proof fn lemma_ordered_keeps_pages(rules: Seq<(u32, u32)>, pages: Seq<u32>)
    ensures
        ordered(rules, pages) matches Some(s) ==> s.len() == pages.len() && s.to_multiset()
            == pages.to_multiset(),
    decreases pages.len(),
{
    if pages.len() == 0 {
        assert(pages =~= Seq::<u32>::empty());
    } else {
        let t = pages.drop_last();
        let x = pages.last();
        lemma_ordered_keeps_pages(rules, t);
        match ordered(rules, t) {
            None => {},
            Some(s) => {
                lemma_place_in_row(rules, s, x);
                match place_of(rules, s, x) {
                    None => {},
                    Some(p) => {
                        vstd::seq_lib::to_multiset_insert(s, p, x);
                        assert(pages =~= t.insert(t.len() as int, x));
                        vstd::seq_lib::to_multiset_insert(t, t.len() as int, x);
                    },
                }
            },
        }
    }
}

} // verus!
