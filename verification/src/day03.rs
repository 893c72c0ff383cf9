//! A corrupted memory holds instructions of the form `mul(a,b)` among
//! rubbish. The first part adds up the products of all of them; the second
//! leaves out what stands between a `don't()` and the next `do()`.
use vstd::prelude::*;
use vstd::string::StringSliceAdditionalSpecFns;
use crate::text::{as_u32, parse_u32, copy_range};
use crate::outside::{captures_of, all_captures, replaced, replace_all, Groups, group_views};

verus! {

/// The regular expression of a multiplication, its two numbers as groups.
pub open spec fn mul_pattern() -> Seq<char> {
    "mul\\((\\d+),(\\d+)\\)"@
}

/// The regular expression of what is switched off: from a `don't()` to the
/// next `do()`, or to the end.
pub open spec fn off_pattern() -> Seq<char> {
    "(?s)don't\\(\\).*?do\\(\\)|(?s)don't\\(\\).*"@
}

/// The bytes of group `i` of a match.
pub open spec fn group_text(text: Seq<u8>, groups: Groups, i: int) -> Option<Seq<u8>> {
    if 0 <= i < groups.len() {
        match groups[i] {
            Some(span) => if span.0 <= span.1 <= text.len() {
                Some(text.subrange(span.0 as int, span.1 as int))
            } else {
                None
            },
            None => None,
        }
    } else {
        None
    }
}

/// The product of the two numbers of a match. `Some(None)` where one of
/// them does not fit in 32 bits: such a match is passed over. `None` where a
/// group is missing or the product does not fit in 32 bits.
pub open spec fn product_of(text: Seq<u8>, groups: Groups) -> Option<Option<u32>> {
    match group_text(text, groups, 1) {
        None => None,
        Some(g1) => match as_u32(g1) {
            None => Some(None),
            Some(a) => match group_text(text, groups, 2) {
                None => None,
                Some(g2) => match as_u32(g2) {
                    None => Some(None),
                    Some(b) => if a * b > u32::MAX {
                        None
                    } else {
                        Some(Some((a * b) as u32))
                    },
                },
            },
        },
    }
}

/// The sum of the products of the matches from the `i`-th on, added to
/// `acc`. `None` where it does not fit in 32 bits.
pub open spec fn sum_products(text: Seq<u8>, found: Seq<Groups>, i: int, acc: u32) -> Option<u32>
    decreases found.len() - i,
{
    if 0 <= i < found.len() {
        match product_of(text, found[i]) {
            None => None,
            Some(None) => sum_products(text, found, i + 1, acc),
            Some(Some(p)) => if acc + p > u32::MAX {
                None
            } else {
                sum_products(text, found, i + 1, (acc + p) as u32)
            },
        }
    } else {
        Some(acc)
    }
}

/// The sum of the products of the multiplications in `text`.
pub open spec fn mul_total(text: Seq<u8>) -> Option<u32> {
    match captures_of(mul_pattern(), text) {
        None => None,
        Some(found) => sum_products(text, found, 0, 0),
    }
}

/// `text` without its line feeds, from the `i`-th byte on.
pub open spec fn flattened(text: Seq<u8>, i: int) -> Seq<u8>
    decreases text.len() - i,
{
    if 0 <= i < text.len() {
        (if text[i] != 10 {
            seq![text[i]]
        } else {
            seq![]
        }) + flattened(text, i + 1)
    } else {
        seq![]
    }
}

/// The answer to the second part for the text `s`.
pub open spec fn answer_two(s: Seq<u8>) -> Option<u32> {
    match replaced(off_pattern(), flattened(s, 0), seq![]) {
        None => None,
        Some(cleaned) => mul_total(cleaned),
    }
}

fn read_group(text: &[u8], groups: &Vec<Option<(usize, usize)>>, i: usize) -> (out: Option<Vec<u8>>)
    ensures
        match group_text(text@, groups@, i as int) {
            Some(g) => out is Some && out->0@ == g,
            None => out is None,
        },
{
    if i >= groups.len() {
        return None;
    }
    match groups[i] {
        Some((a, b)) => {
            if a <= b && b <= text.len() {
                Some(copy_range(text, a, b))
            } else {
                None
            }
        },
        None => None,
    }
}

fn product(text: &[u8], groups: &Vec<Option<(usize, usize)>>) -> (out: Option<Option<u32>>)
    ensures
        out == product_of(text@, groups@),
{
    let g1 = match read_group(text, groups, 1) {
        Some(g) => g,
        None => {
            return None;
        },
    };
    let a = match parse_u32(g1.as_slice()) {
        Some(a) => a,
        None => {
            return Some(None);
        },
    };
    let g2 = match read_group(text, groups, 2) {
        Some(g) => g,
        None => {
            return None;
        },
    };
    let b = match parse_u32(g2.as_slice()) {
        Some(b) => b,
        None => {
            return Some(None);
        },
    };
    match a.checked_mul(b) {
        Some(p) => Some(Some(p)),
        None => None,
    }
}

/// The sum of the products of the matches found in `text`.
#[verifier::loop_isolation(false)]
pub fn add_products(text: &[u8], found: &Vec<Vec<Option<(usize, usize)>>>) -> (out: Option<u32>)
    ensures
        out == sum_products(text@, group_views(found@), 0, 0),
{
    let ghost all = group_views(found@);
    let mut sum: u32 = 0;
    let mut i: usize = 0;
    while i < found.len()
        invariant
            0 <= i <= found@.len(),
            sum_products(text@, all, i as int, sum) == sum_products(text@, all, 0, 0),
        decreases found@.len() - i,
    {
        assert(all[i as int] == found@[i as int]@);
        match product(text, &found[i]) {
            None => {
                return None;
            },
            Some(None) => {},
            Some(Some(p)) => {
                sum = match sum.checked_add(p) {
                    Some(s) => s,
                    None => {
                        return None;
                    },
                };
            },
        }
        i += 1;
    }
    Some(sum)
}

fn total_of(text: &[u8]) -> (out: Option<u32>)
    ensures
        out == mul_total(text@),
{
    match all_captures("mul\\((\\d+),(\\d+)\\)", text) {
        Some(found) => add_products(text, &found),
        None => None,
    }
}

/// The sum of the products of all multiplications.
pub fn part_one(input: &str) -> (out: Option<u32>)
    ensures
        out == mul_total(input.spec_bytes()),
{
    total_of(input.as_bytes())
}

#[verifier::loop_isolation(false)]
fn flatten(text: &[u8]) -> (out: Vec<u8>)
    ensures
        out@ == flattened(text@, 0),
{
    let mut out: Vec<u8> = Vec::new();
    let mut i: usize = 0;
    while i < text.len()
        invariant
            0 <= i <= text@.len(),
            out@ + flattened(text@, i as int) == flattened(text@, 0),
        decreases text@.len() - i,
    {
        let ghost before = out@;
        let ghost rest = flattened(text@, i + 1);
        if text[i] != 10 {
            out.push(text[i]);
            assert(out@ + rest =~= before + (seq![text@[i as int]] + rest));
        } else {
            assert(out@ + rest =~= before + (Seq::<u8>::empty() + rest));
        }
        i += 1;
    }
    assert(out@ + Seq::<u8>::empty() =~= out@);
    out
}

/// The sum of the products of the multiplications that are switched on.
pub fn part_two(input: &str) -> (out: Option<u32>)
    ensures
        out == answer_two(input.spec_bytes()),
{
    let flat = flatten(input.as_bytes());
    let nothing: Vec<u8> = Vec::new();
    assert(nothing@ =~= Seq::<u8>::empty());
    let cleaned = match replace_all(
        "(?s)don't\\(\\).*?do\\(\\)|(?s)don't\\(\\).*",
        flat.as_slice(),
        nothing.as_slice(),
    ) {
        Some(c) => c,
        None => {
            return None;
        },
    };
    total_of(cleaned.as_slice())
}

} // verus!
