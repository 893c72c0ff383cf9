//! Byte-level text handling shared by the puzzle solvers: splitting on a
//! separator, lines, whitespace-separated words, trimming and decimal numbers.
//!
//! Every routine has a mathematical counterpart on `Seq<u8>`; the executable
//! functions are proved to compute exactly that.
use vstd::prelude::*;
use vstd::utf8::{valid_utf8, decode_utf8, encode_utf8, partial_valid_utf8, is_leading_byte_width_1};

verus! {

/// The views of the rows of a vector of byte vectors.
pub open spec fn views(v: Seq<Vec<u8>>) -> Seq<Seq<u8>> {
    Seq::new(v.len(), |i: int| v[i]@)
}

/// The views of the rows with one more row.
pub proof fn lemma_views_push(v: Seq<Vec<u8>>, x: Vec<u8>)
    ensures
        views(v.push(x)) == views(v).push(x@),
{
    assert(views(v.push(x)) =~= views(v).push(x@));
}

/// `pat` occurs in `s` at offset `i`.
pub open spec fn matches_at(s: Seq<u8>, pat: Seq<u8>, i: int) -> bool {
    0 <= i && i + pat.len() <= s.len() && s.subrange(i, i + pat.len()) =~= pat
}

/// The least offset at or after `from` where `pat` occurs in `s`.
pub open spec fn find_from(s: Seq<u8>, pat: Seq<u8>, from: int) -> Option<int>
    decreases s.len() - from,
{
    if from < 0 || from + pat.len() > s.len() {
        None
    } else if matches_at(s, pat, from) {
        Some(from)
    } else {
        find_from(s, pat, from + 1)
    }
}

/// The pieces of `s` from offset `from` on, cut at each occurrence of `pat`,
/// occurrences taken from left to right without overlap.
pub open spec fn split_from(s: Seq<u8>, pat: Seq<u8>, from: int) -> Seq<Seq<u8>>
    decreases s.len() - from,
{
    match find_from(s, pat, from) {
        Some(i) => if pat.len() > 0 && from <= i && i + pat.len() <= s.len() {
            seq![s.subrange(from, i)] + split_from(s, pat, i + pat.len())
        } else {
            seq![s.subrange(from, s.len() as int)]
        },
        None => seq![s.subrange(from, s.len() as int)],
    }
}

/// The pieces of `s` between occurrences of `pat`. There is always at least one.
pub open spec fn split_seq(s: Seq<u8>, pat: Seq<u8>) -> Seq<Seq<u8>> {
    split_from(s, pat, 0)
}

/// What stands before and after the first occurrence of `pat` in `s`.
pub open spec fn split_once_seq(s: Seq<u8>, pat: Seq<u8>) -> Option<(Seq<u8>, Seq<u8>)> {
    match find_from(s, pat, 0) {
        Some(i) => Some((s.subrange(0, i), s.subrange(i + pat.len(), s.len() as int))),
        None => None,
    }
}

/// What `find_from` finds is an occurrence at or after `from`.
pub proof fn lemma_find_from_bounds(s: Seq<u8>, pat: Seq<u8>, from: int)
    ensures
        match find_from(s, pat, from) {
            Some(i) => from <= i && matches_at(s, pat, i),
            None => true,
        },
    decreases s.len() - from,
{
    if from < 0 || from + pat.len() > s.len() {
    } else if matches_at(s, pat, from) {
    } else {
        lemma_find_from_bounds(s, pat, from + 1);
    }
}

/// The line feed.
pub const NEWLINE: u8 = 10;

/// The carriage return.
pub const CARRIAGE_RETURN: u8 = 13;

/// A line without the carriage return that ended it, if one did.
pub open spec fn strip_cr(line: Seq<u8>) -> Seq<u8> {
    if line.len() > 0 && line.last() == CARRIAGE_RETURN {
        line.drop_last()
    } else {
        line
    }
}

/// The lines of a text. A line ends at a line feed, or at a carriage return
/// followed by a line feed; what follows the last line feed is a line of its
/// own unless it is empty.
pub open spec fn lines_of(s: Seq<u8>) -> Seq<Seq<u8>> {
    let parts = split_seq(s, seq![NEWLINE]);
    let n = parts.len() as int;
    Seq::new(
        (if n > 0 && parts[n - 1].len() == 0 {
            n - 1
        } else {
            n
        }) as nat,
        |i: int|
            if i < n - 1 {
                strip_cr(parts[i])
            } else {
                parts[i]
            },
    )
}

/// ASCII white space: space, tab, line feed, vertical tab, form feed, carriage return.
pub open spec fn is_space(b: u8) -> bool {
    b == 32 || (9 <= b && b <= 13)
}

/// The maximal runs of bytes of `s` that are not white space.
pub open spec fn words_of(s: Seq<u8>) -> Seq<Seq<u8>>
    decreases s.len(),
{
    if s.len() == 0 {
        seq![]
    } else {
        let before = words_of(s.drop_last());
        let b = s.last();
        if is_space(b) {
            before
        } else if s.len() >= 2 && !is_space(s[s.len() - 2]) && before.len() > 0 {
            before.update(before.len() - 1, before.last().push(b))
        } else {
            before.push(seq![b])
        }
    }
}

/// The number of leading white space bytes of `s`.
pub open spec fn leading_spaces(s: Seq<u8>) -> nat
    decreases s.len(),
{
    if s.len() > 0 && is_space(s[0]) {
        1 + leading_spaces(s.drop_first())
    } else {
        0
    }
}

/// The number of trailing white space bytes of `s`.
pub open spec fn trailing_spaces(s: Seq<u8>) -> nat
    decreases s.len(),
{
    if s.len() > 0 && is_space(s.last()) {
        1 + trailing_spaces(s.drop_last())
    } else {
        0
    }
}

/// `s` without its leading and trailing white space.
pub open spec fn trimmed(s: Seq<u8>) -> Seq<u8> {
    let a = leading_spaces(s);
    let b = trailing_spaces(s);
    if a + b >= s.len() {
        seq![]
    } else {
        s.subrange(a as int, s.len() - b)
    }
}

/// The byte is a decimal digit.
pub open spec fn is_digit(b: u8) -> bool {
    48 <= b && b <= 57
}

/// Every byte is a decimal digit.
pub open spec fn all_digits(s: Seq<u8>) -> bool {
    forall|i: int| 0 <= i < s.len() ==> is_digit(#[trigger] s[i])
}

/// The number that a run of decimal digits denotes.
pub open spec fn decimal_value(s: Seq<u8>) -> nat
    decreases s.len(),
{
    if s.len() == 0 {
        0
    } else {
        decimal_value(s.drop_last()) * 10 + (s.last() - 48) as nat
    }
}

/// An unsigned decimal number: an optional `+`, then one or more digits.
pub open spec fn parse_unsigned(s: Seq<u8>) -> Option<nat> {
    let digits = if s.len() > 0 && s[0] == 43 {
        s.drop_first()
    } else {
        s
    };
    if digits.len() > 0 && all_digits(digits) {
        Some(decimal_value(digits))
    } else {
        None
    }
}

/// A signed decimal number: an optional `+` or `-`, then one or more digits.
pub open spec fn parse_signed(s: Seq<u8>) -> Option<int> {
    if s.len() > 0 && s[0] == 45 {
        let digits = s.drop_first();
        if digits.len() > 0 && all_digits(digits) {
            Some(-(decimal_value(digits) as int))
        } else {
            None
        }
    } else {
        match parse_unsigned(s) {
            Some(v) => Some(v as int),
            None => None,
        }
    }
}

/// The digits up to the `i`-th denote no more than all the digits.
pub proof fn lemma_decimal_value_prefix(s: Seq<u8>, i: int)
    requires
        0 <= i <= s.len(),
        all_digits(s),
    ensures
        decimal_value(s.take(i)) <= decimal_value(s),
    decreases s.len() - i,
{
    if i < s.len() {
        lemma_decimal_value_prefix(s, i + 1);
        assert(s.take(i + 1).drop_last() == s.take(i));
        assert(is_digit(s[i]));
    } else {
        assert(s.take(i) == s);
    }
}

/// A copy of the bytes of `s` from offset `a` up to offset `b`.
pub fn copy_range(s: &[u8], a: usize, b: usize) -> (out: Vec<u8>)
    requires
        a <= b <= s@.len(),
    ensures
        out@ == s@.subrange(a as int, b as int),
{
    let mut out: Vec<u8> = Vec::new();
    let mut i: usize = a;
    while i < b
        invariant
            a <= i <= b <= s@.len(),
            out@ == s@.subrange(a as int, i as int),
        decreases b - i,
    {
        out.push(s[i]);
        i += 1;
        assert(out@ == s@.subrange(a as int, i as int));
    }
    out
}

/// Whether two byte strings are equal.
pub fn same_bytes(a: &[u8], b: &[u8]) -> (r: bool)
    ensures
        r == (a@ == b@),
{
    if a.len() != b.len() {
        return false;
    }
    let mut i: usize = 0;
    while i < a.len()
        invariant
            a@.len() == b@.len(),
            0 <= i <= a@.len(),
            forall|k: int| 0 <= k < i ==> a@[k] == b@[k],
        decreases a@.len() - i,
    {
        if a[i] != b[i] {
            return false;
        }
        i += 1;
    }
    assert(a@ =~= b@);
    true
}

/// Whether `pat` occurs in `s` at offset `i`.
pub fn occurs_at(s: &[u8], pat: &[u8], i: usize) -> (r: bool)
    ensures
        r == matches_at(s@, pat@, i as int),
{
    let n = s.len();
    if i > n || pat.len() > n - i {
        return false;
    }
    let mut k: usize = 0;
    while k < pat.len()
        invariant
            n == s@.len(),
            i + pat@.len() <= s@.len(),
            0 <= k <= pat@.len(),
            forall|j: int| 0 <= j < k ==> s@[i + j] == pat@[j],
        decreases pat@.len() - k,
    {
        if s[i + k] != pat[k] {
            assert(s@.subrange(i as int, i + pat@.len())[k as int] != pat@[k as int]);
            return false;
        }
        k += 1;
    }
    assert(s@.subrange(i as int, i + pat@.len()) =~= pat@);
    true
}

/// The offset of the first occurrence of `pat` in `s` at or after `from`.
pub fn find(s: &[u8], pat: &[u8], from: usize) -> (r: Option<usize>)
    ensures
        match r {
            Some(i) => find_from(s@, pat@, from as int) == Some(i as int),
            None => find_from(s@, pat@, from as int) is None,
        },
{
    let n = s.len();
    if from > n {
        return None;
    }
    let mut i: usize = from;
    while pat.len() <= n - i
        invariant
            from <= i <= n == s@.len(),
            find_from(s@, pat@, from as int) == find_from(s@, pat@, i as int),
        decreases n - i,
    {
        if occurs_at(s, pat, i) {
            return Some(i);
        }
        i += 1;
    }
    None
}

/// Cuts `s` at each occurrence of `pat`.
pub fn split(s: &[u8], pat: &[u8]) -> (out: Vec<Vec<u8>>)
    requires
        pat@.len() > 0,
    ensures
        views(out@) == split_seq(s@, pat@),
        out@.len() > 0,
{
    let mut out: Vec<Vec<u8>> = Vec::new();
    let mut start: usize = 0;
    let n = s.len();
    loop
        invariant
            pat@.len() > 0,
            n == s@.len(),
            start <= s@.len(),
            views(out@) + split_from(s@, pat@, start as int) == split_seq(s@, pat@),
        decreases s@.len() - start,
    {
        match find(s, pat, start) {
            Some(i) => {
                proof {
                    lemma_find_from_bounds(s@, pat@, start as int);
                }
                let piece = copy_range(s, start, i);
                proof {
                    lemma_views_push(out@, piece);
                    assert(views(out@).push(piece@) + split_from(s@, pat@, i + pat@.len())
                        =~= views(out@) + split_from(s@, pat@, start as int));
                }
                out.push(piece);
                start = i + pat.len();
            },
            None => {
                let piece = copy_range(s, start, s.len());
                proof {
                    lemma_views_push(out@, piece);
                    assert(views(out@).push(piece@) =~= views(out@) + split_from(
                        s@,
                        pat@,
                        start as int,
                    ));
                }
                out.push(piece);
                return out;
            },
        }
    }
}

/// Cuts `s` at the first occurrence of `pat`.
pub fn split_once(s: &[u8], pat: &[u8]) -> (r: Option<(Vec<u8>, Vec<u8>)>)
    ensures
        match r {
            Some(p) => split_once_seq(s@, pat@) == Some((p.0@, p.1@)),
            None => split_once_seq(s@, pat@) is None,
        },
{
    match find(s, pat, 0) {
        Some(i) => {
            proof {
                lemma_find_from_bounds(s@, pat@, 0);
            }
            let n = s.len();
            let head = copy_range(s, 0, i);
            let tail = copy_range(s, i + pat.len(), s.len());
            Some((head, tail))
        },
        None => None,
    }
}

/// The lines of `s`.
pub fn lines(s: &[u8]) -> (out: Vec<Vec<u8>>)
    ensures
        views(out@) == lines_of(s@),
{
    let pat: [u8; 1] = [NEWLINE];
    assert(pat@ =~= seq![NEWLINE]);
    let mut parts = split(s, pat.as_slice());
    let n = parts.len();
    let ghost full = views(parts@);
    if parts[n - 1].len() == 0 {
        parts.pop();
    }
    let m = parts.len();
    let mut i: usize = 0;
    while i < m
        invariant
            0 <= i <= m,
            m == parts@.len(),
            m <= n == full.len(),
            n <= m + 1,
            forall|k: int| 0 <= k < i && k < n - 1 ==> #[trigger] parts@[k]@ == strip_cr(full[k]),
            forall|k: int| 0 <= k < m && (k >= i || k >= n - 1) ==> #[trigger] parts@[k]@ == full[k],
        decreases m - i,
    {
        if i + 1 < n {
            let len = parts[i].len();
            if len > 0 && parts[i][len - 1] == CARRIAGE_RETURN {
                let mut row = copy_range(parts[i].as_slice(), 0, len - 1);
                assert(row@ =~= strip_cr(full[i as int]));
                parts.set(i, row);
            }
        }
        i += 1;
    }
    assert(views(parts@) =~= lines_of(s@));
    parts
}

/// Whether `b` is ASCII white space.
pub fn is_space_byte(b: u8) -> (r: bool)
    ensures
        r == is_space(b),
{
    b == 32 || (9 <= b && b <= 13)
}

/// The words of `s`: its maximal runs of bytes that are not white space.
pub fn words(s: &[u8]) -> (out: Vec<Vec<u8>>)
    ensures
        views(out@) == words_of(s@),
{
    let mut out: Vec<Vec<u8>> = Vec::new();
    let mut cur: Vec<u8> = Vec::new();
    let mut i: usize = 0;
    assert(s@.take(0) =~= Seq::<u8>::empty());
    assert(views(out@) =~= words_of(s@.take(0)));
    while i < s.len()
        invariant
            0 <= i <= s@.len(),
            cur@.len() > 0 <==> (i > 0 && !is_space(s@[i - 1])),
            cur@.len() == 0 ==> views(out@) == words_of(s@.take(i as int)),
            cur@.len() > 0 ==> views(out@).push(cur@) == words_of(s@.take(i as int)),
        decreases s@.len() - i,
    {
        let b = s[i];
        proof {
            let t = s@.take(i + 1);
            assert(t.drop_last() == s@.take(i as int));
            assert(t.last() == b);
            if i > 0 {
                assert(t[t.len() - 2] == s@[i - 1]);
            }
        }
        if is_space_byte(b) {
            if cur.len() > 0 {
                proof {
                    lemma_views_push(out@, cur);
                }
                out.push(cur);
                cur = Vec::new();
            }
        } else {
            let ghost before = words_of(s@.take(i as int));
            let ghost old_cur = cur@;
            cur.push(b);
            proof {
                if old_cur.len() > 0 {
                    assert(before.len() > 0);
                    assert(before.last() == old_cur);
                    assert(views(out@).push(cur@) =~= before.update(
                        before.len() - 1,
                        before.last().push(b),
                    ));
                } else {
                    assert(cur@ =~= seq![b]);
                }
            }
        }
        i += 1;
    }
    assert(s@.take(i as int) =~= s@);
    if cur.len() > 0 {
        proof {
            lemma_views_push(out@, cur);
        }
        out.push(cur);
    }
    out
}

proof fn lemma_leading_spaces_step(s: Seq<u8>, a: int)
    requires
        0 <= a <= s.len(),
        forall|k: int| 0 <= k < a ==> is_space(#[trigger] s[k]),
        a == s.len() || !is_space(s[a]),
    ensures
        leading_spaces(s) == a,
    decreases s.len(),
{
    if a > 0 {
        let t = s.drop_first();
        assert(forall|k: int| 0 <= k < a - 1 ==> #[trigger] t[k] == s[k + 1]);
        lemma_leading_spaces_step(t, a - 1);
    }
}

proof fn lemma_trailing_spaces_step(s: Seq<u8>, b: int)
    requires
        0 <= b <= s.len(),
        forall|k: int| s.len() - b <= k < s.len() ==> is_space(#[trigger] s[k]),
        b == s.len() || !is_space(s[s.len() - b - 1]),
    ensures
        trailing_spaces(s) == b,
    decreases s.len(),
{
    if b > 0 {
        let t = s.drop_last();
        assert(forall|k: int| 0 <= k < t.len() ==> #[trigger] t[k] == s[k]);
        lemma_trailing_spaces_step(t, b - 1);
    }
}

/// `s` without the white space at its two ends.
pub fn trim(s: &[u8]) -> (out: Vec<u8>)
    ensures
        out@ == trimmed(s@),
{
    let n = s.len();
    let mut a: usize = 0;
    while a < n && is_space_byte(s[a])
        invariant
            0 <= a <= n == s@.len(),
            forall|k: int| 0 <= k < a ==> is_space(#[trigger] s@[k]),
        decreases n - a,
    {
        a += 1;
    }
    let mut b: usize = 0;
    while b < n && is_space_byte(s[n - b - 1])
        invariant
            0 <= b <= n == s@.len(),
            forall|k: int| n - b <= k < n ==> is_space(#[trigger] s@[k]),
        decreases n - b,
    {
        b += 1;
    }
    proof {
        lemma_leading_spaces_step(s@, a as int);
        lemma_trailing_spaces_step(s@, b as int);
    }
    if b >= n - a {
        Vec::new()
    } else {
        copy_range(s, a, n - b)
    }
}

/// Whether `b` is a decimal digit.
pub fn is_digit_byte(b: u8) -> (r: bool)
    ensures
        r == is_digit(b),
{
    48 <= b && b <= 57
}

/// Reads the digits `s[from..]` as a number, if there is at least one byte,
/// all are digits and the number fits.
fn parse_digits(s: &[u8], from: usize) -> (r: Option<u128>)
    requires
        from <= s@.len(),
    ensures
        ({
            let d = s@.subrange(from as int, s@.len() as int);
            r == if d.len() > 0 && all_digits(d) && decimal_value(d) <= u128::MAX {
                Some(decimal_value(d) as u128)
            } else {
                None
            }
        }),
{
    let ghost d = s@.subrange(from as int, s@.len() as int);
    if from == s.len() {
        return None;
    }
    let mut acc: u128 = 0;
    let mut i: usize = from;
    assert(d.take(0) =~= Seq::<u8>::empty());
    while i < s.len()
        invariant
            from <= i <= s@.len(),
            d == s@.subrange(from as int, s@.len() as int),
            all_digits(d.take(i - from)),
            acc == decimal_value(d.take(i - from)),
        decreases s@.len() - i,
    {
        let b = s[i];
        assert(d[i - from] == b);
        if !is_digit_byte(b) {
            return None;
        }
        proof {
            let t = d.take(i - from + 1);
            assert(t.drop_last() == d.take(i - from));
            assert(t.last() == b);
            assert(all_digits(t)) by {
                assert forall|k: int| 0 <= k < t.len() implies is_digit(#[trigger] t[k]) by {
                    if k < t.len() - 1 {
                        assert(d.take(i - from)[k] == t[k]);
                    }
                }
            }
        }
        let digit = (b - 48) as u128;
        let next = match acc.checked_mul(10) {
            Some(m) => m.checked_add(digit),
            None => None,
        };
        match next {
            Some(v) => {
                acc = v;
            },
            None => {
                proof {
                    let t = d.take(i - from + 1);
                    assert(decimal_value(t) > u128::MAX);
                    if all_digits(d) {
                        lemma_decimal_value_prefix(d, i - from + 1);
                    }
                }
                return None;
            },
        }
        i += 1;
    }
    assert(d.take(i - from) =~= d);
    Some(acc)
}

/// Reads an unsigned decimal number that fits in 128 bits.
pub fn parse_u128(s: &[u8]) -> (r: Option<u128>)
    ensures
        r == as_u128(s@),
{
    if s.len() > 0 && s[0] == 43 {
        assert(s@.drop_first() =~= s@.subrange(1, s@.len() as int));
        parse_digits(s, 1)
    } else {
        assert(s@ =~= s@.subrange(0, s@.len() as int));
        parse_digits(s, 0)
    }
}

/// Reads an unsigned decimal number that fits in 64 bits.
pub fn parse_u64(s: &[u8]) -> (r: Option<u64>)
    ensures
        r == as_u64(s@),
{
    match parse_u128(s) {
        Some(v) => if v <= u64::MAX as u128 {
            Some(v as u64)
        } else {
            None
        },
        None => None,
    }
}

/// Reads an unsigned decimal number that fits in 32 bits.
pub fn parse_u32(s: &[u8]) -> (r: Option<u32>)
    ensures
        r == as_u32(s@),
{
    match parse_u128(s) {
        Some(v) => if v <= u32::MAX as u128 {
            Some(v as u32)
        } else {
            None
        },
        None => None,
    }
}

/// Reads a signed decimal number that fits in 128 bits.
pub fn parse_i128(s: &[u8]) -> (r: Option<i128>)
    ensures
        r == as_i128(s@),
{
    if s.len() > 0 && s[0] == 45 {
        assert(s@.drop_first() =~= s@.subrange(1, s@.len() as int));
        match parse_digits(s, 1) {
            Some(m) => {
                if m <= i128::MAX as u128 {
                    Some(-(m as i128))
                } else if m == i128::MAX as u128 + 1 {
                    Some(i128::MIN)
                } else {
                    None
                }
            },
            None => None,
        }
    } else {
        match parse_u128(s) {
            Some(v) => if v <= i128::MAX as u128 {
                Some(v as i128)
            } else {
                None
            },
            None => None,
        }
    }
}


/// The rows of `ls` one after another.
pub open spec fn joined(ls: Seq<Seq<u8>>) -> Seq<u8>
    decreases ls.len(),
{
    if ls.len() == 0 {
        seq![]
    } else {
        ls[0] + joined(ls.drop_first())
    }
}

/// Writes the rows of `ls` one after another.
pub fn join(ls: &Vec<Vec<u8>>) -> (out: Vec<u8>)
    ensures
        out@ == joined(views(ls@)),
{
    let mut out: Vec<u8> = Vec::new();
    let mut i: usize = 0;
    let ghost all = views(ls@);
    assert(all.skip(0) =~= all);
    while i < ls.len()
        invariant
            0 <= i <= ls@.len(),
            all == views(ls@),
            out@ + joined(all.skip(i as int)) == joined(all),
        decreases ls@.len() - i,
    {
        let ghost before = out@;
        let row = &ls[i];
        let mut j: usize = 0;
        while j < row.len()
            invariant
                0 <= j <= row@.len(),
                out@ == before + row@.take(j as int),
            decreases row@.len() - j,
        {
            out.push(row[j]);
            j += 1;
            assert(out@ =~= before + row@.take(j as int));
        }
        proof {
            assert(row@.take(j as int) =~= row@);
            assert(all.skip(i as int)[0] == row@);
            assert(all.skip(i as int).drop_first() =~= all.skip(i + 1));
            assert(out@ + joined(all.skip(i + 1)) =~= before + joined(all.skip(i as int)));
        }
        i += 1;
    }
    assert(out@ + joined(all.skip(i as int)) =~= out@);
    out
}


/// The unsigned number that `s` spells, if it fits in 128 bits.
pub open spec fn as_u128(s: Seq<u8>) -> Option<u128> {
    match parse_unsigned(s) {
        Some(v) => if v <= u128::MAX {
            Some(v as u128)
        } else {
            None
        },
        None => None,
    }
}

/// The unsigned number that `s` spells, if it fits in 64 bits.
pub open spec fn as_u64(s: Seq<u8>) -> Option<u64> {
    match parse_unsigned(s) {
        Some(v) => if v <= u64::MAX {
            Some(v as u64)
        } else {
            None
        },
        None => None,
    }
}

/// The unsigned number that `s` spells, if it fits in 32 bits.
pub open spec fn as_u32(s: Seq<u8>) -> Option<u32> {
    match parse_unsigned(s) {
        Some(v) => if v <= u32::MAX {
            Some(v as u32)
        } else {
            None
        },
        None => None,
    }
}

/// The signed number that `s` spells, if it fits in 128 bits.
pub open spec fn as_i128(s: Seq<u8>) -> Option<i128> {
    match parse_signed(s) {
        Some(v) => if i128::MIN <= v <= i128::MAX {
            Some(v as i128)
        } else {
            None
        },
        None => None,
    }
}

/// The decimal digits of `n`, without leading zeros.
pub open spec fn decimal_digits(n: nat) -> Seq<u8>
    decreases n,
{
    if n < 10 {
        seq![(48 + n) as u8]
    } else {
        decimal_digits(n / 10).push((48 + n % 10) as u8)
    }
}

/// What is written is read back: the digits of a number spell that number.
pub proof fn lemma_digits_round_trip(n: nat)
    ensures
        all_digits(decimal_digits(n)),
        decimal_digits(n).len() > 0,
        decimal_value(decimal_digits(n)) == n,
        parse_unsigned(decimal_digits(n)) == Some(n),
    decreases n,
{
    if n < 10 {
        let d = decimal_digits(n);
        assert(d.drop_last() =~= Seq::<u8>::empty());
        assert(decimal_value(d.drop_last()) == 0);
    } else {
        lemma_digits_round_trip(n / 10);
        let d = decimal_digits(n);
        assert(d.drop_last() =~= decimal_digits(n / 10));
        assert forall|i: int| 0 <= i < d.len() implies is_digit(#[trigger] d[i]) by {
            if i < d.len() - 1 {
                assert(d[i] == decimal_digits(n / 10)[i]);
            }
        }
    }
    assert(decimal_digits(n)[0] != 43);
}

/// Writes `n` in decimal digits.
pub fn format_u128(n: u128) -> (out: Vec<u8>)
    ensures
        out@ == decimal_digits(n as nat),
{
    let mut rev: Vec<u8> = Vec::new();
    let mut m = n;
    while m >= 10
        invariant
            decimal_digits(n as nat) == decimal_digits(m as nat) + rev@.reverse(),
        decreases m,
    {
        let d = (48 + m % 10) as u8;
        proof {
            let r1 = rev@.push(d);
            assert(r1.reverse() =~= seq![d] + rev@.reverse());
            assert(decimal_digits((m / 10) as nat).push(d) + rev@.reverse() =~= decimal_digits(
                (m / 10) as nat,
            ) + r1.reverse());
        }
        rev.push(d);
        m = m / 10;
    }
    let d = (48 + m) as u8;
    proof {
        let r1 = rev@.push(d);
        assert(r1.reverse() =~= seq![d] + rev@.reverse());
    }
    rev.push(d);
    let mut out: Vec<u8> = Vec::new();
    let mut i: usize = rev.len();
    while i > 0
        invariant
            0 <= i <= rev@.len(),
            out@ == rev@.reverse().take(rev@.len() - i),
        decreases i,
    {
        i -= 1;
        out.push(rev[i]);
        assert(out@ =~= rev@.reverse().take(rev@.len() - i));
    }
    assert(out@ =~= rev@.reverse());
    out
}

/// Bytes below 128 only.
pub open spec fn is_ascii_bytes(b: Seq<u8>) -> bool {
    forall|i: int| 0 <= i < b.len() ==> #[trigger] b[i] < 128
}

/// ASCII is UTF-8.
pub proof fn lemma_ascii_is_utf8(b: Seq<u8>)
    requires
        is_ascii_bytes(b),
    ensures
        valid_utf8(b),
{
    assert(b.subrange(0, 0) =~= Seq::<u8>::empty());
    assert(partial_valid_utf8(b, 0));
    assert forall|i: int| 0 <= 0 <= i < b.len() <= b.len() implies #[trigger] is_leading_byte_width_1(
        b[i],
    ) by {
        let x = b[i];
        assert(x < 128);
        assert(x & 0x80 == 0) by (bit_vector)
            requires
                x < 128,
        ;
    }
    vstd::utf8::partial_valid_utf8_extend_ascii_block(b, 0, b.len() as int);
    assert(b.subrange(0, b.len() as int) =~= b);
}

/// `String::from_utf8`: the string whose UTF-8 encoding is `bytes`, where
/// they are one; otherwise nothing.
#[verifier::external_body]
fn string_from_utf8(bytes: Vec<u8>) -> (r: Option<String>)
    ensures
        r is Some <==> valid_utf8(bytes@),
        r matches Some(s) ==> s@ == decode_utf8(bytes@),
{
    String::from_utf8(bytes).ok()
}

/// The string that `bytes` encode in UTF-8, if they encode one.
pub fn to_text(bytes: Vec<u8>) -> (r: Option<String>)
    ensures
        r is Some <==> valid_utf8(bytes@),
        r matches Some(s) ==> encode_utf8(s@) == bytes@,
{
    let ghost b = bytes@;
    let r = string_from_utf8(bytes);
    proof {
        if valid_utf8(b) {
            vstd::utf8::decode_utf8_encode_utf8(b);
        }
    }
    r
}


/// The unsigned number that `s` spells, if it fits in 8 bits.
pub open spec fn as_u8(s: Seq<u8>) -> Option<u8> {
    match parse_unsigned(s) {
        Some(v) => if v <= u8::MAX {
            Some(v as u8)
        } else {
            None
        },
        None => None,
    }
}

/// Reads an unsigned decimal number that fits in 8 bits.
pub fn parse_u8(s: &[u8]) -> (r: Option<u8>)
    ensures
        r == as_u8(s@),
{
    match parse_u128(s) {
        Some(v) => if v <= u8::MAX as u128 {
            Some(v as u8)
        } else {
            None
        },
        None => None,
    }
}

/// Whether `pat` occurs somewhere in `s`.
pub open spec fn contains_seq(s: Seq<u8>, pat: Seq<u8>) -> bool {
    find_from(s, pat, 0) is Some
}

/// The order of the dictionary on byte strings.
pub open spec fn lex_less(a: Seq<u8>, b: Seq<u8>) -> bool
    decreases a.len(),
{
    if b.len() == 0 {
        false
    } else if a.len() == 0 {
        true
    } else if a[0] != b[0] {
        a[0] < b[0]
    } else {
        lex_less(a.drop_first(), b.drop_first())
    }
}

/// Whether `a` comes before `b` in the dictionary.
pub fn comes_first(a: &[u8], b: &[u8]) -> (r: bool)
    ensures
        r == lex_less(a@, b@),
{
    let mut i: usize = 0;
    assert(a@.skip(0) =~= a@);
    assert(b@.skip(0) =~= b@);
    while i < a.len() && i < b.len()
        invariant
            0 <= i <= a@.len(),
            i <= b@.len(),
            lex_less(a@.skip(i as int), b@.skip(i as int)) == lex_less(a@, b@),
        decreases a@.len() - i,
    {
        assert(a@.skip(i as int)[0] == a@[i as int]);
        assert(b@.skip(i as int)[0] == b@[i as int]);
        assert(a@.skip(i as int).drop_first() =~= a@.skip(i + 1));
        assert(b@.skip(i as int).drop_first() =~= b@.skip(i + 1));
        if a[i] != b[i] {
            return a[i] < b[i];
        }
        i += 1;
    }
    i < b.len()
}

/// Where `x` belongs in the ascending sequence `s`: behind the last entry
/// that does not come after it.
pub open spec fn place_of(s: Seq<Seq<u8>>, x: Seq<u8>) -> int
    decreases s.len(),
{
    if s.len() > 0 && lex_less(x, s.last()) {
        place_of(s.drop_last(), x)
    } else {
        s.len() as int
    }
}

/// `x` put in its place in the ascending sequence `s`, unless it is there already.
pub open spec fn with_name(s: Seq<Seq<u8>>, x: Seq<u8>) -> Seq<Seq<u8>> {
    let p = place_of(s, x);
    if 0 < p <= s.len() && s[p - 1] == x {
        s
    } else {
        s.insert(p, x)
    }
}

/// The byte strings of `s` in the order of the dictionary, each once.
pub open spec fn sorted_names(s: Seq<Seq<u8>>) -> Seq<Seq<u8>>
    decreases s.len(),
{
    if s.len() == 0 {
        seq![]
    } else {
        with_name(sorted_names(s.drop_last()), s.last())
    }
}

/// Sorts byte strings in the order of the dictionary and drops the repeats.
#[verifier::loop_isolation(false)]
pub fn sort_names(v: &Vec<Vec<u8>>) -> (out: Vec<Vec<u8>>)
    ensures
        views(out@) == sorted_names(views(v@)),
{
    let ghost all = views(v@);
    let mut out: Vec<Vec<u8>> = Vec::new();
    let mut i: usize = 0;
    assert(all.take(0) =~= Seq::<Seq<u8>>::empty());
    assert(views(out@) =~= Seq::<Seq<u8>>::empty());
    while i < v.len()
        invariant
            0 <= i <= v@.len(),
            views(out@) == sorted_names(all.take(i as int)),
        decreases v@.len() - i,
    {
        let x = &v[i];
        let ghost s = views(out@);
        let mut p: usize = out.len();
        assert(s.take(p as int) =~= s);
        while p > 0 && comes_first(x.as_slice(), out[p - 1].as_slice())
            invariant
                0 <= p <= out@.len(),
                s == views(out@),
                place_of(s.take(p as int), x@) == place_of(s, x@),
            decreases p,
        {
            assert(s.take(p as int).drop_last() =~= s.take(p - 1));
            p -= 1;
        }
        proof {
            assert(all.take(i + 1).drop_last() =~= all.take(i as int));
            assert(all.take(i + 1).last() == x@);
            if p > 0 {
                assert(s.take(p as int).last() == out@[p - 1]@);
            }
            assert(place_of(s, x@) == p);
        }
        if p > 0 && same_bytes(out[p - 1].as_slice(), x.as_slice()) {
        } else {
            let copy = copy_range(x.as_slice(), 0, x.len());
            assert(copy@ =~= x@);
            out.insert(p, copy);
            assert(views(out@) =~= s.insert(p as int, x@));
        }
        i += 1;
    }
    assert(all.take(i as int) =~= all);
    out
}

/// The byte strings of `names` in a row, with `sep` between each two.
pub open spec fn joined_with(names: Seq<Seq<u8>>, sep: u8) -> Seq<u8>
    decreases names.len(),
{
    if names.len() == 0 {
        seq![]
    } else if names.len() == 1 {
        names[0]
    } else {
        names[0] + seq![sep] + joined_with(names.drop_first(), sep)
    }
}

/// Writes the byte strings of `names` in a row, with `sep` between each two.
#[verifier::loop_isolation(false)]
pub fn join_with(names: &Vec<Vec<u8>>, sep: u8) -> (out: Vec<u8>)
    ensures
        out@ == joined_with(views(names@), sep),
{
    let ghost all = views(names@);
    let mut out: Vec<u8> = Vec::new();
    let mut i: usize = 0;
    assert(all.skip(0) =~= all);
    while i < names.len()
        invariant
            0 <= i <= names@.len(),
            out@ + joined_with(all.skip(i as int), sep) == joined_with(all, sep),
        decreases names@.len() - i,
    {
        let ghost before = out@;
        let row = &names[i];
        let mut j: usize = 0;
        while j < row.len()
            invariant
                0 <= j <= row@.len(),
                out@ == before + row@.take(j as int),
            decreases row@.len() - j,
        {
            out.push(row[j]);
            j += 1;
            assert(out@ =~= before + row@.take(j as int));
        }
        assert(row@.take(j as int) =~= row@);
        if i + 1 < names.len() {
            out.push(sep);
        }
        proof {
            let rest = all.skip(i as int);
            assert(rest[0] == row@);
            assert(rest.drop_first() =~= all.skip(i + 1));
            if i + 1 < names@.len() {
                assert(out@ + joined_with(all.skip(i + 1), sep) =~= before + (rest[0] + seq![sep]
                    + joined_with(rest.drop_first(), sep)));
            } else {
                assert(rest.len() == 1);
                assert(joined_with(all.skip(i + 1), sep) =~= Seq::<u8>::empty());
                assert(out@ + joined_with(all.skip(i + 1), sep) =~= before + rest[0]);
            }
        }
        i += 1;
    }
    assert(out@ + joined_with(all.skip(i as int), sep) =~= out@);
    out
}


/// The index of the first of `names` that is `name`, or their number.
pub open spec fn position(names: Seq<Seq<u8>>, name: Seq<u8>) -> int
    decreases names.len(),
{
    if names.len() == 0 {
        0
    } else if names[0] == name {
        0
    } else {
        1 + position(names.drop_first(), name)
    }
}

/// The index of the first of `names` that is `name`, or their number.
#[verifier::loop_isolation(false)]
pub fn find_name(names: &Vec<Vec<u8>>, name: &[u8]) -> (p: usize)
    ensures
        p == position(views(names@), name@),
        p <= names@.len(),
{
    let ghost all = views(names@);
    let mut i: usize = 0;
    assert(all.skip(0) =~= all);
    while i < names.len()
        invariant
            0 <= i <= names@.len(),
            position(all, name@) == i + position(all.skip(i as int), name@),
        decreases names@.len() - i,
    {
        assert(all.skip(i as int)[0] == names@[i as int]@);
        assert(all.skip(i as int).drop_first() =~= all.skip(i + 1));
        if same_bytes(names[i].as_slice(), name) {
            return i;
        }
        i += 1;
    }
    i
}


/// The signed number that `s` spells, if it fits in 32 bits.
pub open spec fn as_i32(s: Seq<u8>) -> Option<i32> {
    match parse_signed(s) {
        Some(v) => if i32::MIN <= v <= i32::MAX {
            Some(v as i32)
        } else {
            None
        },
        None => None,
    }
}

/// Reads a signed decimal number that fits in 32 bits.
pub fn parse_i32(s: &[u8]) -> (r: Option<i32>)
    ensures
        r == as_i32(s@),
{
    match parse_i128(s) {
        Some(v) => if -2147483648 <= v && v <= 2147483647 {
            Some(v as i32)
        } else {
            None
        },
        None => None,
    }
}

} // verus!
