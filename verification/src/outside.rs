//! The calls into the crates `regex` and `flate2`. What these crates compute
//! is not proved here: each function below is believed to return what its
//! contract says, and the results that take a theory of their own to state
//! have a name instead of a definition.
use vstd::prelude::*;

verus! {

/// The spans of the groups of a match, by byte offsets into the text
/// searched: the whole match first, then each group of the pattern, `None`
/// for a group that took no part.
pub type Groups = Seq<Option<(usize, usize)>>;

/// The views of the groups of the matches.
pub open spec fn group_views(v: Seq<Vec<Option<(usize, usize)>>>) -> Seq<Groups> {
    Seq::new(v.len(), |i: int| v[i]@)
}

/// How many matches of the regular expression `pattern`, taken from left to
/// right without overlap, the text `haystack` has. `None` where `pattern`
/// is no regular expression.
pub uninterp spec fn match_count(pattern: Seq<char>, haystack: Seq<u8>) -> Option<nat>;

/// The pattern is a word: capital letters of ASCII, at least one. Such a
/// pattern matches itself and nothing else.
pub open spec fn is_word(pattern: Seq<char>) -> bool {
    pattern.len() > 0 && forall|i: int|
        0 <= i < pattern.len() ==> 65 <= (#[trigger] pattern[i]) as u32 <= 90
}

/// The bytes that spell a word.
pub open spec fn word_bytes(pattern: Seq<char>) -> Seq<u8> {
    Seq::new(pattern.len(), |i: int| pattern[i] as u8)
}

/// How often `word` stands in `text` from offset `i` on, counted from left
/// to right, the search going on where the word found ends.
pub open spec fn word_count(word: Seq<u8>, text: Seq<u8>, i: int) -> nat
    decreases text.len() - i,
{
    if word.len() == 0 || i < 0 || i + word.len() > text.len() {
        0
    } else if text.subrange(i, i + word.len()) == word {
        1 + word_count(word, text, i + word.len())
    } else {
        word_count(word, text, i + 1)
    }
}

/// The groups of each of those matches.
pub uninterp spec fn captures_of(pattern: Seq<char>, haystack: Seq<u8>) -> Option<Seq<Groups>>;

/// The groups of the first match, if there is a match.
pub uninterp spec fn first_captures_of(pattern: Seq<char>, haystack: Seq<u8>) -> Option<
    Option<Groups>,
>;

/// The text `haystack` with each of those matches replaced by `rep`, in
/// which `$` stands for a group.
pub uninterp spec fn replaced(pattern: Seq<char>, haystack: Seq<u8>, rep: Seq<u8>) -> Option<
    Seq<u8>,
>;

/// The number of bytes that zlib's format takes for `data` at the fastest
/// level of compression. `None` where the compression fails.
pub uninterp spec fn zlib_fast_size(data: Seq<u8>) -> Option<nat>;

/// `regex::bytes::Regex::new`, then `find_iter` and the count of what it
/// yields. The contract names the count, and says what it is for a pattern
/// that is a word: a word matches where it stands, and `find_iter` goes from
/// left to right and looks for the next match where the last one ended.
#[verifier::external_body]
pub(crate) fn count_matches(pattern: &str, haystack: &[u8]) -> (r: Option<usize>)
    ensures
        match r {
            Some(n) => match_count(pattern@, haystack@) == Some(n as nat),
            None => match_count(pattern@, haystack@) is None,
        },
        r matches Some(n) ==> is_word(pattern@) ==> n == word_count(
            word_bytes(pattern@),
            haystack@,
            0,
        ),
{
    let re = regex::bytes::Regex::new(pattern).ok()?;
    Some(re.find_iter(haystack).count())
}

/// `regex::bytes::Regex::new`, then `captures_iter`; of each match the
/// start and end of every group. The contract only names the result.
#[verifier::external_body]
pub(crate) fn all_captures(pattern: &str, haystack: &[u8]) -> (r: Option<
    Vec<Vec<Option<(usize, usize)>>>,
>)
    ensures
        match r {
            Some(v) => captures_of(pattern@, haystack@) == Some(group_views(v@)),
            None => captures_of(pattern@, haystack@) is None,
        },
{
    let re = regex::bytes::Regex::new(pattern).ok()?;
    Some(
        re.captures_iter(haystack).map(
            |c| (0..c.len()).map(|i| c.get(i).map(|m| (m.start(), m.end()))).collect(),
        ).collect(),
    )
}

/// `regex::bytes::Regex::new`, then `captures`; of the match, if there is
/// one, the start and end of every group. The contract only names the result.
#[verifier::external_body]
pub(crate) fn first_captures(pattern: &str, haystack: &[u8]) -> (r: Option<
    Option<Vec<Option<(usize, usize)>>>,
>)
    ensures
        match r {
            Some(Some(v)) => first_captures_of(pattern@, haystack@) == Some(Some(v@)),
            Some(None) => first_captures_of(pattern@, haystack@) == Some(None::<Groups>),
            None => first_captures_of(pattern@, haystack@) is None,
        },
{
    let re = regex::bytes::Regex::new(pattern).ok()?;
    Some(
        re.captures(haystack).map(
            |c| (0..c.len()).map(|i| c.get(i).map(|m| (m.start(), m.end()))).collect(),
        ),
    )
}

/// `regex::bytes::Regex::new`, then `replace_all`. The contract only names
/// the result.
#[verifier::external_body]
pub(crate) fn replace_all(pattern: &str, haystack: &[u8], rep: &[u8]) -> (r: Option<Vec<u8>>)
    ensures
        match r {
            Some(v) => replaced(pattern@, haystack@, rep@) == Some(v@),
            None => replaced(pattern@, haystack@, rep@) is None,
        },
{
    let re = regex::bytes::Regex::new(pattern).ok()?;
    Some(re.replace_all(haystack, rep).into_owned())
}

/// `flate2::write::ZlibEncoder` at `Compression::fast()`, writing into a
/// vector: all of `data` is written, the stream is finished, and the length
/// of what was written out is returned. The contract only names that length.
#[verifier::external_body]
pub(crate) fn compressed_size(data: &[u8]) -> (r: Option<usize>)
    ensures
        match r {
            Some(n) => zlib_fast_size(data@) == Some(n as nat),
            None => zlib_fast_size(data@) is None,
        },
{
    let mut encoder = flate2::write::ZlibEncoder::new(Vec::new(), flate2::Compression::fast());
    std::io::Write::write_all(&mut encoder, data).ok()?;
    Some(encoder.finish().ok()?.len())
}

} // verus!
