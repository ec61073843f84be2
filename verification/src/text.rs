use unidecode::unidecode;
use vstd::prelude::*;

verus! {

/// `pat` stands at index `i` of `text`.
pub open spec fn occurs_at(pat: Seq<char>, text: Seq<char>, i: int) -> bool {
    0 <= i && i + pat.len() <= text.len() && text.subrange(i, i + pat.len()) == pat
}

/// `pat` stands somewhere in `text`.
pub open spec fn occurs_in(pat: Seq<char>, text: Seq<char>) -> bool {
    exists|i: int| occurs_at(pat, text, i)
}

/// `text` with every leading repetition of `pat` removed.
pub open spec fn strip_prefixes(text: Seq<char>, pat: Seq<char>) -> Seq<char>
    decreases text.len(),
{
    if 0 < pat.len() <= text.len() && text.take(pat.len() as int) == pat {
        strip_prefixes(text.skip(pat.len() as int), pat)
    } else {
        text
    }
}

/// `text` with every trailing repetition of `pat` removed.
pub open spec fn strip_suffixes(text: Seq<char>, pat: Seq<char>) -> Seq<char>
    decreases text.len(),
{
    if 0 < pat.len() <= text.len() && text.skip(text.len() - pat.len()) == pat {
        strip_suffixes(text.take(text.len() - pat.len()), pat)
    } else {
        text
    }
}

/// `text` without its leading and trailing white space, as `str::trim` returns it.
pub uninterp spec fn trimmed(text: Seq<char>) -> Seq<char>;

/// The lower-case form of `text`, as `str::to_lowercase` returns it.
pub uninterp spec fn lowercase(text: Seq<char>) -> Seq<char>;

/// `text` with each occurrence of `from` replaced by `to`, the occurrences
/// taken from the left and not overlapping.
pub open spec fn replaced(text: Seq<char>, from: Seq<char>, to: Seq<char>) -> Seq<char>
    decreases text.len(),
{
    if from.len() == 0 || text.len() < from.len() {
        text
    } else if text.take(from.len() as int) == from {
        to + replaced(text.skip(from.len() as int), from, to)
    } else {
        seq![text[0]] + replaced(text.skip(1), from, to)
    }
}

/// The ASCII transliteration of `text`, as `unidecode::unidecode` returns it.
pub uninterp spec fn unidecoded(text: Seq<char>) -> Seq<char>;

/// `str::contains` with a string pattern: whether the pattern is a substring.
#[verifier::external_body]
pub(crate) fn str_contains(text: &str, pat: &str) -> (r: bool)
    ensures
        r == occurs_in(pat@, text@),
{
    text.contains(pat)
}

/// `str::trim`: the slice without leading and trailing white space.
#[verifier::external_body]
pub(crate) fn str_trim(text: &str) -> (r: &str)
    ensures
        r@ == trimmed(text@),
{
    text.trim()
}

/// `str::trim_start_matches` with a non-empty string pattern: the slice
/// that is left when the pattern is removed from the start as often as it
/// stands there.
#[verifier::external_body]
pub(crate) fn str_trim_start_matches<'a>(text: &'a str, pat: &str) -> (r: &'a str)
    requires
        pat@.len() > 0,
    ensures
        r@ == strip_prefixes(text@, pat@),
{
    text.trim_start_matches(pat)
}

/// `str::trim_end_matches` with a non-empty string pattern: the slice that
/// is left when the pattern is removed from the end as often as it stands
/// there.
#[verifier::external_body]
pub(crate) fn str_trim_end_matches<'a>(text: &'a str, pat: &str) -> (r: &'a str)
    requires
        pat@.len() > 0,
    ensures
        r@ == strip_suffixes(text@, pat@),
{
    text.trim_end_matches(pat)
}

/// `str::to_lowercase`: the lower-case form as a new string.
#[verifier::external_body]
pub(crate) fn str_to_lowercase(text: &str) -> (r: String)
    ensures
        r@ == lowercase(text@),
{
    text.to_lowercase()
}

/// `str::replace` with a non-empty string pattern: a new string in which
/// each match of the pattern, found from the left without overlap, is
/// replaced.
#[verifier::external_body]
pub(crate) fn str_replace(text: &str, from: &str, to: &str) -> (r: String)
    requires
        from@.len() > 0,
    ensures
        r@ == replaced(text@, from@, to@),
{
    text.replace(from, to)
}

/// `unidecode::unidecode`: the ASCII transliteration of the text, character
/// by character from the crate's table.
#[verifier::external_body]
pub(crate) fn str_unidecode(text: &str) -> (r: String)
    ensures
        r@ == unidecoded(text@),
{
    unidecode(text)
}

} // verus!
