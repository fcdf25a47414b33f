//! Splitting text into words with the regular expression of a pattern family.
use vstd::prelude::*;
use crate::args::{is_word_regex, WordRegex};
use crate::table::words_of;

verus! {

/// The text of each successive non-overlapping match of the regular
/// expression `pattern` in `text`, from left to right.
pub uninterp spec fn regex_matches(pattern: Seq<char>, text: Seq<char>) -> Seq<Seq<char>>;

/// The lower-case form of `s`.
pub uninterp spec fn lower_of(s: Seq<char>) -> Seq<char>;

/// Relies on `regex::Regex::new`, which compiles `pattern` or fails, and on
/// `regex::Regex::find_iter`, which yields the successive non-overlapping
/// matches in `text`: the result holds the text of each match, in order.
/// `Regex::new` fails only on a pattern that is not valid syntax or that
/// exceeds the default size limit; the pattern of each word family is
/// neither.
#[verifier::external_body]
fn regex_find_all(pattern: &str, text: &str) -> (r: Option<Vec<String>>)
    ensures
        r matches Some(v) ==> words_of(v@) == regex_matches(pattern@, text@),
        is_word_regex(pattern@) ==> r is Some,
{
    let re = regex::Regex::new(pattern).ok()?;
    Some(re.find_iter(text).map(|m| m.as_str().to_string()).collect())
}

/// Relies on `str::to_lowercase`: the lower-case form depends on the
/// characters of `s` alone.
#[verifier::external_body]
fn lowercase(s: &str) -> (r: String)
    ensures
        r@ == lower_of(s@),
{
    s.to_lowercase()
}

/// The text that is tokenized: folded to lower case when counting is
/// case-insensitive.
pub open spec fn folded(text: Seq<char>, case_insensitive: bool) -> Seq<char> {
    if case_insensitive {
        lower_of(text)
    } else {
        text
    }
}

/// Returns the words of `text` under `pattern`, from left to right.
pub fn find_words(pattern: WordRegex, text: &str) -> (r: Vec<String>)
    ensures
        words_of(r@) == regex_matches(pattern.source(), text@),
{
    match regex_find_all(pattern.to_regex(), text) {
        Some(words) => words,
        None => Vec::new(),
    }
}

/// Returns the words of `text` under `pattern`, after folding the whole text
/// to lower case when `case_insensitive` is set.
pub fn tokenize(text: &str, pattern: WordRegex, case_insensitive: bool) -> (r: Vec<String>)
    ensures
        words_of(r@) == regex_matches(
            pattern.source(),
            folded(text@, case_insensitive),
        ),
{
    if case_insensitive {
        let lower = lowercase(text);
        find_words(pattern, lower.as_str())
    } else {
        find_words(pattern, text)
    }
}

} // verus!
