//! Words to leave out of the report, listed in a text separated by ASCII
//! whitespace.
use vstd::prelude::*;
use vstd::string::axiom_spec_iter;
use crate::table::{occurrences, words_of, FrequencyTable};

verus! {

/// The ASCII whitespace characters: space, tab, line feed, form feed and
/// carriage return.
pub open spec fn is_ascii_ws(c: char) -> bool {
    c == ' ' || c == '\t' || c == '\n' || c == '\x0C' || c == '\r'
}

/// After reading `s`: the words finished so far, and the word in progress.
pub open spec fn split_state(s: Seq<char>) -> (Seq<Seq<char>>, Seq<char>)
    decreases s.len(),
{
    if s.len() == 0 {
        (Seq::empty(), Seq::empty())
    } else {
        let prev = split_state(s.drop_last());
        let c = s.last();
        if !is_ascii_ws(c) {
            (prev.0, prev.1.push(c))
        } else if prev.1.len() > 0 {
            (prev.0.push(prev.1), Seq::empty())
        } else {
            prev
        }
    }
}

/// The maximal runs of characters other than ASCII whitespace in `s`, in
/// order.
pub open spec fn ascii_words(s: Seq<char>) -> Seq<Seq<char>> {
    let st = split_state(s);
    if st.1.len() > 0 {
        st.0.push(st.1)
    } else {
        st.0
    }
}

/// Relies on `String::push`, which appends `c` to the end of `s`.
#[verifier::external_body]
fn push_char(s: &mut String, c: char)
    ensures
        final(s)@ == old(s)@.push(c),
{
    s.push(c);
}

fn is_ascii_whitespace(c: char) -> (r: bool)
    ensures
        r == is_ascii_ws(c),
{
    c == ' ' || c == '\t' || c == '\n' || c == '\x0C' || c == '\r'
}

/// Returns the maximal runs of characters other than ASCII whitespace in `s`.
pub fn split_ascii_words(s: &str) -> (r: Vec<String>)
    ensures
        words_of(r@) == ascii_words(s@),
{
    broadcast use axiom_spec_iter;

    let mut words: Vec<String> = Vec::new();
    let mut cur = String::new();
    for c in it: s.chars()
        invariant
            it.seq() == s@,
            words_of(words@) == split_state(s@.take(it.index())).0,
            cur@ == split_state(s@.take(it.index())).1,
    {
        let ghost before = s@.take(it.index());
        proof {
            assert(s@.take(it.index() + 1).drop_last() =~= before);
        }
        if !is_ascii_whitespace(c) {
            push_char(&mut cur, c);
        } else if !cur.as_str().is_empty() {
            let word = cur;
            cur = String::new();
            words.push(word);
            proof {
                assert(words_of(words@) =~= split_state(before).0.push(split_state(before).1));
            }
        }
    }
    proof {
        assert(s@.take(s@.len() as int) =~= s@);
    }
    if !cur.as_str().is_empty() {
        words.push(cur);
        proof {
            assert(words_of(words@) =~= ascii_words(s@));
        }
    }
    words
}

/// A word occurs in a list exactly when the list contains it.
pub proof fn lemma_occurrences_contains(words: Seq<Seq<char>>, w: Seq<char>)
    ensures
        occurrences(words, w) > 0 <==> words.contains(w),
    decreases words.len(),
{
    if words.len() > 0 {
        lemma_occurrences_contains(words.drop_last(), w);
        if words.drop_last().contains(w) {
            let k = choose|k: int| 0 <= k < words.drop_last().len() && words.drop_last()[k] == w;
            assert(words[k] == w);
        }
        if words.contains(w) && words.last() != w {
            let k = choose|k: int| 0 <= k < words.len() && words[k] == w;
            assert(words.drop_last()[k] == w);
        }
    }
}

/// A set of words that are left out of the report.
pub struct Exclusions {
    words: FrequencyTable,
}

impl Exclusions {
    pub closed spec fn wf(&self) -> bool {
        self.words.wf()
    }

    /// `w` is one of the excluded words.
    pub closed spec fn excludes(&self, w: Seq<char>) -> bool {
        self.words.count(w) > 0
    }

    /// Builds the set from the text of a word list: every run of characters
    /// other than ASCII whitespace is a word, taken as it is.
    pub fn from_stream(content: &str) -> (r: Exclusions)
        ensures
            r.wf(),
            forall|w: Seq<char>| #[trigger] r.excludes(w) <==> ascii_words(content@).contains(w),
    {
        let list = split_ascii_words(content);
        let words = FrequencyTable::from_words(&list);
        proof {
            assert forall|w: Seq<char>| #[trigger] words.count(w) > 0 <==> ascii_words(content@).contains(w) by {
                lemma_occurrences_contains(ascii_words(content@), w);
            }
        }
        Exclusions { words }
    }

    /// Returns whether the word `s` is in the set.
    pub fn contains(&self, s: &str) -> (r: bool)
        requires
            self.wf(),
        ensures
            r == self.excludes(s@),
    {
        self.words.get(s) > 0
    }
}

} // verus!
