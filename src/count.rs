//! Word counts of one input, and their total over all inputs.
use vstd::prelude::*;
use vstd::seq_lib::group_to_multiset_ensures;
use crate::args::WordRegex;
use crate::rank::{is_ranking_of, rank_rows, ranking, rows_view};
use crate::regexes::{folded, regex_matches, tokenize};
use crate::table::{occurrences, FrequencyTable};

verus! {

/// The counts of every word of one input.
pub struct StreamWordCount {
    /// Names the input in the report: its path, or `standard_input`.
    pub label: String,
    /// Maps each word to its count.
    pub counts: FrequencyTable,
}

impl StreamWordCount {
    pub open spec fn wf(&self) -> bool {
        self.counts.wf()
    }

    /// How often `w` occurs in this input.
    pub open spec fn count_of(&self, w: Seq<char>) -> nat {
        self.counts.count(w)
    }

    /// How many words this input holds.
    pub open spec fn size(&self) -> nat {
        self.counts.size()
    }

    /// Counts the words of `text`, read from the input named `label`.
    pub fn from_stream(label: String, text: &str, pattern: WordRegex, case_insensitive: bool) -> (r:
        StreamWordCount)
        ensures
            r.wf(),
            r.label@ == label@,
            r.size() == regex_matches(pattern.source(), folded(text@, case_insensitive)).len(),
            forall|w: Seq<char>|
                #[trigger] r.count_of(w) == occurrences(
                    regex_matches(pattern.source(), folded(text@, case_insensitive)),
                    w,
                ),
    {
        StreamWordCount { label, counts: Self::count_words(text, pattern, case_insensitive) }
    }

    /// Returns the table of how often each word that `pattern` finds occurs in
    /// `s`; with `case_insensitive`, the whole text is folded to lower case
    /// first.
    pub fn count_words(s: &str, pattern: WordRegex, case_insensitive: bool) -> (r: FrequencyTable)
        ensures
            r.wf(),
            r.size() == regex_matches(pattern.source(), folded(s@, case_insensitive)).len(),
            forall|w: Seq<char>|
                #[trigger] r.count(w) == occurrences(
                    regex_matches(pattern.source(), folded(s@, case_insensitive)),
                    w,
                ),
    {
        let words = tokenize(s, pattern, case_insensitive);
        FrequencyTable::from_words(&words)
    }

    /// Returns the words and their counts in increasing order of count, and
    /// words of equal count in decreasing word order: ranking order reversed.
    pub fn to_ordered_vec(&self) -> (r: Vec<(String, usize)>)
        requires
            self.wf(),
        ensures
            is_ranking_of(rows_view(r@).reverse(), rows_view(self.counts.rows())),
    {
        let ranked = rank_rows(self.counts.entries());
        let r = reversed(ranked);
        proof {
            assert(rows_view(r@).reverse() =~= rows_view(ranked@));
        }
        r
    }

    /// Returns the label of the input.
    pub fn label(&self) -> (r: String)
        ensures
            r@ == self.label@,
    {
        self.label.clone()
    }

    /// Returns the count of the word `s`, zero if it does not occur.
    pub fn count(&self, s: &str) -> (r: usize)
        requires
            self.wf(),
        ensures
            r == self.count_of(s@),
    {
        self.counts.get(s)
    }
}

/// Returns the rows in reverse order.
pub fn reversed(v: Vec<(String, usize)>) -> (r: Vec<(String, usize)>)
    ensures
        r@ == v@.reverse(),
{
    let ghost orig = v@;
    let mut rest = v;
    let mut out: Vec<(String, usize)> = Vec::new();
    while rest.len() > 0
        invariant
            rest@ == orig.take(rest.len() as int),
            out@ == orig.reverse().take(out.len() as int),
            rest.len() + out.len() == orig.len(),
        decreases rest.len(),
    {
        let x = rest.pop().unwrap();
        out.push(x);
        proof {
            assert(rest@ =~= orig.take(rest.len() as int));
            assert(out@ =~= orig.reverse().take(out.len() as int));
        }
    }
    proof {
        assert(out@ =~= orig.reverse());
    }
    out
}

/// Every count in `streams` is well formed.
pub open spec fn all_wf(streams: Seq<StreamWordCount>) -> bool {
    forall|i: int| 0 <= i < streams.len() ==> #[trigger] streams[i].wf()
}

/// The sum of the counts of `w` over `streams`.
pub open spec fn sum_counts(streams: Seq<StreamWordCount>, w: Seq<char>) -> nat
    decreases streams.len(),
{
    if streams.len() == 0 {
        0
    } else {
        sum_counts(streams.drop_last(), w) + streams.last().count_of(w)
    }
}

/// The number of words over all of `streams`.
pub open spec fn sum_sizes(streams: Seq<StreamWordCount>) -> nat
    decreases streams.len(),
{
    if streams.len() == 0 {
        0
    } else {
        sum_sizes(streams.drop_last()) + streams.last().size()
    }
}

/// Every word's sum of counts over `streams` fits in a `usize`.
pub open spec fn counts_fit(streams: Seq<StreamWordCount>) -> bool {
    forall|w: Seq<char>| #[trigger] sum_counts(streams, w) <= usize::MAX
}

/// A word counts no more in the first `k` inputs than in all of them.
pub proof fn lemma_sum_counts_take(s: Seq<StreamWordCount>, k: int, w: Seq<char>)
    requires
        0 <= k <= s.len(),
    ensures
        sum_counts(s.take(k), w) <= sum_counts(s, w),
    decreases s.len(),
{
    if k < s.len() {
        assert(s.take(k) =~= s.drop_last().take(k));
        lemma_sum_counts_take(s.drop_last(), k, w);
    } else {
        assert(s.take(k) =~= s);
    }
}

/// Taking one input out of the sum takes out its count.
pub proof fn lemma_sum_counts_remove(s: Seq<StreamWordCount>, i: int, w: Seq<char>)
    requires
        0 <= i < s.len(),
    ensures
        sum_counts(s, w) == sum_counts(s.remove(i), w) + s[i].count_of(w),
    decreases s.len(),
{
    if i == s.len() - 1 {
        assert(s.remove(i) =~= s.drop_last());
    } else {
        assert(s.remove(i).drop_last() =~= s.drop_last().remove(i));
        assert(s.remove(i).last() == s.last());
        lemma_sum_counts_remove(s.drop_last(), i, w);
    }
}

/// The total does not depend on the order of the inputs: inputs that are
/// a permutation of each other have the same sum of counts for every word.
pub proof fn lemma_sum_counts_any_order(a: Seq<StreamWordCount>, b: Seq<StreamWordCount>, w: Seq<char>)
    requires
        a.to_multiset() == b.to_multiset(),
    ensures
        sum_counts(a, w) == sum_counts(b, w),
    decreases a.len(),
{
    broadcast use group_to_multiset_ensures;

    if a.len() == 0 {
        assert(b.to_multiset().len() == 0);
    } else {
        let x = a.last();
        assert(a.to_multiset().count(x) > 0);
        assert(b.contains(x));
        let k = choose|k: int| 0 <= k < b.len() && b[k] == x;
        assert(a.remove(a.len() - 1) =~= a.drop_last());
        assert(a.drop_last().to_multiset() =~= b.remove(k).to_multiset());
        lemma_sum_counts_any_order(a.drop_last(), b.remove(k), w);
        lemma_sum_counts_remove(b, k, w);
    }
}

/// Totals are blind to the order of the inputs: where `ta` holds each word's
/// sum of counts over `a`, and `tb` over a permutation `b` of `a`, the sums
/// fit in a `usize` for both or for neither, and the two totals have the
/// same entries.
pub proof fn lemma_total_any_order(
    a: Seq<StreamWordCount>,
    b: Seq<StreamWordCount>,
    ta: TotalCount,
    tb: TotalCount,
)
    requires
        a.to_multiset() == b.to_multiset(),
        ta.wf(),
        tb.wf(),
        forall|w: Seq<char>| #[trigger] ta.count_of(w) == sum_counts(a, w),
        forall|w: Seq<char>| #[trigger] tb.count_of(w) == sum_counts(b, w),
    ensures
        counts_fit(a) <==> counts_fit(b),
        rows_view(ta.counts.rows()) == rows_view(tb.counts.rows()),
{
    if counts_fit(a) {
        assert forall|w: Seq<char>| #[trigger] sum_counts(b, w) <= usize::MAX by {
            lemma_sum_counts_any_order(a, b, w);
        }
    }
    if counts_fit(b) {
        assert forall|w: Seq<char>| #[trigger] sum_counts(a, w) <= usize::MAX by {
            lemma_sum_counts_any_order(a, b, w);
        }
    }
    assert forall|w: Seq<char>| #[trigger] ta.counts.count(w) == tb.counts.count(w) by {
        lemma_sum_counts_any_order(a, b, w);
        assert(ta.count_of(w) == tb.count_of(w));
    }
    ta.counts.lemma_same_counts(&tb.counts);
}

/// The total counts of every word over all inputs.
pub struct TotalCount {
    /// Maps each word to its total count.
    pub counts: FrequencyTable,
}

impl TotalCount {
    pub open spec fn wf(&self) -> bool {
        self.counts.wf()
    }

    /// The total count of `w`.
    pub open spec fn count_of(&self, w: Seq<char>) -> nat {
        self.counts.count(w)
    }

    /// Returns the total of the counts of `swc`: for each word, the sum of
    /// its counts in every input.
    pub fn from_counts(swc: &Vec<StreamWordCount>) -> (r: TotalCount)
        requires
            all_wf(swc@),
            counts_fit(swc@),
        ensures
            r.wf(),
            r.counts.size() == sum_sizes(swc@),
            forall|w: Seq<char>| #[trigger] r.count_of(w) == sum_counts(swc@, w),
    {
        match Self::try_from_counts(swc) {
            Some(t) => t,
            None => TotalCount { counts: FrequencyTable::new() },
        }
    }

    /// Returns the total of the counts of `swc`, or `None` if the sum of
    /// some word's counts does not fit in a `usize`.
    pub fn try_from_counts(swc: &Vec<StreamWordCount>) -> (r: Option<TotalCount>)
        requires
            all_wf(swc@),
        ensures
            r is Some <==> counts_fit(swc@),
            r matches Some(t) ==> {
                &&& t.wf()
                &&& t.counts.size() == sum_sizes(swc@)
                &&& forall|w: Seq<char>| #[trigger] t.count_of(w) == sum_counts(swc@, w)
            },
    {
        let mut counts = FrequencyTable::new();
        let mut k: usize = 0;
        while k < swc.len()
            invariant
                k <= swc.len(),
                all_wf(swc@),
                counts.wf(),
                counts.size() == sum_sizes(swc@.take(k as int)),
                forall|w: Seq<char>| #[trigger] counts.count(w) == sum_counts(swc@.take(k as int), w),
            decreases swc.len() - k,
        {
            proof {
                assert(swc@.take(k + 1).drop_last() =~= swc@.take(k as int));
                assert(swc@[k as int].wf());
            }
            match counts.checked_merge(&swc[k].counts) {
                Some(merged) => {
                    counts = merged;
                },
                None => {
                    proof {
                        let w = choose|w: Seq<char>|
                            !(#[trigger] counts.count(w) + swc@[k as int].counts.count(w) <= usize::MAX);
                        lemma_sum_counts_take(swc@, k + 1, w);
                    }
                    return None;
                },
            }
            k = k + 1;
        }
        proof {
            assert(swc@.take(k as int) =~= swc@);
            assert forall|w: Seq<char>| #[trigger] sum_counts(swc@, w) <= usize::MAX by {
                counts.lemma_count_fits(w);
            }
        }
        Some(TotalCount { counts })
    }

    /// Adds the counts of `swc` to this total.
    pub fn add_count(&mut self, swc: &StreamWordCount)
        requires
            old(self).wf(),
            swc.wf(),
            forall|w: Seq<char>| #[trigger] old(self).count_of(w) + swc.count_of(w) <= usize::MAX,
        ensures
            final(self).wf(),
            final(self).counts.size() == old(self).counts.size() + swc.size(),
            forall|w: Seq<char>|
                #[trigger] final(self).count_of(w) == old(self).count_of(w) + swc.count_of(w),
    {
        assert forall|w: Seq<char>| #[trigger] self.counts.count(w) + swc.counts.count(w) <= usize::MAX by {
            assert(self.count_of(w) + swc.count_of(w) <= usize::MAX);
        }
        Self::merge_maps(&mut self.counts, &swc.counts);
    }

    /// Adds the counts of `b` to those of `a`.
    pub fn merge_maps(a: &mut FrequencyTable, b: &FrequencyTable)
        requires
            old(a).wf(),
            b.wf(),
            forall|w: Seq<char>| #[trigger] old(a).count(w) + b.count(w) <= usize::MAX,
        ensures
            final(a).wf(),
            final(a).size() == old(a).size() + b.size(),
            forall|w: Seq<char>| #[trigger] final(a).count(w) == old(a).count(w) + b.count(w),
    {
        let merged = a.merge(b);
        *a = merged;
    }

    /// Returns the words and their total counts in rank order: highest count
    /// first, and words of equal count in increasing word order.
    pub fn to_ordered_vec(&self) -> (r: Vec<(String, usize)>)
        requires
            self.wf(),
        ensures
            is_ranking_of(rows_view(r@), rows_view(self.counts.rows())),
            rows_view(r@) == ranking(rows_view(self.counts.rows())),
    {
        rank_rows(self.counts.entries())
    }

    /// Returns the total count of the word `s`, zero if it occurs nowhere.
    pub fn count(&self, s: &str) -> (r: usize)
        requires
            self.wf(),
        ensures
            r == self.count_of(s@),
    {
        self.counts.get(s)
    }
}

} // verus!
