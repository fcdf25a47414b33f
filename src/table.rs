//! Frequency tables: how often each word occurs.
//!
//! A table keeps its entries sorted by word, one entry for each word that
//! occurs, so that lookups can search and two tables merge in one pass.
use vstd::prelude::*;
use crate::rank::{lemma_ranking, ranking, row_view, rows_view};
use vstd::seq_lib::group_to_multiset_ensures;
use crate::words::{compare_words, lemma_word_lt_irreflexive, lemma_word_lt_transitive, word_lt, WordOrder};

verus! {

/// The words that a sequence of strings holds.
pub open spec fn words_of(s: Seq<String>) -> Seq<Seq<char>> {
    s.map_values(|x: String| x@)
}

/// How often `w` occurs in `words`.
pub open spec fn occurrences(words: Seq<Seq<char>>, w: Seq<char>) -> nat
    decreases words.len(),
{
    if words.len() == 0 {
        0
    } else {
        occurrences(words.drop_last(), w) + if words.last() == w { 1nat } else { 0nat }
    }
}

/// The sum of the counts of the entries for `w`.
pub open spec fn freq(s: Seq<(String, usize)>, w: Seq<char>) -> nat
    decreases s.len(),
{
    if s.len() == 0 {
        0
    } else {
        freq(s.drop_last(), w) + if s.last().0@ == w { s.last().1 as nat } else { 0nat }
    }
}

/// The sum of all counts.
pub open spec fn total(s: Seq<(String, usize)>) -> nat
    decreases s.len(),
{
    if s.len() == 0 {
        0
    } else {
        total(s.drop_last()) + s.last().1 as nat
    }
}

/// Entries in strictly increasing order of their words, so each word once.
pub open spec fn strictly_sorted(s: Seq<(String, usize)>) -> bool {
    forall|i: int, j: int| 0 <= i < j < s.len() ==> word_lt(#[trigger] s[i].0@, #[trigger] s[j].0@)
}

/// No entry has a count of zero.
pub open spec fn positive(s: Seq<(String, usize)>) -> bool {
    forall|i: int| 0 <= i < s.len() ==> #[trigger] s[i].1 > 0
}

/// Appending a word adds one occurrence of it.
pub proof fn lemma_occurrences_push(s: Seq<Seq<char>>, x: Seq<char>, w: Seq<char>)
    ensures
        occurrences(s.push(x), w) == occurrences(s, w) + if x == w { 1nat } else { 0nat },
{
    assert(s.push(x).drop_last() =~= s);
}

/// Appending an entry adds its count to its word and to the total.
pub proof fn lemma_freq_push(s: Seq<(String, usize)>, x: (String, usize))
    ensures
        forall|w: Seq<char>|
            #[trigger] freq(s.push(x), w) == freq(s, w) + if x.0@ == w { x.1 as nat } else { 0nat },
        total(s.push(x)) == total(s) + x.1 as nat,
{
    assert(s.push(x).drop_last() =~= s);
}

/// Counts and totals add up over concatenation.
pub proof fn lemma_freq_concat(a: Seq<(String, usize)>, b: Seq<(String, usize)>)
    ensures
        forall|w: Seq<char>| #[trigger] freq(a + b, w) == freq(a, w) + freq(b, w),
        total(a + b) == total(a) + total(b),
    decreases b.len(),
{
    if b.len() == 0 {
        assert(a + b =~= a);
    } else {
        assert((a + b).drop_last() =~= a + b.drop_last());
        assert((a + b).last() == b.last());
        lemma_freq_concat(a, b.drop_last());
        assert forall|w: Seq<char>| #[trigger] freq(a + b, w) == freq(a, w) + freq(b, w) by {
            assert(freq(a + b, w) == freq(a + b.drop_last(), w) + if b.last().0@ == w {
                b.last().1 as nat
            } else {
                0nat
            });
        }
    }
}

/// Counts and totals add up over adjacent ranges, and a range holds no more than the whole.
pub proof fn lemma_freq_split(s: Seq<(String, usize)>, lo: int, mid: int, hi: int)
    requires
        0 <= lo <= mid <= hi <= s.len(),
    ensures
        forall|w: Seq<char>|
            #[trigger] freq(s.subrange(lo, hi), w) == freq(s.subrange(lo, mid), w) + freq(
                s.subrange(mid, hi),
                w,
            ),
        total(s.subrange(lo, hi)) == total(s.subrange(lo, mid)) + total(s.subrange(mid, hi)),
        total(s.subrange(lo, hi)) <= total(s),
{
    assert(s.subrange(lo, hi) =~= s.subrange(lo, mid) + s.subrange(mid, hi));
    lemma_freq_concat(s.subrange(lo, mid), s.subrange(mid, hi));
    assert(s =~= s.subrange(0, lo) + s.subrange(lo, hi) + s.subrange(hi, s.len() as int));
    lemma_freq_concat(s.subrange(0, lo), s.subrange(lo, hi));
    lemma_freq_concat(s.subrange(0, lo) + s.subrange(lo, hi), s.subrange(hi, s.len() as int));
}

/// Extending a prefix by one entry adds that entry's count.
pub proof fn lemma_freq_take(s: Seq<(String, usize)>, i: int)
    requires
        0 <= i < s.len(),
    ensures
        forall|w: Seq<char>|
            #[trigger] freq(s.take(i + 1), w) == freq(s.take(i), w) + if s[i].0@ == w {
                s[i].1 as nat
            } else {
                0nat
            },
        total(s.take(i + 1)) == total(s.take(i)) + s[i].1 as nat,
{
    assert(s.take(i + 1) =~= s.take(i).push(s[i]));
    lemma_freq_push(s.take(i), s[i]);
}

/// No word counts more than the total.
pub proof fn lemma_freq_le_total(s: Seq<(String, usize)>, w: Seq<char>)
    ensures
        freq(s, w) <= total(s),
    decreases s.len(),
{
    if s.len() > 0 {
        lemma_freq_le_total(s.drop_last(), w);
    }
}

/// A word with no entry has a count of zero.
pub proof fn lemma_freq_absent(s: Seq<(String, usize)>, w: Seq<char>)
    requires
        forall|i: int| 0 <= i < s.len() ==> #[trigger] s[i].0@ != w,
    ensures
        freq(s, w) == 0,
    decreases s.len(),
{
    if s.len() > 0 {
        lemma_freq_absent(s.drop_last(), w);
    }
}

/// In a strictly sorted table the count of a listed word is its entry's count.
pub proof fn lemma_freq_at(s: Seq<(String, usize)>, i: int)
    requires
        strictly_sorted(s),
        0 <= i < s.len(),
    ensures
        freq(s, s[i].0@) == s[i].1,
    decreases s.len(),
{
    let w = s[i].0@;
    if i == s.len() - 1 {
        assert forall|k: int| 0 <= k < s.drop_last().len() implies #[trigger] s.drop_last()[k].0@ != w by {
            assert(word_lt(s[k].0@, s[i].0@));
            lemma_word_lt_irreflexive(s[k].0@, s[i].0@);
        }
        lemma_freq_absent(s.drop_last(), w);
    } else {
        assert(word_lt(s[i].0@, s.last().0@));
        lemma_word_lt_irreflexive(s[i].0@, s.last().0@);
        lemma_freq_at(s.drop_last(), i);
    }
}

/// With no zero counts, there are no more entries than counted words.
pub proof fn lemma_len_le_total(s: Seq<(String, usize)>)
    requires
        positive(s),
    ensures
        s.len() <= total(s),
    decreases s.len(),
{
    if s.len() > 0 {
        assert(s.last().1 > 0);
        lemma_len_le_total(s.drop_last());
    }
}

/// Taking one entry out takes out its count.
pub proof fn lemma_freq_remove(s: Seq<(String, usize)>, i: int)
    requires
        0 <= i < s.len(),
    ensures
        forall|w: Seq<char>|
            #[trigger] freq(s, w) == freq(s.remove(i), w) + if s[i].0@ == w { s[i].1 as nat } else { 0nat },
        total(s) == total(s.remove(i)) + s[i].1,
    decreases s.len(),
{
    if i == s.len() - 1 {
        assert(s.remove(i) =~= s.drop_last());
    } else {
        assert(s.remove(i).drop_last() =~= s.drop_last().remove(i));
        assert(s.remove(i).last() == s.last());
        lemma_freq_remove(s.drop_last(), i);
        assert forall|w: Seq<char>|
            #[trigger] freq(s, w) == freq(s.remove(i), w) + if s[i].0@ == w { s[i].1 as nat } else { 0nat } by {
            assert(freq(s.remove(i), w) == freq(s.remove(i).drop_last(), w) + if s.last().0@ == w {
                s.last().1 as nat
            } else {
                0nat
            });
            assert(s.drop_last()[i] == s[i]);
            assert(freq(s, w) == freq(s.drop_last(), w) + if s.last().0@ == w {
                s.last().1 as nat
            } else {
                0nat
            });
        }
    }
}

/// Counts and totals depend only on which rows there are, not on their order.
pub proof fn lemma_freq_any_order(s: Seq<(String, usize)>, u: Seq<(String, usize)>)
    requires
        rows_view(s).to_multiset() == rows_view(u).to_multiset(),
    ensures
        forall|w: Seq<char>| #[trigger] freq(s, w) == freq(u, w),
        total(s) == total(u),
    decreases s.len(),
{
    broadcast use group_to_multiset_ensures;

    if s.len() == 0 {
        assert(rows_view(u).to_multiset().len() == 0);
        assert(u.len() == 0);
    } else {
        let x = s.last();
        let vs = rows_view(s);
        let vu = rows_view(u);
        assert(vs[vs.len() - 1] == row_view(x));
        assert(vs.to_multiset().count(row_view(x)) > 0);
        assert(vu.contains(row_view(x)));
        let k = choose|k: int| 0 <= k < vu.len() && vu[k] == row_view(x);
        assert(u[k].0@ == x.0@ && u[k].1 == x.1);
        assert(vs.remove(vs.len() - 1) =~= rows_view(s.drop_last()));
        assert(vu.remove(k) =~= rows_view(u.remove(k)));
        lemma_freq_any_order(s.drop_last(), u.remove(k));
        lemma_freq_remove(u, k);
        lemma_freq_push(s.drop_last(), x);
        assert(s.drop_last().push(x) =~= s);
    }
}

/// A word with a count has an entry.
pub proof fn lemma_freq_listed(s: Seq<(String, usize)>, w: Seq<char>) -> (k: int)
    requires
        freq(s, w) > 0,
    ensures
        0 <= k < s.len(),
        s[k].0@ == w,
{
    if forall|i: int| 0 <= i < s.len() ==> #[trigger] s[i].0@ != w {
        lemma_freq_absent(s, w);
    }
    choose|i: int| 0 <= i < s.len() && #[trigger] s[i].0@ == w
}

/// Two sorted tables without zero counts that count every word alike have
/// the same entries.
pub proof fn lemma_rows_determined(s: Seq<(String, usize)>, t: Seq<(String, usize)>)
    requires
        strictly_sorted(s),
        positive(s),
        strictly_sorted(t),
        positive(t),
        forall|w: Seq<char>| #[trigger] freq(s, w) == freq(t, w),
    ensures
        rows_view(s) == rows_view(t),
    decreases s.len() + t.len(),
{
    if s.len() == 0 && t.len() == 0 {
        assert(rows_view(s) =~= rows_view(t));
    } else if s.len() == 0 {
        lemma_freq_at(t, t.len() - 1);
        assert(freq(s, t.last().0@) == 0);
    } else if t.len() == 0 {
        lemma_freq_at(s, s.len() - 1);
        assert(freq(t, s.last().0@) == 0);
    } else {
        let x = s.last();
        let y = t.last();
        lemma_freq_at(s, s.len() - 1);
        lemma_freq_at(t, t.len() - 1);
        let k = lemma_freq_listed(t, x.0@);
        let m = lemma_freq_listed(s, y.0@);
        if k < t.len() - 1 {
            assert(word_lt(t[k].0@, y.0@));
        }
        if m < s.len() - 1 {
            assert(word_lt(s[m].0@, x.0@));
        }
        if x.0@ != y.0@ {
            if k < t.len() - 1 && m < s.len() - 1 {
                lemma_word_lt_irreflexive(x.0@, y.0@);
            }
        }
        assert(x.0@ == y.0@);
        assert(x.1 == y.1);
        let s2 = s.drop_last();
        let t2 = t.drop_last();
        assert(s2.push(x) =~= s);
        assert(t2.push(y) =~= t);
        lemma_freq_push(s2, x);
        lemma_freq_push(t2, y);
        assert forall|w: Seq<char>| #[trigger] freq(s2, w) == freq(t2, w) by {
            assert(freq(s2.push(x), w) == freq(t2.push(y), w));
        }
        lemma_rows_determined(s2, t2);
        assert(rows_view(s) =~= rows_view(s2).push(row_view(x)));
        assert(rows_view(t) =~= rows_view(t2).push(row_view(y)));
    }
}

/// The counts of the words in a text, kept sorted by word.
pub struct FrequencyTable {
    entries: Vec<(String, usize)>,
}

impl FrequencyTable {
    /// Entries sorted strictly by word, none with a count of zero.
    pub closed spec fn wf(&self) -> bool {
        &&& strictly_sorted(self.entries@)
        &&& positive(self.entries@)
    }

    /// How often `w` was counted; zero for a word never seen.
    pub closed spec fn count(&self, w: Seq<char>) -> nat {
        freq(self.entries@, w)
    }

    /// The sum of all counts: the number of words counted.
    pub closed spec fn size(&self) -> nat {
        total(self.entries@)
    }

    /// The entries, in increasing order of their words.
    pub closed spec fn rows(&self) -> Seq<(String, usize)> {
        self.entries@
    }

    /// The table's entries list exactly the counted words, each with its count,
    /// in increasing order of words.
    pub proof fn lemma_rows(&self)
        requires
            self.wf(),
        ensures
            strictly_sorted(self.rows()),
            forall|i: int|
                0 <= i < self.rows().len() ==> #[trigger] self.rows()[i].1 > 0
                    && self.rows()[i].1 == self.count(self.rows()[i].0@),
            forall|w: Seq<char>|
                #[trigger] self.count(w) > 0 ==> exists|i: int|
                    0 <= i < self.rows().len() && #[trigger] self.rows()[i].0@ == w,
            self.rows().len() <= self.size(),
    {
        let s = self.entries@;
        assert forall|i: int| 0 <= i < s.len() implies #[trigger] s[i].1 > 0 && s[i].1 == freq(
            s,
            s[i].0@,
        ) by {
            lemma_freq_at(s, i);
        }
        assert forall|w: Seq<char>| #[trigger] self.count(w) > 0 implies exists|i: int|
            0 <= i < self.rows().len() && #[trigger] self.rows()[i].0@ == w by {
            if forall|i: int| 0 <= i < self.rows().len() ==> #[trigger] self.rows()[i].0@ != w {
                lemma_freq_absent(self.rows(), w);
            }
        }
        lemma_len_le_total(s);
    }

    /// Two tables that count every word alike have the same entries.
    pub proof fn lemma_same_counts(&self, other: &FrequencyTable)
        requires
            self.wf(),
            other.wf(),
            forall|w: Seq<char>| #[trigger] self.count(w) == other.count(w),
        ensures
            rows_view(self.rows()) == rows_view(other.rows()),
    {
        assert forall|w: Seq<char>| #[trigger] freq(self.entries@, w) == freq(other.entries@, w) by {
            assert(self.count(w) == other.count(w));
        }
        lemma_rows_determined(self.entries@, other.entries@);
    }

    /// Rebuilding a table from the ranked rows of this one, and ranking its
    /// rows again, gives the same rows: ranking is idempotent.
    pub proof fn lemma_rerank_rebuilt(&self, r: Seq<(String, usize)>, rebuilt: &FrequencyTable)
        requires
            self.wf(),
            rebuilt.wf(),
            rows_view(r) == ranking(rows_view(self.rows())),
            forall|w: Seq<char>| #[trigger] rebuilt.count(w) == freq(r, w),
        ensures
            total(r) == self.size(),
            ranking(rows_view(rebuilt.rows())) == rows_view(r),
    {
        lemma_ranking(rows_view(self.rows()));
        lemma_freq_any_order(r, self.entries@);
        assert forall|w: Seq<char>| #[trigger] rebuilt.count(w) == self.count(w) by {
            assert(freq(r, w) == freq(self.entries@, w));
        }
        rebuilt.lemma_same_counts(self);
    }

    /// A table with no words.
    pub fn new() -> (r: FrequencyTable)
        ensures
            r.wf(),
            r.size() == 0,
            forall|w: Seq<char>| #[trigger] r.count(w) == 0,
    {
        FrequencyTable { entries: Vec::new() }
    }

    /// The number of distinct words.
    pub fn len(&self) -> (r: usize)
        ensures
            r == self.rows().len(),
    {
        self.entries.len()
    }

    /// Returns the entries, in increasing order of their words.
    pub fn entries(&self) -> (r: &Vec<(String, usize)>)
        requires
            self.wf(),
        ensures
            r@ == self.rows(),
            strictly_sorted(r@),
            forall|i: int| 0 <= i < r.len() ==> #[trigger] r@[i].1 > 0 && r@[i].1 == self.count(r@[i].0@),
            forall|w: Seq<char>|
                #[trigger] self.count(w) > 0 ==> exists|i: int| 0 <= i < r.len() && #[trigger] r@[i].0@ == w,
    {
        proof {
            self.lemma_rows();
        }
        &self.entries
    }

    /// Returns the number of words counted.
    pub fn total_words(&self) -> (r: usize)
        requires
            self.wf(),
            self.size() <= usize::MAX,
        ensures
            r == self.size(),
    {
        let s = &self.entries;
        let mut sum: usize = 0;
        let mut k: usize = 0;
        while k < s.len()
            invariant
                s@ == self.entries@,
                k <= s.len(),
                total(s@) <= usize::MAX,
                sum == total(s@.take(k as int)),
            decreases s.len() - k,
        {
            proof {
                lemma_freq_take(s@, k as int);
                lemma_freq_split(s@, 0, 0, k + 1);
                assert(s@.subrange(0, k + 1) =~= s@.take(k + 1));
            }
            sum = sum + s[k].1;
            k = k + 1;
        }
        proof {
            assert(s@.take(k as int) =~= s@);
        }
        sum
    }

    /// No count of a table exceeds what a `usize` holds.
    pub proof fn lemma_count_fits(&self, w: Seq<char>)
        requires
            self.wf(),
        ensures
            self.count(w) <= usize::MAX,
    {
        self.lemma_rows();
        if self.count(w) > 0 {
            let i = choose|i: int| 0 <= i < self.rows().len() && #[trigger] self.rows()[i].0@ == w;
            assert(self.rows()[i].1 == self.count(w));
        }
    }

    /// Returns how often `w` was counted, zero if never.
    pub fn get(&self, w: &str) -> (r: usize)
        requires
            self.wf(),
        ensures
            r == self.count(w@),
    {
        let s = &self.entries;
        let mut lo: usize = 0;
        let mut hi: usize = s.len();
        while lo < hi
            invariant
                0 <= lo <= hi <= s.len(),
                s@ == self.entries@,
                strictly_sorted(s@),
                forall|k: int| 0 <= k < lo ==> word_lt(#[trigger] s@[k].0@, w@),
                forall|k: int| hi <= k < s.len() ==> word_lt(w@, #[trigger] s@[k].0@),
            decreases hi - lo,
        {
            let mid = lo + (hi - lo) / 2;
            match compare_words(s[mid].0.as_str(), w) {
                WordOrder::Less => {
                    assert forall|k: int| 0 <= k < mid + 1 implies word_lt(#[trigger] s@[k].0@, w@) by {
                        if k < mid {
                            lemma_word_lt_transitive(s@[k].0@, s@[mid as int].0@, w@);
                        }
                    }
                    lo = mid + 1;
                },
                WordOrder::Greater => {
                    assert forall|k: int| mid <= k < s.len() implies word_lt(w@, #[trigger] s@[k].0@) by {
                        if k > mid {
                            lemma_word_lt_transitive(w@, s@[mid as int].0@, s@[k].0@);
                        }
                    }
                    hi = mid;
                },
                WordOrder::Equal => {
                    assert(s@[mid as int].0@ == w@);
                    proof {
                        lemma_freq_at(s@, mid as int);
                    }
                    return s[mid].1;
                },
            }
        }
        proof {
            assert forall|k: int| 0 <= k < s@.len() implies #[trigger] s@[k].0@ != w@ by {
                if k < lo {
                    lemma_word_lt_irreflexive(s@[k].0@, w@);
                } else {
                    lemma_word_lt_irreflexive(w@, s@[k].0@);
                }
            }
            lemma_freq_absent(s@, w@);
        }
        0
    }

    /// Returns a table whose count of each word is the sum of its counts in
    /// `self` and in `other`, or `None` if such a sum does not fit in a
    /// `usize`.
    pub fn checked_merge(&self, other: &FrequencyTable) -> (r: Option<FrequencyTable>)
        requires
            self.wf(),
            other.wf(),
        ensures
            r is Some <==> forall|w: Seq<char>| #[trigger] self.count(w) + other.count(w) <= usize::MAX,
            r matches Some(t) ==> {
                &&& t.wf()
                &&& t.size() == self.size() + other.size()
                &&& forall|w: Seq<char>| #[trigger] t.count(w) == self.count(w) + other.count(w)
            },
    {
        let a = &self.entries;
        let b = &other.entries;
        let mut out: Vec<(String, usize)> = Vec::new();
        let mut i: usize = 0;
        let mut j: usize = 0;
        proof {
            assert(a@.take(0) =~= Seq::<(String, usize)>::empty());
            assert(b@.take(0) =~= Seq::<(String, usize)>::empty());
        }
        while i < a.len() || j < b.len()
            invariant
                a@ == self.entries@,
                b@ == other.entries@,
                strictly_sorted(a@),
                positive(a@),
                strictly_sorted(b@),
                positive(b@),
                i <= a.len(),
                j <= b.len(),
                strictly_sorted(out@),
                positive(out@),
                forall|w: Seq<char>|
                    #[trigger] freq(out@, w) == freq(a@.take(i as int), w) + freq(b@.take(j as int), w),
                total(out@) == total(a@.take(i as int)) + total(b@.take(j as int)),
                forall|p: int, k: int|
                    0 <= p < out.len() && i <= k < a.len() ==> word_lt(
                        #[trigger] out@[p].0@,
                        #[trigger] a@[k].0@,
                    ),
                forall|p: int, k: int|
                    0 <= p < out.len() && j <= k < b.len() ==> word_lt(
                        #[trigger] out@[p].0@,
                        #[trigger] b@[k].0@,
                    ),
            decreases a.len() - i + b.len() - j,
        {
            let ghost before = out@;
            let order = if i < a.len() && j < b.len() {
                compare_words(a[i].0.as_str(), b[j].0.as_str())
            } else if i < a.len() {
                WordOrder::Less
            } else {
                WordOrder::Greater
            };
            match order {
                WordOrder::Less => {
                    proof {
                        lemma_freq_take(a@, i as int);
                        assert forall|k: int| j <= k < b.len() implies word_lt(a@[i as int].0@, #[trigger] b@[k].0@) by {
                            if k > j {
                                lemma_word_lt_transitive(a@[i as int].0@, b@[j as int].0@, b@[k].0@);
                            }
                        }
                    }
                    out.push((a[i].0.clone(), a[i].1));
                    proof {
                        lemma_freq_push(before, a@[i as int]);
                    }
                    i = i + 1;
                },
                WordOrder::Greater => {
                    proof {
                        lemma_freq_take(b@, j as int);
                        assert forall|k: int| i <= k < a.len() implies word_lt(b@[j as int].0@, #[trigger] a@[k].0@) by {
                            if k > i {
                                lemma_word_lt_transitive(b@[j as int].0@, a@[i as int].0@, a@[k].0@);
                            }
                        }
                    }
                    out.push((b[j].0.clone(), b[j].1));
                    proof {
                        lemma_freq_push(before, b@[j as int]);
                    }
                    j = j + 1;
                },
                WordOrder::Equal => {
                    if a[i].1 > usize::MAX - b[j].1 {
                        proof {
                            lemma_freq_at(a@, i as int);
                            lemma_freq_at(b@, j as int);
                            let w = a@[i as int].0@;
                            assert(self.count(w) + other.count(w) > usize::MAX);
                        }
                        return None;
                    }
                    proof {
                        lemma_freq_take(a@, i as int);
                        lemma_freq_take(b@, j as int);
                    }
                    let merged = (a[i].0.clone(), a[i].1 + b[j].1);
                    out.push(merged);
                    proof {
                        lemma_freq_push(before, merged);
                    }
                    i = i + 1;
                    j = j + 1;
                },
            }
        }
        proof {
            assert(a@.take(i as int) =~= a@);
            assert(b@.take(j as int) =~= b@);
        }
        let r = FrequencyTable { entries: out };
        proof {
            assert forall|w: Seq<char>| #[trigger] self.count(w) + other.count(w) <= usize::MAX by {
                r.lemma_count_fits(w);
            }
        }
        Some(r)
    }

    /// Returns a table whose count of each word is the sum of its counts in
    /// `self` and in `other`.
    pub fn merge(&self, other: &FrequencyTable) -> (r: FrequencyTable)
        requires
            self.wf(),
            other.wf(),
            forall|w: Seq<char>| #[trigger] self.count(w) + other.count(w) <= usize::MAX,
        ensures
            r.wf(),
            r.size() == self.size() + other.size(),
            forall|w: Seq<char>| #[trigger] r.count(w) == self.count(w) + other.count(w),
    {
        match self.checked_merge(other) {
            Some(t) => t,
            None => FrequencyTable::new(),
        }
    }

    /// Returns the table of weighted entries: each word is counted by the sum
    /// of the counts of the entries for it, in whatever order they come.
    pub fn from_entries(rows: &Vec<(String, usize)>) -> (r: FrequencyTable)
        requires
            total(rows@) <= usize::MAX,
        ensures
            r.wf(),
            r.size() == total(rows@),
            forall|w: Seq<char>| #[trigger] r.count(w) == freq(rows@, w),
    {
        let r = Self::tally(rows, 0, rows.len());
        proof {
            assert(rows@.subrange(0, rows@.len() as int) =~= rows@);
        }
        r
    }

    fn tally(rows: &Vec<(String, usize)>, lo: usize, hi: usize) -> (r: FrequencyTable)
        requires
            lo <= hi <= rows.len(),
            total(rows@) <= usize::MAX,
        ensures
            r.wf(),
            r.size() == total(rows@.subrange(lo as int, hi as int)),
            forall|w: Seq<char>|
                #[trigger] r.count(w) == freq(rows@.subrange(lo as int, hi as int), w),
        decreases hi - lo,
    {
        if hi - lo == 0 {
            FrequencyTable::new()
        } else if hi - lo == 1 {
            let ghost one = rows@.subrange(lo as int, hi as int);
            proof {
                assert(one.drop_last() =~= Seq::<(String, usize)>::empty());
                assert(total(one.drop_last()) == 0);
                assert(one.last() == rows@[lo as int]);
                assert(total(one) == rows@[lo as int].1);
                assert forall|w: Seq<char>| #[trigger] freq(one, w) == if rows@[lo as int].0@ == w {
                    rows@[lo as int].1 as nat
                } else {
                    0nat
                } by {
                    assert(freq(one.drop_last(), w) == 0);
                }
            }
            if rows[lo].1 == 0 {
                FrequencyTable::new()
            } else {
                let mut entries: Vec<(String, usize)> = Vec::new();
                entries.push((rows[lo].0.clone(), rows[lo].1));
                proof {
                    assert(entries@.drop_last() =~= Seq::<(String, usize)>::empty());
                }
                FrequencyTable { entries }
            }
        } else {
            let mid = lo + (hi - lo) / 2;
            let left = Self::tally(rows, lo, mid);
            let right = Self::tally(rows, mid, hi);
            proof {
                lemma_freq_split(rows@, lo as int, mid as int, hi as int);
                lemma_freq_split(rows@, 0, 0, rows@.len() as int);
                assert(rows@.subrange(0, rows@.len() as int) =~= rows@);
                assert forall|w: Seq<char>| #[trigger] left.count(w) + right.count(w) <= usize::MAX by {
                    lemma_freq_le_total(rows@.subrange(lo as int, hi as int), w);
                }
            }
            left.merge(&right)
        }
    }

    /// Returns the table that counts each word of `words` once for each time
    /// it occurs there.
    pub fn from_words(words: &Vec<String>) -> (r: FrequencyTable)
        ensures
            r.wf(),
            r.size() == words.len(),
            forall|w: Seq<char>| #[trigger] r.count(w) == occurrences(words_of(words@), w),
    {
        let mut rows: Vec<(String, usize)> = Vec::new();
        let mut k: usize = 0;
        while k < words.len()
            invariant
                k <= words.len(),
                total(rows@) == k,
                forall|w: Seq<char>|
                    #[trigger] freq(rows@, w) == occurrences(words_of(words@.take(k as int)), w),
            decreases words.len() - k,
        {
            let ghost before = rows@;
            rows.push((words[k].clone(), 1));
            proof {
                lemma_freq_push(before, rows@.last());
                assert(words_of(words@.take(k + 1)) =~= words_of(words@.take(k as int)).push(
                    words@[k as int]@,
                ));
                assert forall|w: Seq<char>| #[trigger] freq(rows@, w) == occurrences(
                    words_of(words@.take(k + 1)),
                    w,
                ) by {
                    lemma_occurrences_push(words_of(words@.take(k as int)), words@[k as int]@, w);
                }
            }
            k = k + 1;
        }
        proof {
            assert(words@.take(k as int) =~= words@);
        }
        Self::from_entries(&rows)
    }
}

} // verus!
