//! Ranking rows of words and counts: by count, highest first, and words of
//! equal count in increasing word order, so that the order is reproducible.
use vstd::prelude::*;
use vstd::multiset::group_multiset_axioms;
use vstd::relations::{sorted_by, total_ordering};
use vstd::seq_lib::{group_to_multiset_ensures, lemma_multiset_commutative, lemma_sorted_unique, to_multiset_build};
use crate::report::selection;
use crate::words::{
    compare_words, lemma_word_lt_irreflexive, lemma_word_lt_total, lemma_word_lt_transitive,
    word_lt, WordOrder,
};

verus! {

/// A row as a word and its count.
pub open spec fn row_view(r: (String, usize)) -> (Seq<char>, nat) {
    (r.0@, r.1 as nat)
}

/// Rows as words and counts.
pub open spec fn rows_view(s: Seq<(String, usize)>) -> Seq<(Seq<char>, nat)> {
    s.map_values(|r: (String, usize)| row_view(r))
}

/// `a` ranks strictly before `b`: a higher count, or the same count and a
/// smaller word.
pub open spec fn ranks_before(a: (Seq<char>, nat), b: (Seq<char>, nat)) -> bool {
    a.1 > b.1 || (a.1 == b.1 && word_lt(a.0, b.0))
}

/// `a` may stand before `b` in a ranking.
pub open spec fn rank_le(a: (Seq<char>, nat), b: (Seq<char>, nat)) -> bool {
    !ranks_before(b, a)
}

/// The order of a ranking, as a relation.
pub open spec fn rank_order() -> spec_fn((Seq<char>, nat), (Seq<char>, nat)) -> bool {
    |a: (Seq<char>, nat), b: (Seq<char>, nat)| rank_le(a, b)
}

/// The rows stand in rank order.
pub open spec fn ranked(s: Seq<(Seq<char>, nat)>) -> bool {
    sorted_by(s, rank_order())
}

/// `r` holds the rows of `s`, each as often, in rank order.
pub open spec fn is_ranking_of(r: Seq<(Seq<char>, nat)>, s: Seq<(Seq<char>, nat)>) -> bool {
    ranked(r) && r.to_multiset() == s.to_multiset()
}

/// No row ranks before a row that ranks before it, nor before itself.
pub proof fn lemma_ranks_before_asymmetric(a: (Seq<char>, nat), b: (Seq<char>, nat))
    requires
        ranks_before(a, b),
    ensures
        !ranks_before(b, a),
        a != b,
{
    if a.1 == b.1 {
        lemma_word_lt_irreflexive(a.0, b.0);
    }
}

/// Of two different rows, one ranks before the other.
pub proof fn lemma_ranks_before_total(a: (Seq<char>, nat), b: (Seq<char>, nat))
    ensures
        a == b || ranks_before(a, b) || ranks_before(b, a),
{
    lemma_word_lt_total(a.0, b.0);
}

/// Ranking before is transitive.
pub proof fn lemma_ranks_before_transitive(
    a: (Seq<char>, nat),
    b: (Seq<char>, nat),
    c: (Seq<char>, nat),
)
    requires
        ranks_before(a, b),
        ranks_before(b, c),
    ensures
        ranks_before(a, c),
{
    if a.1 == b.1 && b.1 == c.1 {
        lemma_word_lt_transitive(a.0, b.0, c.0);
    }
}

/// Rank order is a total order on rows.
pub proof fn lemma_rank_order_total()
    ensures
        total_ordering(rank_order()),
{
    let r = rank_order();
    assert forall|x: (Seq<char>, nat)| #[trigger] r(x, x) by {
        if ranks_before(x, x) {
            lemma_ranks_before_asymmetric(x, x);
        }
    }
    assert forall|x: (Seq<char>, nat), y: (Seq<char>, nat)| #[trigger] r(x, y) && #[trigger] r(y, x) implies x == y by {
        lemma_ranks_before_total(x, y);
    }
    assert forall|x: (Seq<char>, nat), y: (Seq<char>, nat), z: (Seq<char>, nat)| #[trigger] r(x, y) && #[trigger] r(y, z) implies r(x, z) by {
        lemma_ranks_before_total(x, y);
        lemma_ranks_before_total(y, z);
        if ranks_before(z, x) {
            if ranks_before(y, x) && ranks_before(z, y) {
                lemma_ranks_before_transitive(z, y, x);
                lemma_ranks_before_asymmetric(z, x);
            }
        }
    }
    assert forall|x: (Seq<char>, nat), y: (Seq<char>, nat)| #[trigger] r(x, y) || #[trigger] r(y, x) by {
        if ranks_before(x, y) {
            lemma_ranks_before_asymmetric(x, y);
        }
    }
}

/// The rows of `s` in rank order.
pub open spec fn ranking(s: Seq<(Seq<char>, nat)>) -> Seq<(Seq<char>, nat)> {
    s.sort_by(rank_order())
}

/// There is one ranking of a sequence of rows.
pub proof fn lemma_ranking_unique(r: Seq<(Seq<char>, nat)>, s: Seq<(Seq<char>, nat)>)
    requires
        is_ranking_of(r, s),
    ensures
        r == ranking(s),
{
    lemma_rank_order_total();
    s.lemma_sort_by_ensures(rank_order());
    lemma_sorted_unique(r, ranking(s), rank_order());
}

/// The ranking of `s` holds its rows in rank order.
pub proof fn lemma_ranking(s: Seq<(Seq<char>, nat)>)
    ensures
        is_ranking_of(ranking(s), s),
{
    lemma_rank_order_total();
    s.lemma_sort_by_ensures(rank_order());
}

/// Ranking is idempotent: rows that already stand in rank order come out of
/// ranking unchanged, and so do the report's rows when neither a reversal
/// nor a row limit is asked for.
pub proof fn lemma_rank_idempotent(s: Seq<(Seq<char>, nat)>, r: Seq<(Seq<char>, nat)>)
    requires
        ranked(s),
        is_ranking_of(r, s),
    ensures
        r == s,
        selection(r, false, 0, None) == s,
{
    lemma_rank_order_total();
    lemma_sorted_unique(r, s, rank_order());
}

/// Returns whether row `a` ranks strictly before row `b`.
pub fn row_before(a: &(String, usize), b: &(String, usize)) -> (r: bool)
    ensures
        r == ranks_before(row_view(*a), row_view(*b)),
{
    if a.1 != b.1 {
        a.1 > b.1
    } else {
        compare_words(a.0.as_str(), b.0.as_str()) == WordOrder::Less
    }
}

/// Merges two runs in rank order into one.
fn merge_ranked(a: &Vec<(String, usize)>, b: &Vec<(String, usize)>) -> (r: Vec<(String, usize)>)
    requires
        ranked(rows_view(a@)),
        ranked(rows_view(b@)),
    ensures
        is_ranking_of(rows_view(r@), rows_view(a@ + b@)),
{
    broadcast use group_to_multiset_ensures, group_multiset_axioms;

    let mut out: Vec<(String, usize)> = Vec::new();
    let mut i: usize = 0;
    let mut j: usize = 0;
    let ghost ord = rank_order();
    proof {
        lemma_rank_order_total();
        assert(rows_view(a@.take(0)) =~= Seq::empty());
        assert(rows_view(b@.take(0)) =~= Seq::empty());
        assert(rows_view(out@) =~= Seq::empty());
    }
    while i < a.len() || j < b.len()
        invariant
            ord == rank_order(),
            total_ordering(ord),
            ranked(rows_view(a@)),
            ranked(rows_view(b@)),
            i <= a.len(),
            j <= b.len(),
            ranked(rows_view(out@)),
            rows_view(out@).to_multiset() == rows_view(a@.take(i as int)).to_multiset().add(
                rows_view(b@.take(j as int)).to_multiset(),
            ),
            forall|p: int, k: int|
                0 <= p < out.len() && i <= k < a.len() ==> ord(
                    #[trigger] rows_view(out@)[p],
                    #[trigger] rows_view(a@)[k],
                ),
            forall|p: int, k: int|
                0 <= p < out.len() && j <= k < b.len() ==> ord(
                    #[trigger] rows_view(out@)[p],
                    #[trigger] rows_view(b@)[k],
                ),
        decreases a.len() - i + b.len() - j,
    {
        let ghost before = out@;
        let take_a = i < a.len() && (j >= b.len() || !row_before(&b[j], &a[i]));
        if take_a {
            let ghost x = rows_view(a@)[i as int];
            proof {
                if j < b.len() {
                    assert(ord(x, rows_view(b@)[j as int]));
                }
                assert forall|k: int| j <= k < b.len() implies ord(x, #[trigger] rows_view(b@)[k]) by {
                    if k > j {
                        assert(ord(rows_view(b@)[j as int], rows_view(b@)[k]));
                    }
                }
            }
            out.push((a[i].0.clone(), a[i].1));
            proof {
                assert(rows_view(out@) =~= rows_view(before).push(x));
                assert(rows_view(a@.take(i + 1)) =~= rows_view(a@.take(i as int)).push(x));
                to_multiset_build(rows_view(before), x);
                to_multiset_build(rows_view(a@.take(i as int)), x);
                assert(rows_view(out@).to_multiset() =~= rows_view(a@.take(i + 1)).to_multiset().add(
                    rows_view(b@.take(j as int)).to_multiset(),
                ));
            }
            i = i + 1;
        } else {
            let ghost y = rows_view(b@)[j as int];
            proof {
                if i < a.len() {
                    lemma_ranks_before_asymmetric(y, rows_view(a@)[i as int]);
                    assert(ord(y, rows_view(a@)[i as int]));
                }
                assert forall|k: int| i <= k < a.len() implies ord(y, #[trigger] rows_view(a@)[k]) by {
                    if k > i {
                        assert(ord(rows_view(a@)[i as int], rows_view(a@)[k]));
                    }
                }
            }
            out.push((b[j].0.clone(), b[j].1));
            proof {
                assert(rows_view(out@) =~= rows_view(before).push(y));
                assert(rows_view(b@.take(j + 1)) =~= rows_view(b@.take(j as int)).push(y));
                to_multiset_build(rows_view(before), y);
                to_multiset_build(rows_view(b@.take(j as int)), y);
                assert(rows_view(out@).to_multiset() =~= rows_view(a@.take(i as int)).to_multiset().add(
                    rows_view(b@.take(j + 1)).to_multiset(),
                ));
            }
            j = j + 1;
        }
    }
    proof {
        assert(a@.take(i as int) =~= a@);
        assert(b@.take(j as int) =~= b@);
        assert(rows_view(a@ + b@) =~= rows_view(a@) + rows_view(b@));
        lemma_multiset_commutative(rows_view(a@), rows_view(b@));
    }
    out
}

fn rank_range(rows: &Vec<(String, usize)>, lo: usize, hi: usize) -> (r: Vec<(String, usize)>)
    requires
        lo <= hi <= rows.len(),
    ensures
        is_ranking_of(rows_view(r@), rows_view(rows@.subrange(lo as int, hi as int))),
    decreases hi - lo,
{
    if hi - lo <= 1 {
        let mut out: Vec<(String, usize)> = Vec::new();
        if hi - lo == 1 {
            out.push((rows[lo].0.clone(), rows[lo].1));
        }
        proof {
            assert(rows_view(out@) =~= rows_view(rows@.subrange(lo as int, hi as int)));
        }
        out
    } else {
        let mid = lo + (hi - lo) / 2;
        let left = rank_range(rows, lo, mid);
        let right = rank_range(rows, mid, hi);
        let r = merge_ranked(&left, &right);
        proof {
            let whole = rows@.subrange(lo as int, hi as int);
            let l = rows@.subrange(lo as int, mid as int);
            let h = rows@.subrange(mid as int, hi as int);
            assert(whole =~= l + h);
            assert(rows_view(whole) =~= rows_view(l) + rows_view(h));
            assert(rows_view(left@ + right@) =~= rows_view(left@) + rows_view(right@));
            lemma_multiset_commutative(rows_view(l), rows_view(h));
            lemma_multiset_commutative(rows_view(left@), rows_view(right@));
        }
        r
    }
}

/// Returns the rows in rank order: higher counts first, and rows of equal
/// count in increasing order of their words.
pub fn rank_rows(rows: &Vec<(String, usize)>) -> (r: Vec<(String, usize)>)
    ensures
        is_ranking_of(rows_view(r@), rows_view(rows@)),
        rows_view(r@) == ranking(rows_view(rows@)),
{
    let r = rank_range(rows, 0, rows.len());
    proof {
        assert(rows@.subrange(0, rows@.len() as int) =~= rows@);
        lemma_ranking_unique(rows_view(r@), rows_view(rows@));
    }
    r
}

} // verus!
