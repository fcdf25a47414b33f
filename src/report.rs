//! Choosing the rows of the report, and the cells that make up each line.
use vstd::prelude::*;
use crate::args::TotalColumn;
use crate::count::{all_wf, counts_fit, reversed, sum_counts, StreamWordCount, TotalCount};
use crate::exclusions::Exclusions;
use crate::rank::{ranking, row_view, rows_view};

verus! {

/// Why a run stops before it writes a report.
#[derive(Debug, Clone, Copy, PartialEq, Eq, Structural)]
pub enum RunError {
    /// No input was named.
    NoFiles,
    /// None of the named inputs could be read.
    NoValidFiles,
    /// A warning was issued and warnings are treated as errors.
    StoppedOnWarning,
    /// A word occurs more often over the inputs than can be counted.
    TooManyWords,
}

/// The rows in the chosen direction: reversed when `reverse` is set.
pub open spec fn oriented(s: Seq<(Seq<char>, nat)>, reverse: bool) -> Seq<(Seq<char>, nat)> {
    if reverse {
        s.reverse()
    } else {
        s
    }
}

/// The first `n` rows, or all of them when `n` is zero.
pub open spec fn limited(s: Seq<(Seq<char>, nat)>, n: nat) -> Seq<(Seq<char>, nat)> {
    if n == 0 || n >= s.len() {
        s
    } else {
        s.take(n as int)
    }
}

/// The rows whose words `e` does not exclude, in order.
pub open spec fn allowed(s: Seq<(Seq<char>, nat)>, e: Exclusions) -> Seq<(Seq<char>, nat)>
    decreases s.len(),
{
    if s.len() == 0 {
        s
    } else if e.excludes(s.last().0) {
        allowed(s.drop_last(), e)
    } else {
        allowed(s.drop_last(), e).push(s.last())
    }
}

/// The rows of the report, from the ranked rows: first the direction, then
/// the row limit, and last the exclusions, so that excluded words still take
/// up places within the limit.
pub open spec fn selection(
    ranked: Seq<(Seq<char>, nat)>,
    reverse: bool,
    row_count: nat,
    exclusions: Option<Exclusions>,
) -> Seq<(Seq<char>, nat)> {
    let kept = limited(oriented(ranked, reverse), row_count);
    match exclusions {
        Some(e) => allowed(kept, e),
        None => kept,
    }
}

/// Returns the rows of the report from the ranked rows: reversed when
/// `reverse` is set, cut to the first `row_count` rows unless it is zero,
/// and then without the rows whose words are excluded.
pub fn select_rows(
    ranked: Vec<(String, usize)>,
    reverse: bool,
    row_count: usize,
    exclusions: Option<&Exclusions>,
) -> (r: Vec<(String, usize)>)
    requires
        exclusions matches Some(e) ==> e.wf(),
    ensures
        rows_view(r@) == selection(
            rows_view(ranked@),
            reverse,
            row_count as nat,
            exclusions_view(exclusions),
        ),
{
    let ghost all = rows_view(ranked@);
    let ordered = if reverse {
        reversed(ranked)
    } else {
        ranked
    };
    proof {
        assert(rows_view(ordered@) =~= oriented(all, reverse));
    }
    let ghost kept = limited(rows_view(ordered@), row_count as nat);
    let mut out: Vec<(String, usize)> = Vec::new();
    let n = if row_count == 0 || row_count >= ordered.len() {
        ordered.len()
    } else {
        row_count
    };
    proof {
        assert(kept =~= rows_view(ordered@).take(n as int));
    }
    let mut k: usize = 0;
    while k < n
        invariant
            k <= n <= ordered.len(),
            kept == rows_view(ordered@).take(n as int),
            exclusions matches Some(e) ==> e.wf(),
            rows_view(out@) == match exclusions {
                Some(e) => allowed(kept.take(k as int), *e),
                None => kept.take(k as int),
            },
        decreases n - k,
    {
        let ghost before = out@;
        proof {
            assert(kept.take(k + 1).drop_last() =~= kept.take(k as int));
            assert(kept.take(k + 1).last() == row_view(ordered@[k as int]));
        }
        let keep = match exclusions {
            Some(e) => !e.contains(ordered[k].0.as_str()),
            None => true,
        };
        if keep {
            out.push((ordered[k].0.clone(), ordered[k].1));
            proof {
                assert(rows_view(out@) =~= rows_view(before).push(row_view(ordered@[k as int])));
            }
        }
        proof {
            if exclusions is None {
                assert(kept.take(k + 1) =~= kept.take(k as int).push(row_view(ordered@[k as int])));
            }
        }
        k = k + 1;
    }
    proof {
        assert(kept.take(n as int) =~= kept);
    }
    out
}

/// Returns the counts of the word `word` in each input, in order.
pub fn stream_counts(streams: &Vec<StreamWordCount>, word: &str) -> (r: Vec<usize>)
    requires
        all_wf(streams@),
    ensures
        r.len() == streams.len(),
        forall|i: int| 0 <= i < r.len() ==> r[i] == #[trigger] streams@[i].count_of(word@),
{
    let mut out: Vec<usize> = Vec::new();
    let mut k: usize = 0;
    while k < streams.len()
        invariant
            k <= streams.len(),
            all_wf(streams@),
            out.len() == k,
            forall|i: int| 0 <= i < k ==> out[i] == #[trigger] streams@[i].count_of(word@),
        decreases streams.len() - k,
    {
        proof {
            assert(streams@[k as int].wf());
        }
        let c = streams[k].count(word);
        out.push(c);
        k = k + 1;
    }
    out
}

/// Returns the headings of the report: `word`, then the total column's
/// label when the total column is shown, then the label of each input.
pub fn header(streams: &Vec<StreamWordCount>, display_total: bool, total_label: &str) -> (r: Vec<
    String,
>)
    ensures
        r.len() == streams.len() + 1 + if display_total { 1int } else { 0int },
        r[0]@ == "word"@,
        display_total ==> r[1]@ == total_label@,
        forall|i: int|
            0 <= i < streams.len() ==> r[i + 1 + if display_total { 1int } else { 0int }]@
                == #[trigger] streams@[i].label@,
{
    let mut out: Vec<String> = Vec::new();
    out.push(String::from_str("word"));
    if display_total {
        out.push(total_label.to_owned());
    }
    let first: usize = out.len();
    let mut k: usize = 0;
    while k < streams.len()
        invariant
            k <= streams.len(),
            first == 1 + if display_total { 1int } else { 0int },
            out.len() == first + k,
            out[0]@ == "word"@,
            display_total ==> out[1]@ == total_label@,
            forall|i: int| 0 <= i < k ==> out[first + i]@ == #[trigger] streams@[i].label@,
        decreases streams.len() - k,
    {
        out.push(streams[k].label());
        k = k + 1;
    }
    out
}

/// Checks that at least one input was named.
pub fn check_files(n_files: usize) -> (r: Result<(), RunError>)
    ensures
        r is Err <==> n_files == 0,
        r matches Err(e) ==> e == RunError::NoFiles,
{
    if n_files == 0 {
        Err(RunError::NoFiles)
    } else {
        Ok(())
    }
}

/// Checks the inputs once they are read: a warning stops the run when
/// warnings are errors, and a run with no readable input has nothing to
/// report.
pub fn check_counts(n_counted: usize, werror: bool, warned: bool) -> (r: Result<(), RunError>)
    ensures
        r == if werror && warned {
            Err::<(), RunError>(RunError::StoppedOnWarning)
        } else if n_counted == 0 {
            Err(RunError::NoValidFiles)
        } else {
            Ok(())
        },
{
    if werror && warned {
        Err(RunError::StoppedOnWarning)
    } else if n_counted == 0 {
        Err(RunError::NoValidFiles)
    } else {
        Ok(())
    }
}

/// The set of excluded words, if there is one.
pub open spec fn exclusions_view(e: Option<&Exclusions>) -> Option<Exclusions> {
    match e {
        Some(x) => Some(*x),
        None => None,
    }
}

/// What the report shows: the totals, the rows in order, and whether the
/// total column is shown.
pub struct Report {
    pub total: TotalCount,
    pub rows: Vec<(String, usize)>,
    pub display_total: bool,
}

/// Builds the report over the counted inputs: their total, ranked, turned,
/// cut to `row_count` rows and without the excluded words; and whether the
/// total column is shown.
pub fn build_report(
    streams: &Vec<StreamWordCount>,
    display_total: TotalColumn,
    reverse: bool,
    row_count: usize,
    exclusions: Option<&Exclusions>,
) -> (r: Result<Report, RunError>)
    requires
        all_wf(streams@),
        exclusions matches Some(e) ==> e.wf(),
    ensures
        r is Err <==> (streams.len() == 0 || !counts_fit(streams@)),
        r matches Err(e) ==> e == if streams.len() == 0 {
            RunError::NoValidFiles
        } else {
            RunError::TooManyWords
        },
        r matches Ok(rep) ==> {
            &&& rep.total.wf()
            &&& forall|w: Seq<char>| #[trigger] rep.total.count_of(w) == sum_counts(streams@, w)
            &&& rows_view(rep.rows@) == selection(
                ranking(rows_view(rep.total.counts.rows())),
                reverse,
                row_count as nat,
                exclusions_view(exclusions),
            )
            &&& rep.display_total == display_total.displays(streams.len() as nat)
        },
{
    if streams.len() == 0 {
        return Err(RunError::NoValidFiles);
    }
    let total = match TotalCount::try_from_counts(streams) {
        Some(t) => t,
        None => return Err(RunError::TooManyWords),
    };
    let ranked = total.to_ordered_vec();
    let rows = select_rows(ranked, reverse, row_count, exclusions);
    let shown = display_total.should_display(streams.len());
    Ok(Report { total, rows, display_total: shown })
}

} // verus!
