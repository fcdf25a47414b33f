//! One column of the report: the totals, or the counts of one input.
use vstd::prelude::*;
use crate::count::{StreamWordCount, TotalCount};

verus! {

/// A column of counts in the report.
pub enum ResultItem {
    Total(TotalCount),
    Stream(StreamWordCount),
}

impl ResultItem {
    pub open spec fn wf(&self) -> bool {
        match self {
            ResultItem::Total(t) => t.wf(),
            ResultItem::Stream(s) => s.wf(),
        }
    }

    /// The count of `w` in this column.
    pub open spec fn count_of(&self, w: Seq<char>) -> nat {
        match self {
            ResultItem::Total(t) => t.count_of(w),
            ResultItem::Stream(s) => s.count_of(w),
        }
    }

    /// Returns the heading of the column: `total_column` for the totals, the
    /// input's label otherwise.
    pub fn label(&self) -> (r: String)
        ensures
            r@ == match self {
                ResultItem::Total(_) => "total_column"@,
                ResultItem::Stream(s) => s.label@,
            },
    {
        match self {
            ResultItem::Total(_) => String::from_str("total_column"),
            ResultItem::Stream(s) => s.label(),
        }
    }

    /// Returns the count of the word `s` in this column, zero if absent.
    pub fn count(&self, s: &str) -> (r: usize)
        requires
            self.wf(),
        ensures
            r == self.count_of(s@),
    {
        match self {
            ResultItem::Total(total) => total.count(s),
            ResultItem::Stream(stream) => stream.count(s),
        }
    }
}

} // verus!
