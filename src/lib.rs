//! Word frequency counting over several text inputs, with a ranked report.
//!
//! Text is split into words by one of a few patterns, counted per input,
//! merged into a total, ranked by count and cut down to the rows to show.

pub mod args;
pub mod count;
pub mod exclusions;
pub mod rank;
pub mod regexes;
pub mod report;
pub mod result;
pub mod table;
pub mod warning;
pub mod words;
