use wcount::args::{TotalColumn, WordRegex};
use wcount::count::StreamWordCount;
use wcount::exclusions::{split_ascii_words, Exclusions};
use wcount::rank::rank_rows;
use wcount::report::{
    build_report, check_counts, check_files, header, select_rows, stream_counts, RunError,
};
use wcount::result::ResultItem;
use wcount::warning::{set_warning, warning_printed, WarningState};

fn rows(pairs: &[(&str, usize)]) -> Vec<(String, usize)> {
    pairs.iter().map(|(w, c)| (w.to_string(), *c)).collect()
}

fn stream(label: &str, text: &str) -> StreamWordCount {
    StreamWordCount::from_stream(label.to_string(), text, WordRegex::All, false)
}

#[test]
fn limit_applies_before_exclusion() {
    let ranked = rows(&[("a", 5), ("b", 4), ("c", 3), ("d", 2)]);
    let excl = Exclusions::from_stream("a");

    assert_eq!(select_rows(ranked, false, 2, Some(&excl)), rows(&[("b", 4)]));
}

#[test]
fn zero_row_count_keeps_every_row() {
    let ranked = rows(&[("a", 5), ("b", 4), ("c", 3)]);

    assert_eq!(select_rows(ranked.clone(), false, 0, None), ranked);
    assert_eq!(select_rows(ranked.clone(), false, 10, None), ranked);
}

#[test]
fn reverse_applies_before_limit() {
    let ranked = rows(&[("a", 5), ("b", 4), ("c", 3), ("d", 2)]);

    assert_eq!(select_rows(ranked, true, 2, None), rows(&[("d", 2), ("c", 3)]));
}

#[test]
fn total_column_policy() {
    assert!(!TotalColumn::Enabled.should_display(1));
    assert!(TotalColumn::Enabled.should_display(2));
    assert!(!TotalColumn::Disabled.should_display(1));
    assert!(!TotalColumn::Disabled.should_display(5));
    assert!(TotalColumn::Force.should_display(1));
    assert!(TotalColumn::Force.should_display(0));
}

#[test]
fn reranking_keeps_ranked_rows() {
    let ranked = rows(&[("b", 4), ("a", 2), ("c", 2), ("d", 1)]);

    assert_eq!(rank_rows(&ranked), ranked);
}

#[test]
fn ranking_orders_unsorted_rows() {
    let unsorted = rows(&[("c", 2), ("d", 1), ("b", 4), ("a", 2)]);

    assert_eq!(rank_rows(&unsorted), rows(&[("b", 4), ("a", 2), ("c", 2), ("d", 1)]));
}

#[test]
fn exclusions_split_on_ascii_whitespace_only() {
    let excl = Exclusions::from_stream("  the\tof\n\nand,  Or ");

    assert!(excl.contains("the"));
    assert!(excl.contains("of"));
    assert!(excl.contains("and,"));
    assert!(excl.contains("Or"));
    assert!(!excl.contains("and"));
    assert!(!excl.contains("or"));
    assert!(!excl.contains(""));
}

#[test]
fn split_ascii_words_keeps_other_characters() {
    assert_eq!(split_ascii_words("a\u{a0}b  c\r\nd"), vec!["a\u{a0}b", "c", "d"]);
    assert!(split_ascii_words(" \t ").is_empty());
}

#[test]
fn report_rows_and_columns() {
    let streams = vec![stream("one.txt", "x y y z"), stream("two.txt", "y z z z w")];
    let excl = Exclusions::from_stream("w");
    let rep = build_report(&streams, TotalColumn::Enabled, false, 0, Some(&excl)).unwrap();

    assert_eq!(rep.rows, rows(&[("z", 4), ("y", 3), ("x", 1)]));
    assert!(rep.display_total);
    assert_eq!(rep.total.count("w"), 1);
    assert_eq!(stream_counts(&streams, "z"), vec![1, 3]);
    assert_eq!(stream_counts(&streams, "q"), vec![0, 0]);
    assert_eq!(header(&streams, true, "total_count"), vec!["word", "total_count", "one.txt", "two.txt"]);
    assert_eq!(header(&streams, false, "total_count"), vec!["word", "one.txt", "two.txt"]);
}

#[test]
fn report_needs_an_input() {
    let rep = build_report(&Vec::new(), TotalColumn::Force, false, 0, None);

    assert!(matches!(rep, Err(RunError::NoValidFiles)));
}

#[test]
fn run_checks() {
    assert_eq!(check_files(0), Err(RunError::NoFiles));
    assert_eq!(check_files(2), Ok(()));
    assert_eq!(check_counts(0, false, true), Err(RunError::NoValidFiles));
    assert_eq!(check_counts(3, true, true), Err(RunError::StoppedOnWarning));
    assert_eq!(check_counts(3, true, false), Ok(()));
    assert_eq!(check_counts(3, false, true), Ok(()));
}

#[test]
fn warning_state_records_warnings() {
    let mut state = WarningState::new();
    assert!(!warning_printed(&state));
    set_warning(&mut state, true);
    assert!(warning_printed(&state));
}

#[test]
fn result_item_columns() {
    let s = stream("in.txt", "a b b");
    let t = wcount::count::TotalCount::from_counts(&vec![stream("x", "b")]);
    let stream_item = ResultItem::Stream(s);
    let total_item = ResultItem::Total(t);

    assert_eq!(stream_item.label(), "in.txt");
    assert_eq!(stream_item.count("b"), 2);
    assert_eq!(total_item.label(), "total_column");
    assert_eq!(total_item.count("b"), 1);
    assert_eq!(total_item.count("a"), 0);
}

#[test]
fn case_insensitive_stream_is_folded() {
    let s = StreamWordCount::from_stream("-".to_string(), "ÖMÜR Ömür ömür", WordRegex::All, true);

    assert_eq!(s.count("ömür"), 3);
    assert_eq!(s.count("ÖMÜR"), 0);
}
