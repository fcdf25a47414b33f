use wcount::args::WordRegex;
use wcount::count::{StreamWordCount, TotalCount};
use wcount::table::FrequencyTable;

fn table(pairs: &[(&str, usize)]) -> FrequencyTable {
    let rows: Vec<(String, usize)> = pairs.iter().map(|(w, c)| (w.to_string(), *c)).collect();
    FrequencyTable::from_entries(&rows)
}

fn stream(label: &str, text: &str) -> StreamWordCount {
    StreamWordCount::from_stream(label.to_string(), text, WordRegex::All, false)
}

#[test]
fn word_count1() {
    let res = StreamWordCount::count_words("lorem ipsum dolor", WordRegex::All, false);

    assert_eq!(res.get("lorem"), 1);
    assert_eq!(res.get("ipsum"), 1);
    assert_eq!(res.get("dolor"), 1);
}

#[test]
fn word_count2() {
    let res = StreamWordCount::count_words(
        "lorem dolor ipsum dolor. lorem? dolor dolor",
        WordRegex::All,
        false,
    );

    assert_eq!(res.get("lorem"), 2);
    assert_eq!(res.get("ipsum"), 1);
    assert_eq!(res.get("dolor"), 4);
}

#[test]
fn word_count3() {
    let res = StreamWordCount::count_words(
        "Lorem dolor Ipsum dolor. lorem? Dolor dolor",
        WordRegex::All,
        true,
    );

    assert_eq!(res.get("lorem"), 2);
    assert_eq!(res.get("ipsum"), 1);
    assert_eq!(res.get("dolor"), 4);
}

#[test]
fn word_count4() {
    let res = StreamWordCount::count_words(
        "Lorem dolor Ipsum dolor. lorem? Dolor dolor",
        WordRegex::All,
        false,
    );

    assert_eq!(res.get("lorem"), 1);
    assert_eq!(res.get("Lorem"), 1);
    assert_eq!(res.get("ipsum"), 0);
    assert_eq!(res.get("dolor"), 3);
    assert_eq!(res.get("Dolor"), 1);
}

#[test]
fn merge_maps1() {
    let mut map1 = table(&[("lorem", 3), ("ipsum", 2), ("dolor", 17)]);
    let map2 = table(&[("lorem", 27), ("ipsum", 29), ("dolor", 15)]);

    TotalCount::merge_maps(&mut map1, &map2);

    assert_eq!(
        map1.entries(),
        table(&[("lorem", 30), ("ipsum", 31), ("dolor", 32)]).entries()
    )
}

#[test]
fn merge_maps2() {
    let mut map1 = table(&[("lorem", 3), ("ipsum", 2), ("dolor", 17)]);
    let map2 = table(&[("lorem", 27), ("ipsum", 29), ("dolor", 15)]);

    TotalCount::merge_maps(&mut map1, &map2);

    assert_eq!(
        map1.entries(),
        table(&[("lorem", 30), ("ipsum", 31), ("dolor", 32)]).entries()
    )
}

#[test]
fn word_list_exactly_three_words() {
    let res = StreamWordCount::count_words("lorem ipsum dolor", WordRegex::All, false);

    assert_eq!(res.len(), 3);
    assert_eq!(res.total_words(), 3);
}

#[test]
fn total_is_sum_in_any_order() {
    let a = stream("a.txt", "lorem ipsum lorem");
    let b = stream("b.txt", "ipsum dolor dolor dolor");
    let c = stream("c.txt", "lorem sit");
    let forward = TotalCount::from_counts(&vec![a, b, c]);

    let a = stream("a.txt", "lorem ipsum lorem");
    let b = stream("b.txt", "ipsum dolor dolor dolor");
    let c = stream("c.txt", "lorem sit");
    let backward = TotalCount::from_counts(&vec![c, b, a]);

    for (w, n) in [("lorem", 3), ("ipsum", 2), ("dolor", 3), ("sit", 1), ("amet", 0)] {
        assert_eq!(forward.count(w), n);
        assert_eq!(backward.count(w), n);
    }
    assert_eq!(forward.counts.entries(), backward.counts.entries());
}

#[test]
fn add_count_matches_from_counts() {
    let a = stream("a.txt", "x y y");
    let b = stream("b.txt", "y z");
    let mut total = TotalCount::from_counts(&Vec::new());
    total.add_count(&a);
    total.add_count(&b);
    let batch = TotalCount::from_counts(&vec![a, b]);

    assert_eq!(total.counts.entries(), batch.counts.entries());
    assert_eq!(total.count("y"), 3);
}

#[test]
fn try_from_counts_accepts_small_inputs() {
    let a = stream("a.txt", "one two two");
    let total = TotalCount::try_from_counts(&vec![a]).unwrap();

    assert_eq!(total.count("two"), 2);
    assert_eq!(total.count("three"), 0);
}

#[test]
fn ranking_breaks_ties_by_word() {
    let s = stream("a.txt", "pear apple fig apple fig banana");
    let total = TotalCount::from_counts(&vec![s]);

    assert_eq!(
        total.to_ordered_vec(),
        vec![
            ("apple".to_string(), 2),
            ("fig".to_string(), 2),
            ("banana".to_string(), 1),
            ("pear".to_string(), 1),
        ]
    );
}

#[test]
fn stream_ordered_vec_is_ascending() {
    let s = stream("a.txt", "b a b c c c");

    assert_eq!(
        s.to_ordered_vec(),
        vec![("a".to_string(), 1), ("b".to_string(), 2), ("c".to_string(), 3)]
    );
    assert_eq!(s.label(), "a.txt");
    assert_eq!(s.count("c"), 3);
}

#[test]
fn table_lookup_and_zero_counts() {
    let t = table(&[("b", 2), ("a", 0), ("b", 5), ("c", 1)]);

    assert_eq!(t.get("a"), 0);
    assert_eq!(t.get("b"), 7);
    assert_eq!(t.get("c"), 1);
    assert_eq!(t.len(), 2);
    assert_eq!(t.total_words(), 8);
}

#[test]
fn table_from_words_counts_repeats() {
    let words: Vec<String> = ["x", "y", "x", "x"].iter().map(|s| s.to_string()).collect();
    let t = FrequencyTable::from_words(&words);

    assert_eq!(t.get("x"), 3);
    assert_eq!(t.get("y"), 1);
    assert_eq!(t.get("z"), 0);
    assert_eq!(FrequencyTable::new().len(), 0);
}

#[test]
fn non_ascii_words_are_ordered_by_bytes() {
    let t = table(&[("ğ", 1), ("z", 1), ("ö", 1)]);

    let words: Vec<&str> = t.entries().iter().map(|(w, _)| w.as_str()).collect();
    assert_eq!(words, vec!["z", "ö", "ğ"]);
}

#[test]
fn checked_merge_reports_overflow() {
    let a = table(&[("x", usize::MAX), ("y", 1)]);
    let b = table(&[("x", 1)]);
    let c = table(&[("y", usize::MAX - 1)]);

    assert!(a.checked_merge(&b).is_none());
    let merged = a.checked_merge(&c).unwrap();
    assert_eq!(merged.get("x"), usize::MAX);
    assert_eq!(merged.get("y"), usize::MAX);
}

#[test]
fn try_from_counts_rejects_overflowing_word() {
    let mut big = FrequencyTable::new();
    TotalCount::merge_maps(&mut big, &table(&[("x", usize::MAX)]));
    let a = StreamWordCount { label: "a".to_string(), counts: big };
    let b = stream("b.txt", "x");

    assert!(TotalCount::try_from_counts(&vec![a, b]).is_none());
}

#[test]
fn reranking_rebuilt_table_keeps_rows() {
    let s = stream("a.txt", "pear apple fig apple fig banana fig");
    let total = TotalCount::from_counts(&vec![s]);
    let ranked = total.to_ordered_vec();
    let rebuilt = TotalCount { counts: FrequencyTable::from_entries(&ranked) };

    assert_eq!(rebuilt.to_ordered_vec(), ranked);
}
