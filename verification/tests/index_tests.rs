use naive_index::index::SearchIndex;

fn corpus() -> Vec<String> {
    vec![
        String::from("{\"id\":\"a\",\"text\":\"cat dog\"}"),
        String::from("{\"id\":\"b\",\"text\":\"dog bird\"}"),
        String::from("{\"id\":\"c\",\"text\":\"cat bird\"}"),
    ]
}

#[test]
fn example_corpus_pairs() {
    let idx = SearchIndex::new(&corpus());
    assert_eq!(idx.search("cat", "dog"), vec!["a".to_string()]);
    assert_eq!(idx.search("dog", "bird"), vec!["b".to_string()]);
    assert_eq!(idx.search("cat", "bird"), vec!["c".to_string()]);
    assert_eq!(idx.search("cat", "fish"), Vec::<String>::new());
}

#[test]
fn search_is_symmetric() {
    let idx = SearchIndex::new(&corpus());
    assert_eq!(idx.search("cat", "dog"), idx.search("dog", "cat"));
    assert_eq!(idx.search("dog", "bird"), idx.search("bird", "dog"));
    assert_eq!(idx.search("cat", "fish"), idx.search("fish", "cat"));
}

#[test]
fn search_is_idempotent_and_read_only() {
    let idx = SearchIndex::new(&corpus());
    let first = idx.search("cat", "dog");
    let other = idx.search("dog", "bird");
    let again = idx.search("cat", "dog");
    assert_eq!(first, again);
    assert_eq!(other, idx.search("dog", "bird"));
}

#[test]
fn empty_corpus_yields_empty_results() {
    let idx = SearchIndex::new(&Vec::new());
    assert_eq!(idx.search("cat", "dog"), Vec::<String>::new());
    assert_eq!(idx.search("", ""), Vec::<String>::new());
}

#[test]
fn corpus_of_only_malformed_lines_is_empty() {
    let lines = vec![
        String::from("not json at all"),
        String::from("{\"text\":\"no id field\"}"),
        String::from("{\"id\":7}"),
    ];
    let idx = SearchIndex::new(&lines);
    assert_eq!(idx.search("no", "field"), Vec::<String>::new());
}

#[test]
fn repeated_token_contributes_one_entry() {
    let lines = vec![String::from("{\"id\":\"d\",\"text\":\"cat cat cat\"}")];
    let idx = SearchIndex::new(&lines);
    assert_eq!(idx.search("cat", "cat"), vec!["d".to_string()]);
}

#[test]
fn malformed_record_does_not_shift_local_ids() {
    let with_bad = vec![
        String::from("{\"id\":\"a\",\"text\":\"cat dog\"}"),
        String::from("{broken"),
        String::from("{\"id\":\"b\",\"text\":\"cat dog\"}"),
    ];
    let without_bad = vec![
        String::from("{\"id\":\"a\",\"text\":\"cat dog\"}"),
        String::from("{\"id\":\"b\",\"text\":\"cat dog\"}"),
    ];
    let one = SearchIndex::new(&with_bad);
    let two = SearchIndex::new(&without_bad);
    assert_eq!(one.search("cat", "dog"), vec!["a".to_string(), "b".to_string()]);
    assert_eq!(one.search("cat", "dog"), two.search("cat", "dog"));
}

#[test]
fn missing_text_defaults_to_empty() {
    let lines = vec![
        String::from("{\"id\":\"x\"}"),
        String::from("{\"id\":\"y\",\"text\":\"w\"}"),
    ];
    let idx = SearchIndex::new(&lines);
    assert_eq!(idx.search("w", "w"), vec!["y".to_string()]);
}

#[test]
fn escaped_strings_round_trip() {
    let lines = vec![String::from("{\"id\":\"a\\\"b\",\"text\":\"c\\\\d e\"}")];
    let idx = SearchIndex::new(&lines);
    assert_eq!(idx.search("c\\d", "e"), vec!["a\"b".to_string()]);
}

#[test]
fn duplicate_canonical_ids_are_kept_per_document() {
    let lines = vec![
        String::from("{\"id\":\"same\",\"text\":\"cat dog\"}"),
        String::from("{\"id\":\"same\",\"text\":\"cat dog\"}"),
    ];
    let idx = SearchIndex::new(&lines);
    assert_eq!(idx.search("cat", "dog"), vec!["same".to_string(), "same".to_string()]);
}

#[test]
fn results_come_in_arrival_order() {
    let lines = vec![
        String::from("{\"id\":\"z\",\"text\":\"cat dog\"}"),
        String::from("{\"id\":\"m\",\"text\":\"dog\"}"),
        String::from("{\"id\":\"a\",\"text\":\"dog cat\"}"),
    ];
    let idx = SearchIndex::new(&lines);
    assert_eq!(idx.search("cat", "dog"), vec!["z".to_string(), "a".to_string()]);
}
