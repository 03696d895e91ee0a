use naive_index::records::parse_record;
use naive_index::tokens::tokenize;

#[test]
fn valid_record_parses() {
    let r = parse_record("{\"id\":\"a\",\"text\":\"cat dog\"}");
    assert_eq!(r, Some(("a".to_string(), "cat dog".to_string())));
}

#[test]
fn field_order_does_not_matter() {
    let r = parse_record("{\"text\":\"cat\",\"id\":\"a\"}");
    assert_eq!(r, Some(("a".to_string(), "cat".to_string())));
}

#[test]
fn missing_text_is_empty() {
    let r = parse_record("{\"id\":\"only\"}");
    assert_eq!(r, Some(("only".to_string(), String::new())));
}

#[test]
fn missing_id_is_malformed() {
    assert_eq!(parse_record("{\"text\":\"cat\"}"), None);
}

#[test]
fn broken_json_is_malformed() {
    assert_eq!(parse_record("{\"id\":\"a\""), None);
    assert_eq!(parse_record(""), None);
    assert_eq!(parse_record("[1, 2]"), None);
}

#[test]
fn json_escapes_are_decoded() {
    let r = parse_record("{\"id\":\"a\\u0041\",\"text\":\"tab\\there\"}");
    assert_eq!(r, Some(("aA".to_string(), "tab\there".to_string())));
}

#[test]
fn tokenize_splits_on_whitespace_runs() {
    assert_eq!(tokenize("  cat  dog\t"), vec!["cat".to_string(), "dog".to_string()]);
    assert_eq!(tokenize(""), Vec::<String>::new());
    assert_eq!(tokenize(" \t\n"), Vec::<String>::new());
    assert_eq!(tokenize("one"), vec!["one".to_string()]);
}

#[test]
fn tokenize_knows_unicode_whitespace() {
    assert_eq!(tokenize("a\u{00a0}b\u{2003}c"), vec![
        "a".to_string(),
        "b".to_string(),
        "c".to_string(),
    ]);
}
