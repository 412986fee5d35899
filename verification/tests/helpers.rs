use hapax::helpers::{
    exclude_junk, lemmatization, preload_junk, preload_lemma, split_whitespace, Output,
};

fn strings(words: &[&str]) -> Vec<String> {
    words.iter().map(|w| w.to_string()).collect()
}

#[test]
fn parses_output_format_names() {
    assert_eq!(Output::from_str("json"), Some(Output::Json));
    assert_eq!(Output::from_str("JSON"), Some(Output::Json));
    assert_eq!(Output::from_str("Txt"), Some(Output::Txt));
    assert_eq!(Output::from_str("csv"), Some(Output::Csv));
    assert_eq!(Output::from_str("yaml"), None);
    assert_eq!(Output::from_str(""), None);
}

#[test]
fn splits_on_whitespace() {
    assert_eq!(split_whitespace("run running  runs"), strings(&["run", "running", "runs"]));
    assert_eq!(split_whitespace("  lead\ttab "), strings(&["lead", "tab"]));
    assert_eq!(split_whitespace(""), Vec::<String>::new());
    assert_eq!(split_whitespace("   "), Vec::<String>::new());
}

#[test]
fn lemma_table_inverts_dictionary_lines() {
    let table = preload_lemma(false, &strings(&["run running runs"]));
    assert_eq!(table.get(&"running".to_string()), Some(&"run".to_string()));
    assert_eq!(table.get(&"runs".to_string()), Some(&"run".to_string()));
    assert_eq!(table.get(&"run".to_string()), None);
}

#[test]
fn later_lines_override_earlier_ones() {
    let table = preload_lemma(false, &strings(&["x a", "y a"]));
    assert_eq!(table.get(&"a".to_string()), Some(&"y".to_string()));
}

#[test]
fn lines_without_inflections_add_nothing() {
    let table = preload_lemma(false, &strings(&["alone", ""]));
    assert_eq!(table.get(&"alone".to_string()), None);
}

#[test]
fn skipping_lemmatization_loads_nothing() {
    let table = preload_lemma(true, &strings(&["run running"]));
    assert_eq!(table.get(&"running".to_string()), None);
}

#[test]
fn junk_set_holds_its_lines() {
    let junk = preload_junk(false, &strings(&["the", "on"]));
    assert!(junk.contains(&"the".to_string()));
    assert!(junk.contains(&"on".to_string()));
    assert!(!junk.contains(&"cat".to_string()));
}

#[test]
fn skipping_junk_loads_nothing() {
    let junk = preload_junk(true, &strings(&["the"]));
    assert!(!junk.contains(&"the".to_string()));
}

#[test]
fn lemmatization_maps_known_tokens_only() {
    let table = preload_lemma(false, &strings(&["run running runs"]));
    let tokens = strings(&["running", "cat", "runs"]);
    assert_eq!(lemmatization(&tokens, &table), strings(&["run", "cat", "run"]));
}

#[test]
fn normalization_twice_equals_once() {
    let table = preload_lemma(false, &strings(&["run running runs", "be was were is"]));
    let tokens = strings(&["running", "was", "cat", "is", "runs"]);
    let once = lemmatization(&tokens, &table);
    let twice = lemmatization(&once, &table);
    assert_eq!(twice, once);
}

#[test]
fn exclude_junk_is_case_insensitive() {
    let junk = preload_junk(false, &strings(&["the"]));
    let tokens = strings(&["The", "cat", "the"]);
    assert_eq!(exclude_junk(&tokens, &junk), strings(&["cat"]));
}

#[test]
fn normalize_then_filter_differs_from_filter_then_normalize() {
    let table = preload_lemma(false, &strings(&["run running"]));
    let junk = preload_junk(false, &strings(&["run"]));
    let tokens = strings(&["running"]);

    let normalized_first = exclude_junk(&lemmatization(&tokens, &table), &junk);
    assert_eq!(normalized_first, Vec::<String>::new());

    let filtered_first = lemmatization(&exclude_junk(&tokens, &junk), &table);
    assert_eq!(filtered_first, strings(&["run"]));
}
