use hapax::helpers::{preload_junk, preload_lemma, Options, Output};
use hapax::percent_x100;
use hapax::process::{self, for_each, total, ProcessError};
use hapax::Stats;

fn strings(words: &[&str]) -> Vec<String> {
    words.iter().map(|w| w.to_string()).collect()
}

fn options(skip_junk_words: bool, skip_lemmanization: bool) -> Options {
    Options {
        output_type: Output::Json,
        output_path: ".".to_string(),
        skip_junk_words,
        skip_lemmanization,
    }
}

fn count(st: &Stats, w: &str) -> usize {
    st.count_of(&w.to_string())
}

#[test]
fn pipeline_tokenizes_filters_and_counts() {
    let lines = strings(&["The cat sat on the mat. The cat ran."]);
    let junk = preload_junk(false, &strings(&["the", "on"]));
    let lemma = preload_lemma(true, &Vec::new());
    let ops = options(false, true);

    let words = process::file(&lines, &ops, &lemma, &junk).unwrap();
    assert_eq!(words, strings(&["cat", "sat", "mat", "cat", "ran"]));

    let st = Stats::new(&words, "story.txt".to_string());
    assert_eq!(count(&st, "cat"), 2);
    assert_eq!(count(&st, "sat"), 1);
    assert_eq!(count(&st, "mat"), 1);
    assert_eq!(count(&st, "ran"), 1);
    assert_eq!(st.unique(), 4);
    assert_eq!(st.total(), 5);
    assert_eq!(percent_x100(count(&st, "cat"), st.total()), 4000);
}

#[test]
fn pipeline_normalizes_before_filtering() {
    let lines = strings(&["running"]);
    let lemma = preload_lemma(false, &strings(&["run running"]));
    let junk = preload_junk(false, &strings(&["run"]));
    let ops = options(false, false);

    assert_eq!(process::file(&lines, &ops, &lemma, &junk), Err(ProcessError::Empty));
}

#[test]
fn file_without_letters_reports_empty() {
    let lines = strings(&["12345", "!!!"]);
    let lemma = preload_lemma(true, &Vec::new());
    let junk = preload_junk(true, &Vec::new());
    let ops = options(true, true);

    assert_eq!(process::file(&lines, &ops, &lemma, &junk), Err(ProcessError::Empty));
}

#[test]
fn unreadable_file_handed_in_as_no_lines_reports_empty() {
    let lemma = preload_lemma(true, &Vec::new());
    let junk = preload_junk(true, &Vec::new());
    let ops = options(true, true);

    assert_eq!(process::file(&Vec::new(), &ops, &lemma, &junk), Err(ProcessError::Empty));
}

#[test]
fn per_file_mode_skips_empty_files() {
    let files = vec![
        ("a.txt".to_string(), strings(&["x y x"])),
        ("empty.txt".to_string(), strings(&["123"])),
        ("b.txt".to_string(), strings(&["z"])),
    ];
    let lemma = preload_lemma(true, &Vec::new());
    let junk = preload_junk(true, &Vec::new());
    let ops = options(true, true);

    let tables = for_each(&files, &ops, &lemma, &junk);
    assert_eq!(tables.len(), 2);
    assert_eq!(tables[0].file_name, "a.txt");
    assert_eq!(count(&tables[0], "x"), 2);
    assert_eq!(count(&tables[0], "y"), 1);
    assert_eq!(tables[0].total(), 3);
    assert_eq!(tables[1].file_name, "b.txt");
    assert_eq!(count(&tables[1], "z"), 1);
}

#[test]
fn combined_mode_merges_all_files() {
    let files = vec![
        ("f1".to_string(), strings(&["a a b"])),
        ("f2".to_string(), strings(&["b b c"])),
    ];
    let lemma = preload_lemma(true, &Vec::new());
    let junk = preload_junk(true, &Vec::new());
    let ops = options(true, true);

    let st = total(&files, &ops, &lemma, &junk);
    assert_eq!(st.file_name, "total");
    assert_eq!(count(&st, "a"), 2);
    assert_eq!(count(&st, "b"), 3);
    assert_eq!(count(&st, "c"), 1);
    assert_eq!(st.unique(), 3);
    // The combined total is exactly the sum of the counts: this library
    // applies no constant offset during recomputation.
    assert_eq!(st.total(), 6);
}

#[test]
fn combined_counts_are_independent_of_file_order() {
    let forward = vec![
        ("f1".to_string(), strings(&["a a b"])),
        ("f2".to_string(), strings(&["b b c"])),
    ];
    let backward = vec![forward[1].clone(), forward[0].clone()];
    let lemma = preload_lemma(true, &Vec::new());
    let junk = preload_junk(true, &Vec::new());
    let ops = options(true, true);

    let one = total(&forward, &ops, &lemma, &junk);
    let other = total(&backward, &ops, &lemma, &junk);
    for w in ["a", "b", "c", "d"] {
        assert_eq!(count(&one, w), count(&other, w));
    }
    assert_eq!(one.unique(), other.unique());
    assert_eq!(one.total(), other.total());
}
