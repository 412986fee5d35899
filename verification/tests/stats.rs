use hapax::{percent_x100, Stats};

fn strings(words: &[&str]) -> Vec<String> {
    words.iter().map(|w| w.to_string()).collect()
}

fn count(st: &Stats, w: &str) -> usize {
    st.count_of(&w.to_string())
}

#[test]
fn per_file_table_counts_occurrences() {
    let words = strings(&["cat", "sat", "cat", "mat", "ran"]);
    let st = Stats::new(&words, "story.txt".to_string());
    assert_eq!(st.file_name, "story.txt");
    assert_eq!(count(&st, "cat"), 2);
    assert_eq!(count(&st, "sat"), 1);
    assert_eq!(count(&st, "mat"), 1);
    assert_eq!(count(&st, "ran"), 1);
    assert_eq!(count(&st, "dog"), 0);
    assert_eq!(st.unique(), 4);
    assert_eq!(st.total(), 5);
}

#[test]
fn empty_word_list_gives_empty_table() {
    let st = Stats::new(&Vec::new(), "empty".to_string());
    assert_eq!(st.unique(), 0);
    assert_eq!(st.total(), 0);
    assert_eq!(count(&st, "anything"), 0);
}

#[test]
fn total_table_starts_empty() {
    let st = Stats::new_total();
    assert_eq!(st.file_name, "total");
    assert_eq!(st.unique(), 0);
    assert_eq!(st.total(), 0);
}

#[test]
fn extend_accumulates_counts() {
    let mut st = Stats::new_total();
    st.extend(&strings(&["a", "a", "b"]));
    st.extend(&strings(&["b", "b", "c"]));
    assert_eq!(count(&st, "a"), 2);
    assert_eq!(count(&st, "b"), 3);
    assert_eq!(count(&st, "c"), 1);
    assert_eq!(st.unique(), 3);
    assert_eq!(st.total(), 6);
}

#[test]
fn merge_order_does_not_change_counts() {
    let first = strings(&["a", "a", "b"]);
    let second = strings(&["b", "b", "c"]);

    let mut one = Stats::new_total();
    one.extend(&first);
    one.extend(&second);

    let mut other = Stats::new_total();
    other.extend(&second);
    other.extend(&first);

    for w in ["a", "b", "c", "d"] {
        assert_eq!(count(&one, w), count(&other, w));
    }
    assert_eq!(one.unique(), other.unique());
    assert_eq!(one.total(), other.total());
}

#[test]
fn counts_sum_to_total_and_percentages_to_one_hundred() {
    let words = strings(&["cat", "sat", "cat", "mat", "ran"]);
    let st = Stats::new(&words, "story".to_string());
    let total = st.total();

    let mut count_sum: usize = 0;
    let mut numerator_sum: usize = 0;
    for entry in st.term_frequency() {
        count_sum += entry.1;
        numerator_sum += 100 * entry.1;
    }
    assert_eq!(count_sum, total);
    assert_eq!(numerator_sum, 100 * total);
}

#[test]
fn percentages_are_exact_rationals() {
    assert_eq!(percent_x100(2, 5), 4000);
    assert_eq!(percent_x100(1, 3), 3333);
    assert_eq!(percent_x100(0, 7), 0);
    assert_eq!(percent_x100(7, 7), 10000);
    assert_eq!(percent_x100(0, 0), 0);
}
