use hapax::tokenizer::{find_words_in_file, lower_ascii, to_lower_char, tokenize};

fn strings(words: &[&str]) -> Vec<String> {
    words.iter().map(|w| w.to_string()).collect()
}

#[test]
fn lowercases_single_chars() {
    assert_eq!(to_lower_char('A'), 'a');
    assert_eq!(to_lower_char('Z'), 'z');
    assert_eq!(to_lower_char('a'), 'a');
    assert_eq!(to_lower_char('1'), '1');
    assert_eq!(to_lower_char('<'), '<');
}

#[test]
fn lowercases_whole_strings() {
    assert_eq!(lower_ascii("HeLLo World"), "hello world");
    assert_eq!(lower_ascii(""), "");
}

#[test]
fn tokenizes_simple_text() {
    assert_eq!(tokenize("The cat sat."), strings(&["the", "cat", "sat"]));
}

#[test]
fn tokenizes_mixed_case() {
    assert_eq!(tokenize("HeLLo WORLD"), strings(&["hello", "world"]));
}

#[test]
fn strips_bracketed_markup() {
    assert_eq!(tokenize("<b>Hello</b> World"), strings(&["hello", "world"]));
}

#[test]
fn keeps_text_after_empty_brackets() {
    assert_eq!(tokenize("<>abc"), strings(&["abc"]));
}

#[test]
fn keeps_text_after_unclosed_bracket() {
    assert_eq!(tokenize("a<bcd"), strings(&["a", "bcd"]));
}

#[test]
fn splits_letter_runs_on_digits() {
    assert_eq!(tokenize("ab1cd"), strings(&["ab", "cd"]));
}

#[test]
fn no_letters_yield_no_tokens() {
    assert_eq!(tokenize("123 456 !!"), Vec::<String>::new());
    assert_eq!(tokenize(""), Vec::<String>::new());
}

#[test]
fn concatenates_tokens_across_lines() {
    let lines = strings(&["a b", "", "c"]);
    assert_eq!(find_words_in_file(&lines), strings(&["a", "b", "c"]));
}

#[test]
fn markup_tags_are_removed_but_their_content_kept() {
    let lines = strings(&["x <i>kept</i> y"]);
    assert_eq!(find_words_in_file(&lines), strings(&["x", "kept", "y"]));
}

#[test]
fn letters_inside_a_bracketed_span_are_removed() {
    let lines = strings(&["x <a href=link> y"]);
    assert_eq!(find_words_in_file(&lines), strings(&["x", "y"]));
}
