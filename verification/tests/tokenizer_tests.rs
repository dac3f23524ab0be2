use tfidf_index::tokenize_text;

#[test]
fn empty_text_yields_no_tokens() {
    assert!(tokenize_text("").is_empty());
}

#[test]
fn text_without_word_characters_yields_no_tokens() {
    assert!(tokenize_text("12 34 5!? ...").is_empty());
    assert!(tokenize_text("   \t\n").is_empty());
}

#[test]
fn tokens_are_case_folded_and_split_on_separators() {
    let toks = tokenize_text("The CAT sat!");
    assert_eq!(toks, vec!["the".to_string(), "cat".to_string(), "sat".to_string()]);
}

#[test]
fn digits_separate_tokens() {
    let toks = tokenize_text("ab12cd");
    assert_eq!(toks, vec!["ab".to_string(), "cd".to_string()]);
}

#[test]
fn duplicates_are_kept_in_order() {
    let toks = tokenize_text("word, Word; WORD");
    assert_eq!(toks, vec!["word".to_string(), "word".to_string(), "word".to_string()]);
}
