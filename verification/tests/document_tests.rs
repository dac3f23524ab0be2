use tfidf_index::{index_from_str, Document};

fn raw_count(doc: &Document, term: &str) -> Option<usize> {
    doc.term_freq.iter().find(|e| e.0 == term).map(|e| e.1)
}

#[test]
fn raw_counts_are_exact() {
    let doc = Document::new("the cat sat on the mat", String::from("a.txt"));
    assert_eq!(doc.count_words, 6);
    assert_eq!(doc.path, "a.txt");
    assert_eq!(doc.term_freq.len(), 5);
    assert_eq!(raw_count(&doc, "the"), Some(2));
    assert_eq!(raw_count(&doc, "cat"), Some(1));
    assert_eq!(raw_count(&doc, "sat"), Some(1));
    assert_eq!(raw_count(&doc, "on"), Some(1));
    assert_eq!(raw_count(&doc, "mat"), Some(1));
    assert_eq!(raw_count(&doc, "dog"), None);
}

#[test]
fn raw_counts_sum_to_total_word_count() {
    let doc = Document::new("a b c a b a??b", String::from("s.txt"));
    let sum: usize = doc.term_freq.iter().map(|e| e.1).sum();
    assert_eq!(sum, doc.count_words);
    assert_eq!(doc.count_words, 7);
}

#[test]
fn normalized_frequencies_sum_to_about_one() {
    let doc = Document::new("alpha beta beta gamma gamma gamma", String::from("f.txt"));
    let total = doc.count_words as f32;
    let sum: f32 = doc.term_freq.iter().map(|e| e.1 as f32 / total).sum();
    assert!((sum - 1.0).abs() < 1e-6);
    let beta = doc.term_freq.iter().find(|e| e.0 == "beta").unwrap();
    let tf = beta.1 as f32 / total;
    assert!((tf - 2.0 / 6.0).abs() < 1e-6);
}

#[test]
fn text_with_zero_extractable_tokens_is_not_indexed() {
    assert!(index_from_str("123 456", "n.txt").is_none());
    assert!(index_from_str("", "e.txt").is_none());
}

#[test]
fn text_with_tokens_is_indexed() {
    let doc = index_from_str("one token123stream", "t.txt").unwrap();
    assert_eq!(doc.count_words, 3);
    assert_eq!(raw_count(&doc, "one"), Some(1));
    assert_eq!(raw_count(&doc, "token"), Some(1));
    assert_eq!(raw_count(&doc, "stream"), Some(1));
}
