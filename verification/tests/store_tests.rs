use tfidf_index::{index_file, index_from_str, is_valid_file, DbWord, Store};

#[test]
fn apparitions_increment_per_document_not_per_occurrence() {
    let mut store = Store::new();
    index_from_str("fox", "a.txt").unwrap().save(&mut store);
    index_from_str("fox fox", "b.txt").unwrap().save(&mut store);
    // One increment per document-level upsert, not per raw occurrence.
    assert_eq!(store.apparitions("fox"), 2);
    // Document B's own association row still records the raw count 2.
    let row = store
        .doc_words
        .iter()
        .find(|r| r.id_doc == 2 && r.word == "fox")
        .unwrap();
    assert_eq!(row.apparition, 2);
    assert_eq!(row.total_terms, 2);
}

#[test]
fn end_to_end_two_text_files() {
    let a = index_from_str("the cat sat", "a.txt").unwrap();
    let b = index_from_str("the cat ran", "b.txt").unwrap();
    assert_eq!(a.count_words, 3);
    for e in &a.term_freq {
        assert_eq!(e.1, 1);
        let tf = e.1 as f32 / a.count_words as f32;
        assert!((tf - 1.0 / 3.0).abs() < 1e-6);
    }

    let mut store = Store::new();
    a.save(&mut store);
    b.save(&mut store);

    assert_eq!(store.apparitions("the"), 2);
    assert_eq!(store.apparitions("cat"), 2);
    assert_eq!(store.apparitions("sat"), 1);
    assert_eq!(store.apparitions("ran"), 1);
    assert_eq!(store.apparitions("dog"), 0);

    assert_eq!(store.documents.len(), 2);
    assert_eq!(store.documents[0].id, 1);
    assert_eq!(store.documents[0].path, "a.txt");
    assert_eq!(store.documents[0].total_terms, 3);
    assert_eq!(store.documents[1].id, 2);
    assert_eq!(store.documents[1].path, "b.txt");

    // One association row per (document, term) pair.
    assert_eq!(store.doc_words.len(), 6);
    assert!(store.doc_words.iter().all(|r| r.apparition == 1 && r.total_terms == 3));
    assert_eq!(store.doc_words.iter().filter(|r| r.id_doc == 1).count(), 3);
    assert_eq!(store.doc_words.iter().filter(|r| r.id_doc == 2).count(), 3);
}

#[test]
fn file_with_unsupported_extension_is_skipped() {
    let mut store = Store::new();
    assert!(index_file(&mut store, "notes.txt", Some(String::from("the cat"))));
    let docs_before = store.documents.len();
    let words_before = store.words.len();
    let rows_before = store.doc_words.len();

    assert!(!index_file(&mut store, "prog.rs", Some(String::from("fn main"))));

    assert_eq!(store.documents.len(), docs_before);
    assert_eq!(store.words.len(), words_before);
    assert_eq!(store.doc_words.len(), rows_before);
    assert_eq!(store.apparitions("the"), 1);
    assert_eq!(store.apparitions("fn"), 0);
}

#[test]
fn unreadable_or_empty_files_are_skipped() {
    let mut store = Store::new();
    assert!(!index_file(&mut store, "gone.txt", None));
    assert!(!index_file(&mut store, "nums.txt", Some(String::from("123 456"))));
    assert_eq!(store.documents.len(), 0);
    assert_eq!(store.words.len(), 0);
    assert_eq!(store.doc_words.len(), 0);
    assert!(index_file(&mut store, "good.pdf", Some(String::from("some words"))));
    assert_eq!(store.documents.len(), 1);
}

#[test]
fn supported_extensions_are_exactly_txt_and_pdf() {
    assert!(is_valid_file("dir/notes.txt"));
    assert!(is_valid_file("paper.pdf"));
    assert!(is_valid_file("a/b/c.d.txt"));
    assert!(!is_valid_file("main.rs"));
    assert!(!is_valid_file("noext"));
    assert!(!is_valid_file(".hidden"));
    assert!(!is_valid_file("archive.txt/readme"));
    assert!(!is_valid_file("upper.TXT"));
    assert!(!is_valid_file(""));
}

#[test]
fn word_queries_render_exactly() {
    let w = DbWord { id: 1, word: String::from("fox"), apparitions: 12 };
    assert_eq!(
        w.to_query(),
        "INSERT INTO T_WORD (word, apparitions) VALUES (\"fox\", 12) \
         ON CONFLICT (word) DO UPDATE SET apparitions = apparitions + 1"
    );
    assert_eq!(w.to_mult_query(), "(\"fox\", 12)");
    assert_eq!(w.fields(), "(word, apparitions)");
    let w0 = DbWord { id: 7, word: String::from("a"), apparitions: 0 };
    assert_eq!(w0.to_mult_query(), "(\"a\", 0)");
    let big = DbWord { id: 2, word: String::from("b"), apparitions: 90210 };
    assert_eq!(big.to_mult_query(), "(\"b\", 90210)");
}
