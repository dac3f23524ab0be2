use tfidf_index::{count_docs_containing, idf_appears, index_from_str, Document};

fn calc_idf(term: &str, docs: &Vec<Document>) -> f32 {
    let total = docs.len() as f32;
    let appears = idf_appears(term, docs) as f32;
    (total / appears).log10().max(1f32)
}

fn corpus_with_fox_in(k: usize, n: usize) -> Vec<Document> {
    let mut docs = Vec::new();
    for i in 0..n {
        let text = if i < k { "fox den" } else { "owl den" };
        docs.push(index_from_str(text, "d.txt").unwrap());
    }
    docs
}

#[test]
fn idf_is_at_least_one_and_non_increasing_in_containment() {
    let n: usize = 10;
    let mut last = f32::INFINITY;
    for k in 0..=n {
        let docs = corpus_with_fox_in(k, n);
        assert_eq!(count_docs_containing("fox", &docs), k);
        assert_eq!(idf_appears("fox", &docs), 1 + k);
        let score = calc_idf("fox", &docs);
        assert!(score >= 1.0);
        assert!(score <= last);
        last = score;
    }
}

#[test]
fn idf_counts_from_two_documents() {
    let a = index_from_str("the cat sat", "a.txt").unwrap();
    let b = index_from_str("the cat ran", "b.txt").unwrap();
    let docs = vec![a, b];
    assert_eq!(idf_appears("the", &docs), 3);
    assert_eq!(idf_appears("cat", &docs), 3);
    assert_eq!(idf_appears("sat", &docs), 2);
    assert_eq!(idf_appears("ran", &docs), 2);
    assert_eq!(idf_appears("dog", &docs), 1);
    // log10(2/3) is negative and log10(2/2) is zero: both clamp to 1.0.
    assert_eq!(calc_idf("the", &docs), 1.0);
    assert_eq!(calc_idf("sat", &docs), 1.0);
    // A rare term in a larger corpus rises above the floor.
    let mut many = corpus_with_fox_in(1, 100);
    assert!(calc_idf("fox", &many) > 1.0);
    assert!((calc_idf("fox", &many) - (100f32 / 2f32).log10()).abs() < 1e-6);
    many.truncate(0);
    assert_eq!(calc_idf("fox", &many), 1.0);
}
