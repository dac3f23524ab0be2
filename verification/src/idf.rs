//! Corpus-wide inverse-document-frequency counting.
//!
//! The score consumed by a ranking collaborator is
//! `log10(N / appears).max(1.0)` with `N` the number of documents and
//! `appears = 1 + (documents containing the term)` — the `+1` smoothing
//! keeps the denominator positive even for a term absent from every
//! document. The library computes the two integers exactly; taking the
//! logarithm and the floor at one is floating-point work left to the
//! caller, and both steps are monotone, so the ordering facts proved here
//! carry over to the final score.

use vstd::prelude::*;

use crate::document::{has_key, Document};

verus! {

/// How many documents of `docs` record the term `t`.
pub open spec fn docs_containing(docs: Seq<Document>, t: Seq<char>) -> nat
    decreases docs.len(),
{
    if docs.len() == 0 {
        0
    } else {
        docs_containing(docs.drop_last(), t) + if has_key(docs.last().term_freq@, t) {
            1nat
        } else {
            0nat
        }
    }
}

/// No more documents contain a term than there are documents.
pub proof fn lemma_docs_containing_le_len(docs: Seq<Document>, t: Seq<char>)
    ensures
        docs_containing(docs, t) <= docs.len(),
    decreases docs.len(),
{
    if docs.len() > 0 {
        lemma_docs_containing_le_len(docs.drop_last(), t);
    }
}

/// Whether the document records the term. Terms are matched exactly, so a
/// query should be normalized the way the tokenizer normalizes (lower-case
/// letters).
pub fn document_contains(doc: &Document, term: &str) -> (r: bool)
    ensures
        r == has_key(doc.term_freq@, term@),
{
    let t = term.to_owned();
    let mut i: usize = 0;
    while i < doc.term_freq.len()
        invariant
            i <= doc.term_freq@.len(),
            t@ == term@,
            forall|m: int| 0 <= m < i ==> (#[trigger] doc.term_freq@[m]).0@ != term@,
        decreases doc.term_freq@.len() - i,
    {
        if doc.term_freq[i].0 == t {
            return true;
        }
        i = i + 1;
    }
    false
}

/// Counts the documents of the corpus that contain `term`.
pub fn count_docs_containing(term: &str, docs: &Vec<Document>) -> (n: usize)
    ensures
        n as nat == docs_containing(docs@, term@),
        n <= docs@.len(),
{
    let mut n: usize = 0;
    let mut i: usize = 0;
    proof {
        assert(docs@.take(0) =~= Seq::<Document>::empty());
    }
    while i < docs.len()
        invariant
            i <= docs@.len(),
            n as nat == docs_containing(docs@.take(i as int), term@),
            n <= i,
        decreases docs@.len() - i,
    {
        proof {
            assert(docs@.take(i + 1).drop_last() =~= docs@.take(i as int));
            assert(docs@.take(i + 1).last() == docs@[i as int]);
        }
        if document_contains(&docs[i], term) {
            n = n + 1;
        }
        i = i + 1;
    }
    proof {
        assert(docs@.take(docs@.len() as int) =~= docs@);
    }
    n
}

/// The smoothed denominator of the idf score: one more than the number of
/// documents containing `term`, so it is at least one whatever the corpus.
/// The idf score itself is `log10(docs.len() / appears).max(1.0)`.
pub fn idf_appears(term: &str, docs: &Vec<Document>) -> (appears: usize)
    requires
        docs@.len() < usize::MAX,
    ensures
        appears as nat == 1 + docs_containing(docs@, term@),
        appears >= 1,
{
    let n = count_docs_containing(term, docs);
    1 + n
}

/// The ratio `n / (1 + c)` that the idf score takes the logarithm of is
/// non-increasing as the number `c` of documents containing the term grows,
/// stated here by cross-multiplication over the integers. The logarithm and
/// the floor at one are monotone, so the idf score itself is non-increasing
/// in the fraction of documents containing the term.
pub proof fn lemma_idf_ratio_monotone(n: nat, c1: nat, c2: nat)
    requires
        c1 <= c2,
    ensures
        n * (1 + c1) <= n * (1 + c2),
{
    assert(n * (1 + c1) <= n * (1 + c2)) by (nonlinear_arith)
        requires
            c1 <= c2,
    ;
}

} // verus!
