//! In-memory representation of one indexed file: its total token count and
//! the raw occurrence count of each distinct term.
//!
//! Counts are kept exact. The normalized term frequency of an entry is the
//! rational `raw_count / count_words`; callers that want it as a floating
//! point number divide the two integers themselves.

use vstd::prelude::*;

use crate::tokenizer::{is_token, lemma_tokenize_tokens, tokenize, tokenize_text};

verus! {

/// How many tokens of `toks` equal `t`.
pub open spec fn count_in(toks: Seq<Seq<char>>, t: Seq<char>) -> nat
    decreases toks.len(),
{
    if toks.len() == 0 {
        0
    } else {
        count_in(toks.drop_last(), t) + if toks.last() == t {
            1nat
        } else {
            0nat
        }
    }
}

/// The sum of the raw counts of a term-frequency table.
pub open spec fn sum_counts(entries: Seq<(String, usize)>) -> nat
    decreases entries.len(),
{
    if entries.len() == 0 {
        0
    } else {
        sum_counts(entries.drop_last()) + entries.last().1 as nat
    }
}

/// No term occurs twice in the table.
pub open spec fn distinct_keys(entries: Seq<(String, usize)>) -> bool {
    forall|i: int, j: int|
        0 <= i < j < entries.len() ==> (#[trigger] entries[i]).0@ != (#[trigger] entries[j]).0@
}

/// The table has an entry for term `t`.
pub open spec fn has_key(entries: Seq<(String, usize)>, t: Seq<char>) -> bool {
    exists|i: int| 0 <= i < entries.len() && (#[trigger] entries[i]).0@ == t
}

/// One indexed file: its identifying path, the number of tokens it yielded,
/// and the raw occurrence count of every distinct term.
pub struct Document {
    /// Count of all tokens encountered; equals the sum of the raw counts.
    pub count_words: usize,
    /// Identifying location of the file the document was built from.
    pub path: String,
    /// One entry per distinct term: the term and its raw occurrence count.
    /// The normalized frequency of an entry is `raw / count_words`.
    pub term_freq: Vec<(String, usize)>,
}

impl Document {
    /// Internal consistency: terms are distinct lower-case words, every raw
    /// count is at least one, and the raw counts sum to the total.
    pub open spec fn wf(&self) -> bool {
        &&& distinct_keys(self.term_freq@)
        &&& forall|i: int|
            0 <= i < self.term_freq@.len() ==> (#[trigger] self.term_freq@[i]).1 >= 1
        &&& forall|i: int|
            0 <= i < self.term_freq@.len() ==> is_token((#[trigger] self.term_freq@[i]).0@)
        &&& sum_counts(self.term_freq@) == self.count_words
    }
}

/// `doc` is exactly the index of the token sequence `toks` for the file at
/// `path`: the total is the number of tokens, each entry's raw count is the
/// number of occurrences of its term, and every token has an entry.
pub open spec fn is_index_of(doc: Document, toks: Seq<Seq<char>>, path: Seq<char>) -> bool {
    &&& doc.wf()
    &&& doc.path@ == path
    &&& doc.count_words == toks.len()
    &&& forall|i: int|
        0 <= i < doc.term_freq@.len() ==> (#[trigger] doc.term_freq@[i]).1 as nat == count_in(
            toks,
            doc.term_freq@[i].0@,
        )
    &&& forall|k: int| 0 <= k < toks.len() ==> has_key(doc.term_freq@, #[trigger] toks[k])
}

/// Appending one token raises the count of exactly its term by one.
proof fn lemma_count_in_snoc(toks: Seq<Seq<char>>, j: int)
    requires
        0 <= j < toks.len(),
    ensures
        forall|t: Seq<char>|
            #[trigger] count_in(toks.take(j + 1), t) == count_in(toks.take(j), t) + if toks[j]
                == t {
                1nat
            } else {
                0nat
            },
{
    assert(toks.take(j + 1).drop_last() =~= toks.take(j));
    assert(toks.take(j + 1).last() == toks[j]);
    assert forall|t: Seq<char>|
        #[trigger] count_in(toks.take(j + 1), t) == count_in(toks.take(j), t) + if toks[j] == t {
            1nat
        } else {
            0nat
        } by {
        assert(count_in(toks.take(j + 1), t) == count_in(toks.take(j + 1).drop_last(), t) + if toks
            .take(j + 1).last() == t {
            1nat
        } else {
            0nat
        });
    }
}

/// A term with a positive count occurs somewhere in the token sequence.
pub proof fn lemma_count_in_pos(toks: Seq<Seq<char>>, t: Seq<char>)
    requires
        count_in(toks, t) > 0,
    ensures
        exists|k: int| 0 <= k < toks.len() && toks[k] == t,
    decreases toks.len(),
{
    if toks.last() == t {
        assert(toks[toks.len() - 1] == t);
    } else {
        lemma_count_in_pos(toks.drop_last(), t);
        let k = choose|k: int| 0 <= k < toks.drop_last().len() && toks.drop_last()[k] == t;
        assert(toks[k] == t);
    }
}

/// Updating one entry changes the sum by the difference at that entry.
proof fn lemma_sum_counts_update(entries: Seq<(String, usize)>, idx: int, e: (String, usize))
    requires
        0 <= idx < entries.len(),
    ensures
        sum_counts(entries.update(idx, e)) + entries[idx].1 == sum_counts(entries) + e.1,
    decreases entries.len(),
{
    if idx == entries.len() - 1 {
        assert(entries.update(idx, e).drop_last() =~= entries.drop_last());
    } else {
        assert(entries.update(idx, e).drop_last() =~= entries.drop_last().update(idx, e));
        lemma_sum_counts_update(entries.drop_last(), idx, e);
    }
}

/// Appending an entry adds its count to the sum.
proof fn lemma_sum_counts_push(entries: Seq<(String, usize)>, e: (String, usize))
    ensures
        sum_counts(entries.push(e)) == sum_counts(entries) + e.1,
{
    assert(entries.push(e).drop_last() =~= entries);
}

/// Every single raw count is bounded by the sum of all of them.
proof fn lemma_count_le_sum(entries: Seq<(String, usize)>, idx: int)
    requires
        0 <= idx < entries.len(),
    ensures
        entries[idx].1 <= sum_counts(entries),
    decreases entries.len(),
{
    if idx < entries.len() - 1 {
        lemma_count_le_sum(entries.drop_last(), idx);
        assert(entries.drop_last()[idx] == entries[idx]);
    }
}

impl Document {
    /// Builds the index of `text` for the file at `path`: tokenizes the
    /// whole text, accumulates the raw count of every term, and counts all
    /// tokens. Two-pass by construction: raw counts are complete before any
    /// normalized frequency can be read off, since normalization is the
    /// rational `raw / count_words` over the finished totals.
    pub fn new(text: &str, path: String) -> (doc: Document)
        ensures
            is_index_of(doc, tokenize(text@), path@),
    {
        let tokens: Vec<String> = tokenize_text(text);
        let ghost toks = tokenize(text@);
        proof {
            lemma_tokenize_tokens(text@);
        }
        let mut term_freq: Vec<(String, usize)> = Vec::new();
        let mut count_words: usize = 0;
        let mut j: usize = 0;
        proof {
            assert(toks.take(0) =~= Seq::<Seq<char>>::empty());
        }
        while j < tokens.len()
            invariant
                tokens.deep_view() == toks,
                forall|k: int| 0 <= k < toks.len() ==> is_token(#[trigger] toks[k]),
                j <= tokens.len(),
                count_words == j,
                sum_counts(term_freq@) == j,
                distinct_keys(term_freq@),
                forall|i: int|
                    0 <= i < term_freq@.len() ==> (#[trigger] term_freq@[i]).1 as nat == count_in(
                        toks.take(j as int),
                        term_freq@[i].0@,
                    ),
                forall|i: int|
                    0 <= i < term_freq@.len() ==> (#[trigger] term_freq@[i]).1 >= 1,
                forall|i: int|
                    0 <= i < term_freq@.len() ==> is_token((#[trigger] term_freq@[i]).0@),
                forall|k: int| 0 <= k < j ==> has_key(term_freq@, #[trigger] toks[k]),
            decreases tokens.len() - j,
        {
            proof {
                assert(tokens.deep_view()[j as int] == tokens@[j as int]@);
                lemma_count_in_snoc(toks, j as int);
            }
            let mut idx: usize = 0;
            let mut found: bool = false;
            while idx < term_freq.len() && !found
                invariant
                    idx <= term_freq@.len(),
                    !found ==> forall|m: int|
                        0 <= m < idx ==> (#[trigger] term_freq@[m]).0@ != tokens@[j as int]@,
                    found ==> idx < term_freq@.len() && term_freq@[idx as int].0@
                        == tokens@[j as int]@,
                    j < tokens@.len(),
                decreases term_freq@.len() - idx + if found {
                    0int
                } else {
                    1int
                },
            {
                if term_freq[idx].0 == tokens[j] {
                    found = true;
                } else {
                    idx = idx + 1;
                }
            }
            let ghost old_tf = term_freq@;
            if found {
                let c: usize = term_freq[idx].1;
                proof {
                    lemma_count_le_sum(old_tf, idx as int);
                }
                let key = term_freq[idx].0.clone();
                term_freq[idx] = (key, c + 1);
                proof {
                    assert(term_freq@ == old_tf.update(
                        idx as int,
                        (old_tf[idx as int].0, (c + 1) as usize),
                    ));
                    lemma_sum_counts_update(
                        old_tf,
                        idx as int,
                        (old_tf[idx as int].0, (c + 1) as usize),
                    );
                    assert forall|i: int| 0 <= i < term_freq@.len() implies (
                    #[trigger] term_freq@[i]).1 as nat == count_in(
                        toks.take(j + 1),
                        term_freq@[i].0@,
                    ) by {
                        if i == idx as int {
                            assert(term_freq@[i].0@ == toks[j as int]);
                        } else {
                            assert(term_freq@[i] == old_tf[i]);
                            assert(old_tf[i].0@ != toks[j as int]);
                        }
                    }
                    assert forall|k: int| 0 <= k < j + 1 implies has_key(
                        term_freq@,
                        #[trigger] toks[k],
                    ) by {
                        if k < j {
                            let m = choose|m: int|
                                0 <= m < old_tf.len() && (#[trigger] old_tf[m]).0@ == toks[k];
                            assert(term_freq@[m].0@ == toks[k]);
                        } else {
                            assert(term_freq@[idx as int].0@ == toks[j as int]);
                        }
                    }
                }
            } else {
                proof {
                    lemma_sum_counts_push(old_tf, (tokens@[j as int], 1usize));
                    if count_in(toks.take(j as int), toks[j as int]) > 0 {
                        lemma_count_in_pos(toks.take(j as int), toks[j as int]);
                        let k = choose|k: int|
                            0 <= k < toks.take(j as int).len() && toks.take(j as int)[k]
                                == toks[j as int];
                        assert(has_key(old_tf, toks[k]));
                    }
                }
                term_freq.push((tokens[j].clone(), 1));
                proof {
                    assert(term_freq@ == old_tf.push((tokens@[j as int], 1usize)));
                    assert(count_in(toks.take(j as int), toks[j as int]) == 0);
                    assert forall|k: int| 0 <= k < j + 1 implies has_key(
                        term_freq@,
                        #[trigger] toks[k],
                    ) by {
                        if k < j {
                            let m = choose|m: int|
                                0 <= m < old_tf.len() && (#[trigger] old_tf[m]).0@ == toks[k];
                            assert(term_freq@[m].0@ == toks[k]);
                        } else {
                            assert(term_freq@[old_tf.len() as int].0@ == toks[j as int]);
                        }
                    }
                }
            }
            count_words = count_words + 1;
            j = j + 1;
        }
        proof {
            assert(toks.take(tokens@.len() as int) =~= toks);
        }
        Document { count_words, path, term_freq }
    }
}

/// Builds the index of `text` for the file at `path`, or nothing when the
/// text yields no tokens: empty documents are not indexed, which keeps the
/// corpus free of zero-content rows and every normalization denominator
/// positive.
pub fn index_from_str(text: &str, path: &str) -> (r: Option<Document>)
    ensures
        r is Some <==> tokenize(text@).len() > 0,
        r is Some ==> is_index_of(r->Some_0, tokenize(text@), path@),
{
    let doc = Document::new(text, path.to_owned());
    if doc.count_words == 0 {
        return None;
    }
    Some(doc)
}

/// The raw per-term counts of a well-formed document sum exactly to its
/// total word count. Consequently the normalized frequencies `raw / total`
/// of a nonempty document sum to exactly one in exact arithmetic; a
/// floating-point rendering of them sums to one only up to rounding.
pub proof fn lemma_counts_sum_to_total(doc: Document)
    requires
        doc.wf(),
    ensures
        sum_counts(doc.term_freq@) == doc.count_words,
{
}

} // verus!
