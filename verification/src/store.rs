//! In-memory model of the persisted index: the three logical tables and the
//! conflict-resolving insert semantics a backing row store must provide.
//!
//! `documents` and `doc_words` rows are created once per indexing run and
//! never mutated. `words` rows are corpus-global and long-lived: re-inserting
//! a word that already has a row increments its `apparitions` counter — a
//! running count of how many indexing events mentioned the word — instead of
//! overwriting it.

use vstd::prelude::*;

use crate::document::{has_key, Document};

verus! {

/// One row of the documents table: created on insert, never updated. A
/// re-index of the same path creates a new row with a fresh id.
pub struct DbDocument {
    /// Row id assigned by the store: position in the table, starting at one.
    pub id: usize,
    /// Total token count of the document.
    pub total_terms: usize,
    /// Identifying location of the indexed file.
    pub path: String,
}

/// One row of the corpus-global words table. `word` is the unique key.
pub struct DbWord {
    /// Row id assigned by the store: position in the table, starting at one.
    pub id: usize,
    /// The word itself; unique within the table.
    pub word: String,
    /// How many indexing events have mentioned this word, across all runs.
    pub apparitions: usize,
}

/// One row of the document-word association table: one per (document, term)
/// pair observed. The normalized term frequency of the row is the rational
/// `apparition / total_terms`.
pub struct DbDocWord {
    /// The term.
    pub word: String,
    /// Id of the document row this association belongs to.
    pub id_doc: usize,
    /// Raw occurrence count of the term in that document.
    pub apparition: usize,
    /// The document's total token count: the denominator of the normalized
    /// term frequency.
    pub total_terms: usize,
}

/// The `apparitions` counter recorded for `w`, or zero when the table has no
/// row for `w`.
pub open spec fn apparitions_of(words: Seq<DbWord>, w: Seq<char>) -> nat
    decreases words.len(),
{
    if words.len() == 0 {
        0
    } else if words.last().word@ == w {
        words.last().apparitions as nat
    } else {
        apparitions_of(words.drop_last(), w)
    }
}

/// The table has a row for word `w`.
pub open spec fn has_word(words: Seq<DbWord>, w: Seq<char>) -> bool {
    exists|i: int| 0 <= i < words.len() && (#[trigger] words[i]).word@ == w
}

/// No word occurs in two rows.
pub open spec fn distinct_words(words: Seq<DbWord>) -> bool {
    forall|i: int, j: int|
        0 <= i < j < words.len() ==> (#[trigger] words[i]).word@ != (#[trigger] words[j]).word@
}

/// A word is mentioned by one of the given rows.
pub open spec fn in_rows(rows: Seq<DbWord>, w: Seq<char>) -> bool {
    exists|i: int| 0 <= i < rows.len() && (#[trigger] rows[i]).word@ == w
}

/// In-memory model of the store: the three tables, with ids assigned by
/// insertion order.
pub struct Store {
    /// One row per successfully indexed document.
    pub documents: Vec<DbDocument>,
    /// The corpus-global word table, keyed uniquely by word.
    pub words: Vec<DbWord>,
    /// One row per (document, term) pair observed.
    pub doc_words: Vec<DbDocWord>,
}

impl Store {
    /// Internal consistency: word rows have distinct words and positive
    /// counters, and row ids equal table positions (starting at one).
    pub open spec fn wf(&self) -> bool {
        &&& distinct_words(self.words@)
        &&& forall|i: int| 0 <= i < self.words@.len() ==> (#[trigger] self.words@[i]).apparitions >= 1
        &&& forall|i: int| 0 <= i < self.words@.len() ==> (#[trigger] self.words@[i]).id == i + 1
        &&& forall|i: int|
            0 <= i < self.documents@.len() ==> (#[trigger] self.documents@[i]).id == i + 1
    }

    /// No apparitions counter has reached the machine limit, so every counter
    /// can still be incremented.
    pub open spec fn not_saturated(&self) -> bool {
        forall|i: int|
            0 <= i < self.words@.len() ==> (#[trigger] self.words@[i]).apparitions < usize::MAX
    }

    /// Every apparitions counter is bounded by the number of indexed
    /// documents. A store written only through whole-document persists has
    /// this shape, since each persist increments a counter at most once and
    /// adds one document row; with it, a store that can still take a document
    /// row is never saturated (see [`lemma_bounded_not_saturated`]).
    pub open spec fn counters_bounded(&self) -> bool {
        forall|i: int|
            0 <= i < self.words@.len() ==> (#[trigger] self.words@[i]).apparitions
                <= self.documents@.len()
    }

    /// An empty store.
    pub fn new() -> (s: Store)
        ensures
            s.wf(),
            s.not_saturated(),
            s.counters_bounded(),
            s.documents@ == Seq::<DbDocument>::empty(),
            s.words@ == Seq::<DbWord>::empty(),
            s.doc_words@ == Seq::<DbDocWord>::empty(),
    {
        Store { documents: Vec::new(), words: Vec::new(), doc_words: Vec::new() }
    }
}

/// A store whose counters are bounded by its document count, and which can
/// still take a document row, has no saturated counter.
pub proof fn lemma_bounded_not_saturated(s: Store)
    requires
        s.counters_bounded(),
        s.documents@.len() < usize::MAX,
    ensures
        s.not_saturated(),
{
}

/// With distinct words, the counter looked up for a row's word is that row's
/// counter.
proof fn lemma_apparitions_at(words: Seq<DbWord>, idx: int)
    requires
        distinct_words(words),
        0 <= idx < words.len(),
    ensures
        apparitions_of(words, words[idx].word@) == words[idx].apparitions,
    decreases words.len(),
{
    if idx < words.len() - 1 {
        lemma_apparitions_at(words.drop_last(), idx);
        assert(words.drop_last()[idx] == words[idx]);
    }
}

/// A word without a row has counter zero.
proof fn lemma_apparitions_absent(words: Seq<DbWord>, w: Seq<char>)
    requires
        !has_word(words, w),
    ensures
        apparitions_of(words, w) == 0,
    decreases words.len(),
{
    if words.len() > 0 {
        assert(words[words.len() - 1].word@ != w);
        assert(forall|i: int|
            0 <= i < words.drop_last().len() ==> (#[trigger] words.drop_last()[i]) == words[i]);
        lemma_apparitions_absent(words.drop_last(), w);
    }
}

/// When every stored counter is below the machine limit, so is every lookup.
proof fn lemma_apparitions_bounded(words: Seq<DbWord>, w: Seq<char>)
    requires
        forall|i: int| 0 <= i < words.len() ==> (#[trigger] words[i]).apparitions < usize::MAX,
    ensures
        apparitions_of(words, w) < usize::MAX,
    decreases words.len(),
{
    if words.len() > 0 {
        assert(forall|i: int|
            0 <= i < words.drop_last().len() ==> (#[trigger] words.drop_last()[i]) == words[i]);
        lemma_apparitions_bounded(words.drop_last(), w);
    }
}

/// Updating one row changes exactly its word's counter.
proof fn lemma_apparitions_update(words: Seq<DbWord>, idx: int, e: DbWord)
    requires
        distinct_words(words),
        0 <= idx < words.len(),
        e.word@ == words[idx].word@,
    ensures
        apparitions_of(words.update(idx, e), e.word@) == e.apparitions,
        forall|w: Seq<char>|
            w != e.word@ ==> apparitions_of(words.update(idx, e), w) == apparitions_of(words, w),
    decreases words.len(),
{
    let up = words.update(idx, e);
    if idx == words.len() - 1 {
        assert(up.drop_last() =~= words.drop_last());
        assert(up.last() == e);
    } else {
        assert(up.drop_last() =~= words.drop_last().update(idx, e));
        assert(up.last() == words.last());
        assert(words.drop_last()[idx] == words[idx]);
        lemma_apparitions_update(words.drop_last(), idx, e);
        assert(words.last().word@ != e.word@);
        assert forall|w: Seq<char>| w != e.word@ implies apparitions_of(up, w) == apparitions_of(
            words,
            w,
        ) by {
            if words.last().word@ == w {
                assert(apparitions_of(up, w) == up.last().apparitions);
            } else {
                assert(apparitions_of(up, w) == apparitions_of(up.drop_last(), w));
                assert(apparitions_of(words, w) == apparitions_of(words.drop_last(), w));
            }
        }
    }
}

/// Appending a row gives its word that row's counter and changes no other.
proof fn lemma_apparitions_push(words: Seq<DbWord>, e: DbWord)
    ensures
        apparitions_of(words.push(e), e.word@) == e.apparitions,
        forall|w: Seq<char>|
            w != e.word@ ==> apparitions_of(words.push(e), w) == apparitions_of(words, w),
{
    assert(words.push(e).drop_last() =~= words);
}

impl Store {
    /// Inserts one document row and hands back its freshly assigned id.
    /// Document rows are never updated in place: a re-index of the same path
    /// creates a new row.
    pub fn insert_document(&mut self, total_terms: usize, path: String) -> (id: usize)
        requires
            old(self).wf(),
            old(self).documents@.len() < usize::MAX,
        ensures
            final(self).wf(),
            id == old(self).documents@.len() + 1,
            final(self).documents@ == old(self).documents@.push(
                (DbDocument { id, total_terms, path }),
            ),
            final(self).words == old(self).words,
            final(self).doc_words == old(self).doc_words,
    {
        let id = self.documents.len() + 1;
        self.documents.push(DbDocument { id, total_terms, path });
        id
    }

    /// Upserts one word: inserts a fresh row with counter one, or, when a row
    /// with the same word exists, increments that row's counter by one —
    /// never overwrites it.
    pub fn upsert_word(&mut self, word: &String)
        requires
            old(self).wf(),
            old(self).words@.len() < usize::MAX,
            apparitions_of(old(self).words@, word@) < usize::MAX,
        ensures
            final(self).wf(),
            apparitions_of(final(self).words@, word@) == apparitions_of(old(self).words@, word@) + 1,
            forall|w: Seq<char>|
                w != word@ ==> apparitions_of(final(self).words@, w) == apparitions_of(
                    old(self).words@,
                    w,
                ),
            has_word(final(self).words@, word@),
            old(self).words@.len() <= final(self).words@.len() <= old(self).words@.len() + 1,
            final(self).documents == old(self).documents,
            final(self).doc_words == old(self).doc_words,
    {
        let ghost old_words = self.words@;
        let mut idx: usize = 0;
        let mut found: bool = false;
        while idx < self.words.len() && !found
            invariant
                idx <= self.words@.len(),
                self.words@ == old_words,
                !found ==> forall|m: int| 0 <= m < idx ==> (#[trigger] self.words@[m]).word@
                    != word@,
                found ==> idx < self.words@.len() && self.words@[idx as int].word@ == word@,
            decreases self.words@.len() - idx + if found {
                0int
            } else {
                1int
            },
        {
            if self.words[idx].word == *word {
                found = true;
            } else {
                idx = idx + 1;
            }
        }
        if found {
            proof {
                lemma_apparitions_at(old_words, idx as int);
            }
            let row_id = self.words[idx].id;
            let c = self.words[idx].apparitions;
            let e = DbWord { id: row_id, word: word.clone(), apparitions: c + 1 };
            let ghost ge = e;
            self.words[idx] = e;
            proof {
                lemma_apparitions_update(old_words, idx as int, ge);
                assert(self.words@ =~= old_words.update(idx as int, ge));
            }
        } else {
            let id = self.words.len() + 1;
            let e = DbWord { id, word: word.clone(), apparitions: 1 };
            let ghost ge = e;
            self.words.push(e);
            proof {
                lemma_apparitions_absent(old_words, word@);
                lemma_apparitions_push(old_words, ge);
            }
        }
    }

    /// Bulk upsert of freshly built word rows (each with counter one), as one
    /// logical batch: every row's word has its counter incremented by one —
    /// by insertion for new words, by update for known ones — and no other
    /// word's counter changes.
    pub fn upsert_words(&mut self, rows: &Vec<DbWord>)
        requires
            old(self).wf(),
            old(self).not_saturated(),
            distinct_words(rows@),
            forall|i: int| 0 <= i < rows@.len() ==> (#[trigger] rows@[i]).apparitions == 1,
            old(self).words@.len() + rows@.len() <= usize::MAX,
        ensures
            final(self).wf(),
            forall|i: int|
                0 <= i < rows@.len() ==> apparitions_of(final(self).words@, (#[trigger] rows@[i]).word@)
                    == apparitions_of(old(self).words@, rows@[i].word@) + 1,
            forall|w: Seq<char>|
                !in_rows(rows@, w) ==> apparitions_of(final(self).words@, w) == apparitions_of(
                    old(self).words@,
                    w,
                ),
            final(self).documents == old(self).documents,
            final(self).doc_words == old(self).doc_words,
            old(self).words@.len() <= final(self).words@.len() <= old(self).words@.len() + rows@.len(),
    {
        let ghost orig = *old(self);
        let mut j: usize = 0;
        while j < rows.len()
            invariant
                j <= rows@.len(),
                self.wf(),
                distinct_words(rows@),
                orig.wf(),
                orig.not_saturated(),
                orig.words@.len() + rows@.len() <= usize::MAX,
                forall|i: int|
                    0 <= i < j ==> apparitions_of(self.words@, (#[trigger] rows@[i]).word@)
                        == apparitions_of(orig.words@, rows@[i].word@) + 1,
                forall|w: Seq<char>|
                    !in_rows(rows@.take(j as int), w) ==> apparitions_of(self.words@, w)
                        == apparitions_of(orig.words@, w),
                self.documents == orig.documents,
                self.doc_words == orig.doc_words,
                orig.words@.len() <= self.words@.len() <= orig.words@.len() + j,
            decreases rows@.len() - j,
        {
            proof {
                assert(!in_rows(rows@.take(j as int), rows@[j as int].word@));
                lemma_apparitions_bounded(orig.words@, rows@[j as int].word@);
            }
            self.upsert_word(&rows[j].word);
            proof {
                assert forall|w: Seq<char>| !in_rows(rows@.take(j + 1), w) implies apparitions_of(
                    self.words@,
                    w,
                ) == apparitions_of(orig.words@, w) by {
                    assert(forall|i: int|
                        0 <= i < j ==> rows@.take(j + 1)[i] == (#[trigger] rows@[i]));
                    assert(rows@.take(j + 1)[j as int] == rows@[j as int]);
                    assert(!in_rows(rows@.take(j as int), w));
                    assert(w != rows@[j as int].word@);
                }
                assert forall|i: int| 0 <= i < j + 1 implies apparitions_of(
                    self.words@,
                    (#[trigger] rows@[i]).word@,
                ) == apparitions_of(orig.words@, rows@[i].word@) + 1 by {
                    if i < j {
                        assert(rows@[i].word@ != rows@[j as int].word@);
                    }
                }
            }
            j = j + 1;
        }
        proof {
            assert(rows@.take(rows@.len() as int) =~= rows@);
        }
    }

    /// Appends association rows. No conflict handling is needed: callers tag
    /// the rows with a freshly assigned document id, so no existing row can
    /// collide.
    pub fn insert_doc_words(&mut self, rows: Vec<DbDocWord>)
        requires
            old(self).wf(),
        ensures
            final(self).wf(),
            final(self).doc_words@ == old(self).doc_words@ + rows@,
            final(self).documents == old(self).documents,
            final(self).words == old(self).words,
    {
        let mut rows = rows;
        self.doc_words.append(&mut rows);
    }

    /// The document rows this document's persistence appends to the
    /// association table: one row per distinct term, tagged with the id the
    /// document row was assigned.
    pub open spec fn doc_word_rows(doc: Document, id: usize) -> Seq<DbDocWord> {
        Seq::new(
            doc.term_freq@.len(),
            |i: int|
                (DbDocWord {
                    word: doc.term_freq@[i].0,
                    id_doc: id,
                    apparition: doc.term_freq@[i].1,
                    total_terms: doc.count_words,
                }),
        )
    }

    /// The `apparitions` counter currently recorded for `word`, or zero when
    /// the table has no row for it.
    pub fn apparitions(&self, word: &str) -> (n: usize)
        requires
            self.wf(),
        ensures
            n as nat == apparitions_of(self.words@, word@),
    {
        let w = word.to_owned();
        let mut i: usize = 0;
        while i < self.words.len()
            invariant
                i <= self.words@.len(),
                w@ == word@,
                self.wf(),
                forall|m: int| 0 <= m < i ==> (#[trigger] self.words@[m]).word@ != word@,
            decreases self.words@.len() - i,
        {
            if self.words[i].word == w {
                proof {
                    lemma_apparitions_at(self.words@, i as int);
                }
                return self.words[i].apparitions;
            }
            i = i + 1;
        }
        proof {
            lemma_apparitions_absent(self.words@, word@);
        }
        0
    }
}

impl Document {
    /// Persists the document as one logical unit: inserts one fresh document
    /// row, upserts every distinct term of the document into the corpus-global
    /// word table — incrementing the term's `apparitions` by exactly one, by
    /// insertion for new words and by update for known ones — and appends one
    /// association row per distinct term, tagged with the fresh document id.
    /// Terms absent from this document keep their counters untouched.
    pub fn save(self, store: &mut Store)
        requires
            self.wf(),
            old(store).wf(),
            old(store).not_saturated(),
            old(store).documents@.len() < usize::MAX,
            old(store).words@.len() + self.term_freq@.len() <= usize::MAX,
        ensures
            final(store).wf(),
            final(store).documents@ == old(store).documents@.push(
                (DbDocument {
                    id: (old(store).documents@.len() + 1) as usize,
                    total_terms: self.count_words,
                    path: self.path,
                }),
            ),
            forall|i: int|
                0 <= i < self.term_freq@.len() ==> apparitions_of(
                    final(store).words@,
                    (#[trigger] self.term_freq@[i]).0@,
                ) == apparitions_of(old(store).words@, self.term_freq@[i].0@) + 1,
            forall|w: Seq<char>|
                !has_key(self.term_freq@, w) ==> apparitions_of(final(store).words@, w)
                    == apparitions_of(old(store).words@, w),
            final(store).doc_words@ == old(store).doc_words@ + Store::doc_word_rows(
                self,
                (old(store).documents@.len() + 1) as usize,
            ),
            old(store).counters_bounded() ==> final(store).counters_bounded(),
            final(store).words@.len() <= old(store).words@.len() + self.term_freq@.len(),
    {
        let ghost doc = self;
        let ghost store0 = *store;
        let Document { count_words, path, term_freq } = self;
        let id = store.insert_document(count_words, path);
        let ghost store1 = *store;

        let mut word_rows: Vec<DbWord> = Vec::new();
        let mut i: usize = 0;
        while i < term_freq.len()
            invariant
                term_freq@ == doc.term_freq@,
                i <= term_freq@.len(),
                word_rows@.len() == i,
                forall|m: int|
                    0 <= m < i ==> (#[trigger] word_rows@[m]).word == term_freq@[m].0
                        && word_rows@[m].apparitions == 1,
            decreases term_freq@.len() - i,
        {
            word_rows.push(DbWord { id: 0, word: term_freq[i].0.clone(), apparitions: 1 });
            i = i + 1;
        }
        proof {
            assert forall|m: int, n: int| 0 <= m < n < word_rows@.len() implies (
            #[trigger] word_rows@[m]).word@ != (#[trigger] word_rows@[n]).word@ by {
                assert(doc.term_freq@[m].0@ != doc.term_freq@[n].0@);
            }
        }
        store.upsert_words(&word_rows);
        proof {
            assert(store1.words@ == store0.words@);
            assert forall|i: int| 0 <= i < doc.term_freq@.len() implies apparitions_of(
                store.words@,
                (#[trigger] doc.term_freq@[i]).0@,
            ) == apparitions_of(store0.words@, doc.term_freq@[i].0@) + 1 by {
                assert((#[trigger] word_rows@[i]).word@ == doc.term_freq@[i].0@);
                assert(apparitions_of(store.words@, word_rows@[i].word@) == apparitions_of(
                    store1.words@,
                    word_rows@[i].word@,
                ) + 1);
            }
            assert forall|w: Seq<char>| !has_key(doc.term_freq@, w) implies apparitions_of(
                store.words@,
                w,
            ) == apparitions_of(store0.words@, w) by {
                if in_rows(word_rows@, w) {
                    let m = choose|m: int|
                        0 <= m < word_rows@.len() && (#[trigger] word_rows@[m]).word@ == w;
                    assert(doc.term_freq@[m].0@ == w);
                }
                assert(!in_rows(word_rows@, w));
            }
        }

        let mut dw_rows: Vec<DbDocWord> = Vec::new();
        let mut k: usize = 0;
        while k < term_freq.len()
            invariant
                term_freq@ == doc.term_freq@,
                count_words == doc.count_words,
                k <= term_freq@.len(),
                dw_rows@.len() == k,
                forall|m: int|
                    0 <= m < k ==> (#[trigger] dw_rows@[m]) == (DbDocWord {
                        word: doc.term_freq@[m].0,
                        id_doc: id,
                        apparition: doc.term_freq@[m].1,
                        total_terms: doc.count_words,
                    }),
            decreases term_freq@.len() - k,
        {
            let w = term_freq[k].0.clone();
            let c = term_freq[k].1;
            let e = DbDocWord { word: w, id_doc: id, apparition: c, total_terms: count_words };
            let ghost ge = e;
            let ghost old_rows = dw_rows@;
            dw_rows.push(e);
            proof {
                assert(dw_rows@ == old_rows.push(ge));
                assert(ge.word == doc.term_freq@[k as int].0);
            }
            k = k + 1;
        }
        proof {
            assert(dw_rows@ =~= Store::doc_word_rows(doc, id));
            if store0.counters_bounded() {
                assert forall|m: int| 0 <= m < store.words@.len() implies (
                #[trigger] store.words@[m]).apparitions <= store.documents@.len() by {
                    let w = store.words@[m].word@;
                    lemma_apparitions_at(store.words@, m);
                    if has_word(store0.words@, w) {
                        let k = choose|k: int|
                            0 <= k < store0.words@.len() && (#[trigger] store0.words@[k]).word@
                                == w;
                        lemma_apparitions_at(store0.words@, k);
                    } else {
                        lemma_apparitions_absent(store0.words@, w);
                    }
                    if in_rows(word_rows@, w) {
                        let r = choose|r: int|
                            0 <= r < word_rows@.len() && (#[trigger] word_rows@[r]).word@ == w;
                        assert(apparitions_of(store.words@, word_rows@[r].word@)
                            == apparitions_of(store1.words@, word_rows@[r].word@) + 1);
                    }
                }
            }
        }
        store.insert_doc_words(dw_rows);
    }
}

} // verus!
