//! Per-file decisions of an indexing run: which files are eligible, and the
//! indexing-and-persisting step for one file.
//!
//! Directory traversal and text extraction are I/O and belong to the calling
//! program: it walks the tree, reads each file, and hands the path and the
//! extracted text (or nothing, when the file was unreadable) to
//! [`index_file`]. A file that is ineligible, unreadable, or empty of tokens
//! is skipped, and the store is left exactly as it was.

use vstd::prelude::*;

use crate::document::{count_in, has_key, index_from_str, sum_counts};
use crate::store::{apparitions_of, Store};
use crate::tokenizer::tokenize;

verus! {

/// Index of the first character of the final path component: the position
/// right after the last `/`, or zero when the path has no separator.
pub open spec fn file_name_start(p: Seq<char>) -> int
    decreases p.len(),
{
    if p.len() == 0 {
        0
    } else if p.last() == '/' {
        p.len() as int
    } else {
        file_name_start(p.drop_last())
    }
}

/// Index of the last `.` of `q`, or minus one when `q` has none.
pub open spec fn last_dot(q: Seq<char>) -> int
    decreases q.len(),
{
    if q.len() == 0 {
        -1
    } else if q.last() == '.' {
        q.len() - 1
    } else {
        last_dot(q.drop_last())
    }
}

/// The extension of a path: what follows the last `.` of the final path
/// component. A component without a dot, or whose only dot begins it (a
/// hidden file), has no extension.
pub open spec fn extension_of(p: Seq<char>) -> Option<Seq<char>> {
    let name = p.subrange(file_name_start(p), p.len() as int);
    let d = last_dot(name);
    if d <= 0 {
        None
    } else {
        Some(name.subrange(d + 1, name.len() as int))
    }
}

/// The fixed set of supported file extensions: `txt` and `pdf`.
pub open spec fn is_supported_path(p: Seq<char>) -> bool {
    extension_of(p) == Some("txt"@) || extension_of(p) == Some("pdf"@)
}

/// `s` marks the start of the final component: no separator at or after `s`,
/// and a separator right before it unless it is the very start.
proof fn lemma_file_name_start(p: Seq<char>, s: int)
    requires
        0 <= s <= p.len(),
        forall|m: int| s <= m < p.len() ==> p[m] != '/',
        s > 0 ==> p[s - 1] == '/',
    ensures
        file_name_start(p) == s,
    decreases p.len(),
{
    if p.len() == 0 {
    } else if s == p.len() {
        assert(p.last() == '/');
    } else {
        assert(p.last() != '/');
        lemma_file_name_start(p.drop_last(), s);
    }
}

/// `d` marks the last dot: a dot at `d` (or none at all when `d` is minus
/// one) and no dot after it.
proof fn lemma_last_dot(q: Seq<char>, d: int)
    requires
        -1 <= d < q.len(),
        d >= 0 ==> q[d] == '.',
        forall|m: int| d < m < q.len() ==> q[m] != '.',
    ensures
        last_dot(q) == d,
    decreases q.len(),
{
    if q.len() == 0 {
    } else if d == q.len() - 1 {
    } else {
        assert(q.last() != '.');
        lemma_last_dot(q.drop_last(), d);
    }
}

/// Whether the path names a file of a supported type, decided by its
/// extension: exactly `txt` and `pdf` are supported.
pub fn is_valid_file(path: &str) -> (r: bool)
    ensures
        r == is_supported_path(path@),
{
    let n: usize = path.unicode_len();
    let mut i: usize = n;
    let mut hit_sep: bool = false;
    let mut dot: usize = 0;
    let mut found_dot: bool = false;
    while i > 0 && !hit_sep
        invariant
            n == path@.len(),
            i <= n,
            forall|m: int| i <= m < n ==> path@[m] != '/',
            hit_sep ==> i > 0 && path@[i - 1] == '/',
            found_dot ==> i <= dot && dot < n && path@[dot as int] == '.',
            found_dot ==> forall|m: int| dot < m < n ==> path@[m] != '.',
            !found_dot ==> forall|m: int| i <= m < n ==> path@[m] != '.',
        decreases i + if hit_sep {
            0int
        } else {
            1int
        },
    {
        let c = path.get_char(i - 1);
        if c == '/' {
            hit_sep = true;
        } else {
            if c == '.' && !found_dot {
                dot = i - 1;
                found_dot = true;
            }
            i = i - 1;
        }
    }
    let ghost name = path@.subrange(i as int, n as int);
    proof {
        lemma_file_name_start(path@, i as int);
        if found_dot {
            lemma_last_dot(name, dot - i);
        } else {
            lemma_last_dot(name, -1);
        }
        reveal_strlit("txt");
        reveal_strlit("pdf");
    }
    if !found_dot {
        return false;
    }
    if dot <= i {
        // The only dot of the component begins it: a hidden file, no extension.
        return false;
    }
    let ghost ext = name.subrange(dot - i + 1, name.len() as int);
    proof {
        assert(extension_of(path@) == Some(ext));
        assert(ext =~= path@.subrange(dot + 1, n as int));
    }
    if n - dot - 1 != 3 {
        proof {
            assert(ext.len() != 3);
        }
        return false;
    }
    let c1 = path.get_char(dot + 1);
    let c2 = path.get_char(dot + 2);
    let c3 = path.get_char(dot + 3);
    let is_txt = c1 == 't' && c2 == 'x' && c3 == 't';
    let is_pdf = c1 == 'p' && c2 == 'd' && c3 == 'f';
    proof {
        assert(ext.len() == 3 && ext[0] == path@[dot + 1] && ext[1] == path@[dot + 2] && ext[2]
            == path@[dot + 3]);
        if is_txt {
            assert(ext =~= "txt"@);
        } else {
            assert(ext != "txt"@);
        }
        if is_pdf {
            assert(ext =~= "pdf"@);
        } else {
            assert(ext != "pdf"@);
        }
    }
    is_txt || is_pdf
}

/// Some token of `toks` is the word `w`.
pub open spec fn has_token(toks: Seq<Seq<char>>, w: Seq<char>) -> bool {
    exists|k: int| 0 <= k < toks.len() && #[trigger] toks[k] == w
}

/// A table whose counts are all positive has no more entries than their sum.
proof fn lemma_len_le_sum(entries: Seq<(String, usize)>)
    requires
        forall|i: int| 0 <= i < entries.len() ==> (#[trigger] entries[i]).1 >= 1,
    ensures
        entries.len() <= sum_counts(entries),
    decreases entries.len(),
{
    if entries.len() > 0 {
        assert(forall|i: int|
            0 <= i < entries.drop_last().len() ==> (#[trigger] entries.drop_last()[i])
                == entries[i]);
        lemma_len_le_sum(entries.drop_last());
    }
}

/// The indexing step for one file, given the text the caller extracted from
/// it (or nothing, when the file was unreadable). Skips the file — leaving
/// the store exactly as it was — unless its extension is supported, text was
/// extracted, and the text yields at least one token; otherwise builds the
/// document and persists it: one fresh document row, one `apparitions`
/// increment per distinct term, one association row per distinct term.
pub fn index_file(store: &mut Store, path: &str, content: Option<String>) -> (indexed: bool)
    requires
        old(store).wf(),
        old(store).not_saturated(),
        old(store).documents@.len() < usize::MAX,
        content is Some ==> old(store).words@.len() + tokenize(content->Some_0@).len() <= usize::MAX,
    ensures
        final(store).wf(),
        old(store).counters_bounded() ==> final(store).counters_bounded(),
        content is Some ==> final(store).words@.len() <= old(store).words@.len() + tokenize(
            content->Some_0@,
        ).len(),
        content is None ==> final(store).words@.len() == old(store).words@.len(),
        indexed <==> is_supported_path(path@) && content is Some && tokenize(content->Some_0@).len()
            > 0,
        !indexed ==> *final(store) == *old(store),
        indexed ==> {
            let toks = tokenize(content->Some_0@);
            let id = old(store).documents@.len() + 1;
            &&& final(store).documents@.len() == old(store).documents@.len() + 1
            &&& final(store).documents@.last().id == id
            &&& final(store).documents@.last().total_terms == toks.len()
            &&& final(store).documents@.last().path@ == path@
            &&& final(store).documents@.take(old(store).documents@.len() as int) == old(
                store,
            ).documents@
            &&& forall|w: Seq<char>|
                has_token(toks, w) ==> apparitions_of(final(store).words@, w) == apparitions_of(
                    old(store).words@,
                    w,
                ) + 1
            &&& forall|w: Seq<char>|
                !has_token(toks, w) ==> apparitions_of(final(store).words@, w) == apparitions_of(
                    old(store).words@,
                    w,
                )
            &&& final(store).doc_words@.take(old(store).doc_words@.len() as int) == old(
                store,
            ).doc_words@
            &&& forall|j: int|
                old(store).doc_words@.len() <= j < final(store).doc_words@.len() ==> {
                    let row = #[trigger] final(store).doc_words@[j];
                    &&& row.id_doc == id
                    &&& row.total_terms == toks.len()
                    &&& row.apparition as nat == count_in(toks, row.word@)
                    &&& row.apparition >= 1
                    &&& has_token(toks, row.word@)
                }
            &&& forall|w: Seq<char>|
                has_token(toks, w) ==> exists|j: int|
                    old(store).doc_words@.len() <= j < final(store).doc_words@.len() && (
                    #[trigger] final(store).doc_words@[j]).word@ == w
        },
{
    if !is_valid_file(path) {
        return false;
    }
    let text = match content {
        Some(text) => text,
        None => {
            return false;
        },
    };
    let doc = match index_from_str(text.as_str(), path) {
        Some(doc) => doc,
        None => {
            return false;
        },
    };
    let ghost toks = tokenize(text@);
    let ghost doc0 = doc;
    let ghost store0 = *store;
    proof {
        lemma_len_le_sum(doc.term_freq@);
        assert forall|w: Seq<char>| has_key(doc0.term_freq@, w) implies has_token(toks, w) by {
            let i = choose|i: int|
                0 <= i < doc0.term_freq@.len() && (#[trigger] doc0.term_freq@[i]).0@ == w;
            assert(doc0.term_freq@[i].1 as nat == count_in(toks, w));
            crate::document::lemma_count_in_pos(toks, w);
        }
    }
    doc.save(store);
    proof {
        let id = (store0.documents@.len() + 1) as usize;
        assert(store.documents@ == store0.documents@.push(
            (crate::store::DbDocument {
                id,
                total_terms: doc0.count_words,
                path: doc0.path,
            }),
        ));
        assert(store.documents@.take(store0.documents@.len() as int) =~= store0.documents@);
        assert(store.doc_words@.take(store0.doc_words@.len() as int) =~= store0.doc_words@);
        let rows = Store::doc_word_rows(doc0, id);
        assert forall|w: Seq<char>|
            has_token(toks, w) implies apparitions_of(store.words@, w) == apparitions_of(
            store0.words@,
            w,
        ) + 1 by {
            let k = choose|k: int| 0 <= k < toks.len() && #[trigger] toks[k] == w;
            assert(has_key(doc0.term_freq@, toks[k]));
            let i = choose|i: int|
                0 <= i < doc0.term_freq@.len() && (#[trigger] doc0.term_freq@[i]).0@ == w;
            assert(apparitions_of(store.words@, doc0.term_freq@[i].0@) == apparitions_of(
                store0.words@,
                doc0.term_freq@[i].0@,
            ) + 1);
        }
        assert forall|w: Seq<char>|
            !has_token(toks, w) implies apparitions_of(store.words@, w) == apparitions_of(
            store0.words@,
            w,
        ) by {
            assert(!has_key(doc0.term_freq@, w));
        }
        assert forall|j: int|
            store0.doc_words@.len() <= j < store.doc_words@.len() implies {
            let row = #[trigger] store.doc_words@[j];
            &&& row.id_doc == id
            &&& row.total_terms == toks.len()
            &&& row.apparition as nat == count_in(toks, row.word@)
            &&& row.apparition >= 1
            &&& has_token(toks, row.word@)
        } by {
            let m = j - store0.doc_words@.len();
            assert(store.doc_words@[j] == rows[m]);
            assert(rows[m].word@ == doc0.term_freq@[m].0@);
            assert(has_key(doc0.term_freq@, doc0.term_freq@[m].0@));
        }
        assert forall|w: Seq<char>| has_token(toks, w) implies exists|j: int|
            store0.doc_words@.len() <= j < store.doc_words@.len() && (
            #[trigger] store.doc_words@[j]).word@ == w by {
            let k = choose|k: int| 0 <= k < toks.len() && #[trigger] toks[k] == w;
            assert(has_key(doc0.term_freq@, toks[k]));
            let i = choose|i: int|
                0 <= i < doc0.term_freq@.len() && (#[trigger] doc0.term_freq@[i]).0@ == w;
            assert(store.doc_words@[store0.doc_words@.len() + i] == rows[i]);
            assert((store.doc_words@[store0.doc_words@.len() + i]).word@ == w);
        }
    }
    true
}

} // verus!
