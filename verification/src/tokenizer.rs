//! Tokenization: raw text to a finite sequence of normalized word tokens.
//!
//! A token is a maximal run of ASCII letters; every other character is a
//! separator and is discarded. Tokens are case-folded to lower case, so
//! `"Word"` and `"word"` collapse to the same term. Empty input, or input
//! with no letters at all, yields no tokens.

use vstd::prelude::*;

verus! {

/// A character that may form part of a word token: an ASCII letter.
pub open spec fn is_word_char(c: char) -> bool {
    ('a' <= c && c <= 'z') || ('A' <= c && c <= 'Z')
}

/// Case folding for characters: ASCII upper case maps to lower case,
/// everything else is unchanged.
pub open spec fn fold_char(c: char) -> char {
    if 'A' <= c && c <= 'Z' {
        ((c as u8) + 32) as char
    } else {
        c
    }
}

/// One step of the tokenizing scan. The state is the sequence of finished
/// tokens together with the (possibly empty) token being accumulated.
pub open spec fn tok_step(acc: (Seq<Seq<char>>, Seq<char>), c: char) -> (Seq<Seq<char>>, Seq<
    char,
>) {
    if is_word_char(c) {
        (acc.0, acc.1.push(fold_char(c)))
    } else if acc.1.len() > 0 {
        (acc.0.push(acc.1), Seq::empty())
    } else {
        acc
    }
}

/// The tokenizer state after scanning all of `s`, starting from the empty
/// state.
pub open spec fn tok_state(s: Seq<char>) -> (Seq<Seq<char>>, Seq<char>)
    decreases s.len(),
{
    if s.len() == 0 {
        (Seq::empty(), Seq::empty())
    } else {
        tok_step(tok_state(s.drop_last()), s.last())
    }
}

/// The sequence of normalized word tokens of `s`: the finished tokens of the
/// scan, closed off with the trailing token if one was still being read.
pub open spec fn tokenize(s: Seq<char>) -> Seq<Seq<char>> {
    let st = tok_state(s);
    if st.1.len() > 0 {
        st.0.push(st.1)
    } else {
        st.0
    }
}

/// Every character of every token is a folded (lower-case) letter, and no
/// token is empty.
pub open spec fn is_token(t: Seq<char>) -> bool {
    &&& t.len() > 0
    &&& forall|i: int| 0 <= i < t.len() ==> 'a' <= #[trigger] t[i] && t[i] <= 'z'
}

/// Executable test for a word character.
pub fn word_char(c: char) -> (r: bool)
    ensures
        r == is_word_char(c),
{
    ('a' <= c && c <= 'z') || ('A' <= c && c <= 'Z')
}

/// Executable case folding for word characters.
pub fn lower_char(c: char) -> (r: char)
    requires
        is_word_char(c),
    ensures
        r == fold_char(c),
{
    if 'A' <= c && c <= 'Z' {
        (((c as u8) + 32) as char)
    } else {
        c
    }
}

/// Relies on std's `FromIterator` for `String`: collecting a vector of
/// characters yields the string of exactly those characters.
#[verifier::external_body]
fn string_from_chars(v: &Vec<char>) -> (s: String)
    ensures
        s@ == v@,
{
    v.iter().collect()
}

/// Tokenizing an empty text, or a text with no word characters, yields no
/// tokens, and the scan ends with nothing accumulated.
pub proof fn lemma_tok_state_no_word_chars(s: Seq<char>)
    requires
        forall|i: int| 0 <= i < s.len() ==> !is_word_char(#[trigger] s[i]),
    ensures
        tok_state(s) == (Seq::<Seq<char>>::empty(), Seq::<char>::empty()),
    decreases s.len(),
{
    if s.len() > 0 {
        lemma_tok_state_no_word_chars(s.drop_last());
    }
}

/// Tokenizing text without any word character yields the empty sequence;
/// in particular the empty text has no tokens.
pub proof fn lemma_tokenize_no_word_chars(s: Seq<char>)
    requires
        forall|i: int| 0 <= i < s.len() ==> !is_word_char(#[trigger] s[i]),
    ensures
        tokenize(s) == Seq::<Seq<char>>::empty(),
{
    lemma_tok_state_no_word_chars(s);
}

/// Every token the scan produces is a nonempty run of folded letters.
pub proof fn lemma_tok_state_tokens(s: Seq<char>)
    ensures
        forall|k: int|
            0 <= k < tok_state(s).0.len() ==> is_token(#[trigger] tok_state(s).0[k]),
        forall|i: int|
            0 <= i < tok_state(s).1.len() ==> 'a' <= #[trigger] tok_state(s).1[i]
                && tok_state(s).1[i] <= 'z',
    decreases s.len(),
{
    if s.len() > 0 {
        lemma_tok_state_tokens(s.drop_last());
        let st = tok_state(s.drop_last());
        let c = s.last();
        if is_word_char(c) {
            assert('a' <= fold_char(c) && fold_char(c) <= 'z') by {
                if 'A' <= c && c <= 'Z' {
                    assert('a' <= ((c as u8) + 32) as char <= 'z');
                }
            }
            assert(forall|i: int|
                0 <= i < st.1.push(fold_char(c)).len() ==> 'a' <= #[trigger] st.1.push(
                    fold_char(c),
                )[i] && st.1.push(fold_char(c))[i] <= 'z');
        } else if st.1.len() > 0 {
            assert(is_token(st.1));
            assert(forall|k: int|
                0 <= k < st.0.push(st.1).len() ==> is_token(#[trigger] st.0.push(st.1)[k]));
        }
    }
}

/// The scan never has more finished tokens (plus the one in progress) than
/// characters read: every token consumes at least one character.
proof fn lemma_tok_state_len(s: Seq<char>)
    ensures
        tok_state(s).0.len() + (if tok_state(s).1.len() > 0 {
            1nat
        } else {
            0nat
        }) <= s.len(),
    decreases s.len(),
{
    if s.len() > 0 {
        lemma_tok_state_len(s.drop_last());
    }
}

/// A text yields at most as many tokens as it has characters.
pub proof fn lemma_tokenize_len(s: Seq<char>)
    ensures
        tokenize(s).len() <= s.len(),
{
    lemma_tok_state_len(s);
}

/// Every token of `tokenize(s)` is a nonempty run of lower-case letters.
pub proof fn lemma_tokenize_tokens(s: Seq<char>)
    ensures
        forall|k: int| 0 <= k < tokenize(s).len() ==> is_token(#[trigger] tokenize(s)[k]),
{
    lemma_tok_state_tokens(s);
}

/// Converts raw text into the sequence of its normalized word tokens, in
/// order of appearance (duplicates kept).
pub fn tokenize_text(text: &str) -> (tokens: Vec<String>)
    ensures
        tokens.deep_view() == tokenize(text@),
{
    let n: usize = text.unicode_len();
    let mut tokens: Vec<String> = Vec::new();
    let mut cur: Vec<char> = Vec::new();
    let mut i: usize = 0;
    proof {
        assert(text@.take(0) =~= Seq::<char>::empty());
    }
    while i < n
        invariant
            n == text@.len(),
            i <= n,
            (tokens.deep_view(), cur@) == tok_state(text@.take(i as int)),
        decreases n - i,
    {
        let c = text.get_char(i);
        proof {
            assert(text@.take(i + 1).drop_last() =~= text@.take(i as int));
            assert(text@.take(i + 1).last() == text@[i as int]);
        }
        if word_char(c) {
            cur.push(lower_char(c));
        } else if cur.len() > 0 {
            let tok = string_from_chars(&cur);
            tokens.push(tok);
            cur = Vec::new();
            proof {
                assert(tokens.deep_view() =~= tok_state(text@.take(i as int)).0.push(
                    tok_state(text@.take(i as int)).1,
                ));
            }
        }
        i = i + 1;
    }
    proof {
        assert(text@.take(n as int) =~= text@);
    }
    if cur.len() > 0 {
        let tok = string_from_chars(&cur);
        tokens.push(tok);
        proof {
            assert(tokens.deep_view() =~= tok_state(text@).0.push(tok_state(text@).1));
        }
    }
    tokens
}

} // verus!
