//! Counting letters, sentences and words of a text.

use vstd::prelude::*;
use crate::text::chars_of;

verus! {

/// Counts after reading a text: letters, sentences, words, and whether the
/// last character read continues a word.
pub struct TextCounts {
    pub letters: int,
    pub sentences: int,
    pub words: int,
    pub in_word: bool,
}

/// An ASCII letter.
pub open spec fn is_ascii_letter(ch: char) -> bool {
    ('a' <= ch <= 'z') || ('A' <= ch <= 'Z')
}

/// A mark that ends a sentence.
pub open spec fn ends_sentence(ch: char) -> bool {
    ch == '.' || ch == '!' || ch == '?'
}

/// The counts after reading `s`: a space ends a word; `.`, `!` and `?` end a
/// sentence and a word; a letter counts, and starts a word when none is
/// open; other characters change nothing.
pub open spec fn text_counts(s: Seq<char>) -> TextCounts
    decreases s.len(),
{
    if s.len() == 0 {
        TextCounts { letters: 0, sentences: 0, words: 0, in_word: false }
    } else {
        let c = text_counts(s.drop_last());
        let ch = s.last();
        if ch == ' ' {
            TextCounts { in_word: false, ..c }
        } else if ends_sentence(ch) {
            TextCounts { sentences: c.sentences + 1, in_word: false, ..c }
        } else if is_ascii_letter(ch) {
            TextCounts {
                letters: c.letters + 1,
                words: if c.in_word { c.words } else { c.words + 1 },
                in_word: true,
                ..c
            }
        } else {
            c
        }
    }
}

proof fn lemma_counts_bound(s: Seq<char>)
    ensures
        0 <= text_counts(s).letters <= s.len(),
        0 <= text_counts(s).sentences <= s.len(),
        0 <= text_counts(s).words <= s.len(),
    decreases s.len(),
{
    if s.len() > 0 {
        lemma_counts_bound(s.drop_last());
    }
}

/// Counts the letters, sentences and words of a text.
pub fn letters_sentences_words(text: &str) -> (r: (i32, i32, i32))
    requires
        text@.len() <= i32::MAX,
    ensures
        r.0 == text_counts(text@).letters,
        r.1 == text_counts(text@).sentences,
        r.2 == text_counts(text@).words,
{
    let chars = chars_of(text);
    let mut letters: i32 = 0;
    let mut sentences: i32 = 0;
    let mut words: i32 = 0;
    let mut word = false;
    let mut i: usize = 0;
    while i < chars.len()
        invariant
            chars@ == text@,
            chars@.len() <= i32::MAX,
            i <= chars@.len(),
            letters == text_counts(chars@.take(i as int)).letters,
            sentences == text_counts(chars@.take(i as int)).sentences,
            words == text_counts(chars@.take(i as int)).words,
            word == text_counts(chars@.take(i as int)).in_word,
        decreases chars@.len() - i,
    {
        proof {
            lemma_counts_bound(chars@.take(i as int));
        }
        assert(chars@.take(i + 1).drop_last() =~= chars@.take(i as int));
        let ch = chars[i];
        if ch == ' ' {
            word = false;
        } else if ch == '.' || ch == '!' || ch == '?' {
            sentences = sentences + 1;
            word = false;
        } else if ('a' <= ch && ch <= 'z') || ('A' <= ch && ch <= 'Z') {
            letters = letters + 1;
            if !word {
                words = words + 1;
                word = true;
            }
        }
        i = i + 1;
    }
    assert(chars@.take(i as int) =~= chars@);
    (letters, sentences, words)
}

} // verus!
