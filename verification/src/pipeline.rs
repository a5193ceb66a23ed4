//! What the per-word pipeline makes of a line of text, as a specification.
//!
//! A line is lowercased where that is configured and cut into words. Each
//! word loses its possessive suffix, is dropped where it is a stopword, is
//! stemmed and then normalized, and is dropped where nothing is left of it.

use crate::model::all_nonempty;
use crate::normalization::Normalization;
use crate::possessive::without_possessive;
use crate::segmenter::lowercase_of;
use crate::segmenter::words_of;
use crate::stemmer::Stemmer;
use vstd::prelude::*;

verus! {

/// The settings that decide which tokens a text yields.
pub struct Pipeline {
    pub lowercase: bool,
    pub stopwords: Set<Seq<char>>,
    pub stemmer: Stemmer,
    pub norm: Normalization,
}

impl Pipeline {
    /// The words of `line`, found after lowercasing where that is configured.
    pub open spec fn words(self, line: Seq<char>) -> Seq<Seq<char>> {
        if self.lowercase {
            words_of(lowercase_of(line))
        } else {
            words_of(line)
        }
    }

    /// Whether `word`, once its possessive suffix is gone, is a stopword.
    pub open spec fn is_stopword(self, word: Seq<char>) -> bool {
        self.stopwords.contains(without_possessive(word))
    }

    /// Whether the pipeline can take `word`: a word that reaches the stemmer
    /// is one that the stemmer can take.
    pub open spec fn can_process(self, word: Seq<char>) -> bool {
        !self.is_stopword(word) ==> self.stemmer.can_stem(without_possessive(word))
    }

    /// The token that `word` yields, or `None` where it is dropped: where it
    /// is a stopword, or where stemming and normalization leave nothing.
    pub open spec fn token_of(self, word: Seq<char>) -> Option<Seq<char>> {
        let token = self.norm.normalized(self.stemmer.stemmed(without_possessive(word)));
        if self.is_stopword(word) || token.len() == 0 {
            None
        } else {
            Some(token)
        }
    }

    /// The tokens that `words` yield, in order.
    pub open spec fn tokens_from(self, words: Seq<Seq<char>>) -> Seq<Seq<char>>
        decreases words.len(),
    {
        if words.len() == 0 {
            Seq::empty()
        } else {
            let tokens = self.tokens_from(words.drop_last());
            match self.token_of(words.last()) {
                Some(token) => tokens.push(token),
                None => tokens,
            }
        }
    }

    /// The tokens of `line`, in the order of its words.
    pub open spec fn tokens_of(self, line: Seq<char>) -> Seq<Seq<char>> {
        self.tokens_from(self.words(line))
    }

    /// Whether the pipeline can take every word of `words`.
    pub open spec fn can_process_all(self, words: Seq<Seq<char>>) -> bool {
        forall|i: int| 0 <= i < words.len() ==> self.can_process(#[trigger] words[i])
    }

    /// Whether the pipeline can take `line`: it can take each of its words.
    pub open spec fn accepts(self, line: Seq<char>) -> bool {
        self.can_process_all(self.words(line))
    }

    /// Whether the pipeline can take each of `lines`.
    pub open spec fn accepts_all(self, lines: Seq<Seq<char>>) -> bool {
        forall|i: int| 0 <= i < lines.len() ==> self.accepts(#[trigger] lines[i])
    }

    /// The tokens of `lines`, line after line.
    pub open spec fn corpus_tokens(self, lines: Seq<Seq<char>>) -> Seq<Seq<char>>
        decreases lines.len(),
    {
        if lines.len() == 0 {
            Seq::empty()
        } else {
            self.corpus_tokens(lines.drop_last()) + self.tokens_of(lines.last())
        }
    }

    /// Stopword exclusion: a word that is a stopword once its possessive
    /// suffix is gone yields no token, whatever stemmer and normalization
    /// are selected.
    pub proof fn lemma_stopword_dropped(self, word: Seq<char>)
        requires
            self.is_stopword(word),
        ensures
            self.token_of(word) is None,
    {
    }

    /// The tokens of one more word after `words`.
    pub proof fn lemma_tokens_from_push(self, words: Seq<Seq<char>>, word: Seq<char>)
        ensures
            self.tokens_from(words.push(word)) == (match self.token_of(word) {
                Some(token) => self.tokens_from(words).push(token),
                None => self.tokens_from(words),
            }),
    {
        assert(words.push(word).drop_last() =~= words);
    }

    /// No token is empty, and words yield at most one token each.
    pub proof fn lemma_tokens_from(self, words: Seq<Seq<char>>)
        ensures
            all_nonempty(self.tokens_from(words)),
            self.tokens_from(words).len() <= words.len(),
        decreases words.len(),
    {
        if words.len() > 0 {
            self.lemma_tokens_from(words.drop_last());
        }
    }

    /// The tokens of one more line after `lines`.
    pub proof fn lemma_corpus_tokens_push(self, lines: Seq<Seq<char>>, line: Seq<char>)
        ensures
            self.corpus_tokens(lines.push(line)) == self.corpus_tokens(lines) + self.tokens_of(
                line,
            ),
    {
        assert(lines.push(line).drop_last() =~= lines);
    }

    /// The tokens of a corpus are those of its first lines followed by those
    /// of the rest.
    pub proof fn lemma_corpus_tokens_concat(self, first: Seq<Seq<char>>, second: Seq<Seq<char>>)
        ensures
            self.corpus_tokens(first + second) == self.corpus_tokens(first) + self.corpus_tokens(
                second,
            ),
        decreases second.len(),
    {
        if second.len() == 0 {
            assert(first + second =~= first);
            assert(self.corpus_tokens(first) + Seq::<Seq<char>>::empty() =~= self.corpus_tokens(
                first,
            ));
        } else {
            self.lemma_corpus_tokens_concat(first, second.drop_last());
            assert((first + second).drop_last() =~= first + second.drop_last());
            assert((first + second).last() == second.last());
            assert(self.corpus_tokens(first) + self.corpus_tokens(second.drop_last())
                + self.tokens_of(second.last()) =~= self.corpus_tokens(first) + (
            self.corpus_tokens(second.drop_last()) + self.tokens_of(second.last())));
        }
    }

    /// No token of a corpus is empty.
    pub proof fn lemma_corpus_tokens(self, lines: Seq<Seq<char>>)
        ensures
            all_nonempty(self.corpus_tokens(lines)),
        decreases lines.len(),
    {
        if lines.len() > 0 {
            self.lemma_corpus_tokens(lines.drop_last());
            self.lemma_tokens_from(self.words(lines.last()));
            let front = self.corpus_tokens(lines.drop_last());
            let back = self.tokens_of(lines.last());
            assert forall|i: int| 0 <= i < (front + back).len() implies (#[trigger] (front
                + back)[i]).len() > 0 by {
                if i < front.len() {
                    assert((front + back)[i] == front[i]);
                } else {
                    assert((front + back)[i] == back[i - front.len()]);
                }
            }
        }
    }
}

} // verus!
