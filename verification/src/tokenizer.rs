//! Naive tokenizer for Unicode.

use crate::listing::with_words;
use crate::model::all_nonempty;
use crate::model::VocabularyModel;
use crate::pipeline::Pipeline;
use crate::possessive::strip_possessive;
use crate::segmenter::to_lowercase;
use crate::segmenter::unicode_words;
use crate::stopwords::default_stopwords;
use crate::stopwords::default_words;
use crate::stopwords::StopwordSet;
use crate::views::option_text;
use crate::views::texts;
use crate::vocabulary::Vocabulary;
use std::borrow::Cow;
use vstd::prelude::*;
use vstd::string::*;

pub use crate::normalization::Normalization;
pub use crate::possessive::english_possessive_filter;
pub use crate::stemmer::Stemmer;

verus! {

/// Tokenizer for text keyword match.
pub struct Tokenizer {
    /// The minimum frequency of the token to be kept when calling `trim`.
    pub min_freq: u32,
    /// Whether a text is lowercased before it is cut into words.
    pub lowercase: bool,
    /// The stopwords set.
    pub stopwords: StopwordSet,
    /// The normalization method.
    pub norm: Normalization,
    /// The stemmer method.
    pub stemmer: Stemmer,
    /// The table of tokens and ids, with the counter.
    pub vocabulary: Vocabulary,
}

impl Tokenizer {
    /// The settings that decide which tokens a text yields.
    pub open spec fn pipeline(&self) -> Pipeline {
        Pipeline {
            lowercase: self.lowercase,
            stopwords: self.stopwords@,
            stemmer: self.stemmer,
            norm: self.norm,
        }
    }

    /// The vocabulary table.
    pub open spec fn vocab(&self) -> VocabularyModel {
        self.vocabulary@
    }

    /// The table is a well-formed vocabulary whose ids and counts fit in
    /// `u32`, and its index agrees with it.
    pub open spec fn wf(&self) -> bool {
        self.vocabulary.wf()
    }

    /// Whether `other` has the settings of `self`.
    pub open spec fn same_settings(&self, other: &Self) -> bool {
        &&& self.min_freq == other.min_freq
        &&& self.lowercase == other.lowercase
        &&& self.stopwords == other.stopwords
        &&& self.norm == other.norm
        &&& self.stemmer == other.stemmer
    }

    /// The ids that `tokenize` returns for `line`.
    pub open spec fn tokenized(&self, line: Seq<char>) -> Seq<u32> {
        self.vocab().ids_of(self.pipeline().tokens_of(line))
    }

    /// The table after fitting on `lines`.
    pub open spec fn fitted(&self, lines: Seq<Seq<char>>) -> VocabularyModel {
        self.vocab().learn_all(self.pipeline().corpus_tokens(lines))
    }

    /// Whether `fit` can take `lines`: the pipeline can take every line, and
    /// the ids and counts of the table after fitting fit in `u32`.
    pub open spec fn can_fit(&self, lines: Seq<Seq<char>>) -> bool {
        &&& self.pipeline().accepts_all(lines)
        &&& self.fitted(lines).fits()
    }

    /// Whether the pipeline can take `word`: whether it is a stopword or
    /// short enough for the stemmer.
    pub fn accepts_word(&self, word: &str) -> (ok: bool)
        ensures
            ok == self.pipeline().can_process(word@),
    {
        let bare = strip_possessive(word);
        if self.stopwords.contains(bare.as_str()) {
            true
        } else {
            self.stemmer.accepts_len(bare.as_str().as_bytes().len())
        }
    }

    /// Runs one word through the pipeline: strips its possessive suffix,
    /// drops it where it is a stopword, stems it, normalizes it, and drops
    /// it where nothing is left.
    pub fn process_word(&self, word: &str) -> (token: Option<String>)
        requires
            self.pipeline().can_process(word@),
        ensures
            option_text(token) == self.pipeline().token_of(word@),
    {
        let bare = strip_possessive(word);
        if self.stopwords.contains(bare.as_str()) {
            return None;
        }
        let stem = self.stemmer.stem(bare.as_str());
        let token = match &stem {
            Cow::Borrowed(text) => self.norm.normalize(text),
            Cow::Owned(text) => self.norm.normalize(text.as_str()),
        };
        if token.as_str().is_empty() {
            None
        } else {
            Some(token)
        }
    }

    /// The words of `content`, found after lowercasing where that is
    /// configured.
    fn words(&self, content: &str) -> (words: Vec<String>)
        ensures
            texts(words@) == self.pipeline().words(content@),
    {
        if self.lowercase {
            let lower = to_lowercase(content);
            unicode_words(lower.as_str())
        } else {
            unicode_words(content)
        }
    }

    /// Whether the pipeline can take `content`: each of its words is a
    /// stopword or short enough for the stemmer.
    pub fn accepts(&self, content: &str) -> (ok: bool)
        ensures
            ok == self.pipeline().accepts(content@),
    {
        let words = self.words(content);
        let ghost all = texts(words@);
        let n = words.len();
        let mut i: usize = 0;
        while i < n
            invariant
                n == words@.len(),
                all == texts(words@),
                all == self.pipeline().words(content@),
                i <= n,
                forall|k: int| 0 <= k < i ==> self.pipeline().can_process(#[trigger] all[k]),
            decreases n - i,
        {
            if !self.accepts_word(words[i].as_str()) {
                assert(!self.pipeline().can_process(all[i as int]));
                return false;
            }
            i += 1;
        }
        true
    }

    /// The tokens of `content`, in the order of its words.
    pub fn get_token(&self, content: &str) -> (tokens: Vec<String>)
        requires
            self.pipeline().accepts(content@),
        ensures
            texts(tokens@) == self.pipeline().tokens_of(content@),
            all_nonempty(texts(tokens@)),
    {
        let words = self.words(content);
        let ghost all = texts(words@);
        let ghost pipeline = self.pipeline();
        let mut tokens: Vec<String> = Vec::new();
        let n = words.len();
        let mut i: usize = 0;
        proof {
            assert(all.take(0) =~= Seq::empty());
            assert(texts(tokens@) =~= Seq::empty());
        }
        while i < n
            invariant
                n == words@.len(),
                all == texts(words@),
                pipeline == self.pipeline(),
                pipeline.can_process_all(all),
                i <= n,
                texts(tokens@) == pipeline.tokens_from(all.take(i as int)),
            decreases n - i,
        {
            proof {
                assert(all.take(i + 1) =~= all.take(i as int).push(all[i as int]));
                pipeline.lemma_tokens_from_push(all.take(i as int), all[i as int]);
                assert(pipeline.can_process(all[i as int]));
            }
            let ghost before = tokens@;
            match self.process_word(words[i].as_str()) {
                Some(token) => {
                    let ghost text = token@;
                    tokens.push(token);
                    assert(texts(tokens@) =~= texts(before).push(text));
                },
                None => {},
            }
            i += 1;
        }
        proof {
            assert(all.take(n as int) =~= all);
            pipeline.lemma_tokens_from(all);
        }
        tokens
    }

    /// Records the occurrences `tokens` in the table, in order: a token that
    /// is new gets the next id, and each occurrence raises the count of its
    /// token by one. Before that the counter is filled up with zeros, to one
    /// count per token.
    pub fn learn(&mut self, tokens: Vec<String>)
        requires
            old(self).wf(),
            all_nonempty(texts(tokens@)),
            old(self).vocab().learn_all(texts(tokens@)).fits(),
        ensures
            final(self).wf(),
            final(self).same_settings(old(self)),
            final(self).vocab() == old(self).vocab().learn_all(texts(tokens@)),
    {
        self.vocabulary.learn_all(tokens);
    }

    /// Fit the tokenizer with the contents. Calling it again adds to what the
    /// tokenizer has learned: the tokens keep their ids and their counts.
    pub fn fit(&mut self, contents: &[String])
        requires
            old(self).wf(),
            old(self).can_fit(texts(contents@)),
        ensures
            final(self).wf(),
            final(self).same_settings(old(self)),
            final(self).vocab() == old(self).fitted(texts(contents@)),
            final(self).vocab().counts.len() == final(self).vocab().len(),
            final(self).vocab().len() >= old(self).vocab().len(),
            old(self).vocab().extended_by(final(self).vocab()),
            final(self).vocab().ids_dense(),
    {
        let ghost lines = texts(contents@);
        let ghost pipeline = self.pipeline();
        let ghost start = self.vocab();
        self.vocabulary.pad();
        let n = contents.len();
        let mut i: usize = 0;
        proof {
            assert(lines.take(0) =~= Seq::empty());
        }
        while i < n
            invariant
                n == contents@.len(),
                lines == texts(contents@),
                i <= n,
                self.same_settings(old(self)),
                pipeline == self.pipeline(),
                start.wf(),
                pipeline.accepts_all(lines),
                start.learn_all(pipeline.corpus_tokens(lines)).fits(),
                self.wf(),
                self.vocab() == start.learn_all(pipeline.corpus_tokens(lines.take(i as int))),
            decreases n - i,
        {
            assert(pipeline.accepts(lines[i as int]));
            let tokens = self.get_token(contents[i].as_str());
            proof {
                let done = lines.take(i as int);
                let next = lines.take(i + 1);
                let rest = lines.skip(i + 1);
                assert(next =~= done.push(lines[i as int]));
                assert(lines =~= next + rest);
                pipeline.lemma_corpus_tokens_push(done, lines[i as int]);
                pipeline.lemma_corpus_tokens_concat(next, rest);
                pipeline.lemma_corpus_tokens(lines);
                start.lemma_fits_prefix(pipeline.corpus_tokens(next), pipeline.corpus_tokens(rest));
                start.lemma_learn_all_concat(pipeline.corpus_tokens(done), texts(tokens@));
            }
            self.vocabulary.learn_all(tokens);
            i += 1;
        }
        proof {
            assert(lines.take(n as int) =~= lines);
            pipeline.lemma_corpus_tokens(lines);
            start.lemma_learn_all(pipeline.corpus_tokens(lines));
            start.lemma_learn_all_full(pipeline.corpus_tokens(lines));
            self.vocab().lemma_ids_dense();
        }
    }

    /// Fits the tokenizer with the contents where `fit` can take them, and
    /// says whether it did. Where it cannot, because a word is too long for
    /// the stemmer or an id or a count would not fit in `u32`, the tokenizer
    /// is left as it was.
    pub fn try_fit(&mut self, contents: &[String]) -> (done: bool)
        requires
            old(self).wf(),
        ensures
            final(self).wf(),
            final(self).same_settings(old(self)),
            done == old(self).can_fit(texts(contents@)),
            final(self).vocab() == (if done {
                old(self).fitted(texts(contents@))
            } else {
                old(self).vocab()
            }),
            final(self).vocab().len() >= old(self).vocab().len(),
    {
        let ghost lines = texts(contents@);
        let ghost pipeline = self.pipeline();
        let ghost start = self.vocab();
        let mut trial = self.vocabulary.duplicate();
        trial.pad();
        let n = contents.len();
        let mut i: usize = 0;
        proof {
            assert(lines.take(0) =~= Seq::empty());
            pipeline.lemma_corpus_tokens(lines);
        }
        while i < n
            invariant
                n == contents@.len(),
                lines == texts(contents@),
                i <= n,
                *self == *old(self),
                self.wf(),
                pipeline == self.pipeline(),
                start == self.vocab(),
                all_nonempty(pipeline.corpus_tokens(lines)),
                forall|k: int| 0 <= k < i ==> pipeline.accepts(#[trigger] lines[k]),
                trial.wf(),
                trial@ == start.learn_all(pipeline.corpus_tokens(lines.take(i as int))),
            decreases n - i,
        {
            if !self.accepts(contents[i].as_str()) {
                assert(!pipeline.accepts(lines[i as int]));
                return false;
            }
            let tokens = self.get_token(contents[i].as_str());
            let ghost line_tokens = texts(tokens@);
            let ghost done = pipeline.corpus_tokens(lines.take(i as int));
            proof {
                let next = lines.take(i + 1);
                let rest = lines.skip(i + 1);
                assert(next =~= lines.take(i as int).push(lines[i as int]));
                assert(lines =~= next + rest);
                pipeline.lemma_corpus_tokens_push(lines.take(i as int), lines[i as int]);
                pipeline.lemma_corpus_tokens_concat(next, rest);
                assert(done + line_tokens.take(0) =~= done);
            }
            let m = tokens.len();
            let mut j: usize = 0;
            while j < m
                invariant
                    m == tokens@.len(),
                    line_tokens == texts(tokens@),
                    j <= m,
                    i < n,
                    *self == *old(self),
                    self.wf(),
                    pipeline == self.pipeline(),
                    start == self.vocab(),
                    lines == texts(contents@),
                    start.wf(),
                    all_nonempty(pipeline.corpus_tokens(lines)),
                    pipeline.corpus_tokens(lines) == done + line_tokens + pipeline.corpus_tokens(
                        lines.skip(i + 1),
                    ),
                    trial.wf(),
                    trial@ == start.learn_all(done + line_tokens.take(j as int)),
                decreases m - j,
            {
                let token = tokens[j].clone();
                proof {
                    let seen = done + line_tokens.take(j as int);
                    let more = done + line_tokens.take(j + 1);
                    let rest = line_tokens.skip(j + 1) + pipeline.corpus_tokens(
                        lines.skip(i + 1),
                    );
                    assert(more =~= seen.push(line_tokens[j as int]));
                    assert(pipeline.corpus_tokens(lines) =~= more + rest);
                    assert(token@ == line_tokens[j as int]);
                    assert(token@.len() > 0) by {
                        assert(pipeline.corpus_tokens(lines)[done.len() + j] == token@);
                    }
                    start.lemma_learn_all_push(seen, line_tokens[j as int]);
                    if start.learn_all(pipeline.corpus_tokens(lines)).fits() {
                        start.lemma_fits_prefix(more, rest);
                    }
                }
                if !trial.has_room(token.as_str()) {
                    return false;
                }
                trial.learn(token);
                j += 1;
            }
            proof {
                assert(line_tokens.take(m as int) =~= line_tokens);
            }
            i += 1;
        }
        proof {
            assert(lines.take(n as int) =~= lines);
            assert(pipeline.accepts_all(lines));
        }
        self.fit(contents);
        true
    }

    /// The ids of those of `tokens` that the table holds, in order.
    pub fn lookup(&self, tokens: &Vec<String>) -> (ids: Vec<u32>)
        requires
            self.wf(),
        ensures
            ids@ == self.vocab().ids_of(texts(tokens@)),
    {
        self.vocabulary.ids(tokens)
    }

    /// Tokenize the content and return the token ids.
    pub fn tokenize(&self, content: &str) -> (ids: Vec<u32>)
        requires
            self.wf(),
            self.pipeline().accepts(content@),
        ensures
            ids@ == self.tokenized(content@),
            ids@.len() <= self.pipeline().tokens_of(content@).len(),
            (exists|i: int|
                0 <= i < self.pipeline().tokens_of(content@).len() && !self.vocab().contains(
                    #[trigger] self.pipeline().tokens_of(content@)[i],
                )) ==> ids@.len() < self.pipeline().tokens_of(content@).len(),
    {
        let tokens = self.get_token(content);
        proof {
            self.vocab().lemma_ids_of(texts(tokens@));
        }
        self.vocabulary.ids(&tokens)
    }

    /// Tokenizes the content where the pipeline can take it, and returns
    /// `None` where a word of it is too long for the stemmer.
    pub fn try_tokenize(&self, content: &str) -> (ids: Option<Vec<u32>>)
        requires
            self.wf(),
        ensures
            ids is Some <==> self.pipeline().accepts(content@),
            ids matches Some(ids) ==> ids@ == self.tokenized(content@),
    {
        if self.accepts(content) {
            Some(self.tokenize(content))
        } else {
            None
        }
    }

    /// This will trim the `table` according to the `min_freq` and clean the `counter`.
    ///
    /// The tokens seen at least `min_freq` times stay and are renumbered in
    /// the order of their former ids.
    pub fn trim(&mut self)
        requires
            old(self).wf(),
        ensures
            final(self).wf(),
            final(self).same_settings(old(self)),
            final(self).vocab() == old(self).vocab().trimmed(old(self).min_freq as nat),
            forall|token: Seq<char>|
                #![trigger final(self).vocab().contains(token)]
                final(self).vocab().contains(token) <==> old(self).vocab().seen_often(
                    token,
                    old(self).min_freq as nat,
                ),
            final(self).vocab().counts.len() == 0,
            final(self).vocab().len() <= old(self).vocab().len(),
            final(self).vocab().ids_dense(),
    {
        proof {
            self.vocab().lemma_trimmed(self.min_freq as nat);
            self.vocab().trimmed(self.min_freq as nat).lemma_ids_dense();
        }
        self.vocabulary.trim(self.min_freq);
    }

    /// Determinism: two tokenizers with the same settings and the same table
    /// can fit the same lines, and have the same table after fitting them,
    /// entry for entry and count for count.
    pub proof fn lemma_fit_deterministic(&self, other: &Self, lines: Seq<Seq<char>>)
        requires
            self.pipeline() == other.pipeline(),
            self.vocab() == other.vocab(),
        ensures
            self.can_fit(lines) == other.can_fit(lines),
            self.fitted(lines) == other.fitted(lines),
            self.fitted(lines).entries() == other.fitted(lines).entries(),
            self.fitted(lines).stored_counts() == other.fitted(lines).stored_counts(),
    {
    }

    /// Fitting is additive: fitting on `first` and then on `second` gives the
    /// table that fitting on `first + second` gives.
    pub proof fn lemma_fit_additive(
        &self,
        later: &Self,
        first: Seq<Seq<char>>,
        second: Seq<Seq<char>>,
    )
        requires
            later.pipeline() == self.pipeline(),
            later.vocab() == self.fitted(first),
        ensures
            later.fitted(second) == self.fitted(first + second),
    {
        self.pipeline().lemma_corpus_tokens_concat(first, second);
        self.vocab().lemma_learn_all_concat(
            self.pipeline().corpus_tokens(first),
            self.pipeline().corpus_tokens(second),
        );
    }

    /// Round trip: a tokenizer with the switches of `self`, the words of its
    /// stopword list in whatever order as its stopword set, and a table built
    /// from the entries, in whatever order, and the stored counts of the
    /// table of `self` has the stopword set and the table of `self`, and so
    /// tokenizes every text as `self` does.
    pub proof fn lemma_reloaded_tokenizes_alike(
        &self,
        reloaded: &Self,
        entries: Seq<(Seq<char>, u32)>,
        line: Seq<char>,
    )
        requires
            self.wf(),
            self.stopwords.wf(),
            reloaded.lowercase == self.lowercase,
            reloaded.norm == self.norm,
            reloaded.stemmer == self.stemmer,
            reloaded.stopwords@ == self.stopwords.list().to_set(),
            self.vocab().rearranged_as(entries),
            reloaded.vocab() == VocabularyModel::from_entries(
                entries,
                self.vocab().stored_counts(),
            ),
        ensures
            reloaded.pipeline() == self.pipeline(),
            reloaded.vocab() == self.vocab(),
            reloaded.vocab().len() == self.vocab().len(),
            reloaded.pipeline().accepts(line) == self.pipeline().accepts(line),
            reloaded.tokenized(line) == self.tokenized(line),
    {
        self.vocab().lemma_entries_round_trip(entries);
    }

    /// Get the total token number.
    pub fn vocab_len(&self) -> (n: usize)
        ensures
            n == self.vocab().len(),
    {
        self.vocabulary.len()
    }
}

impl Default for Tokenizer {
    /// A tokenizer with an empty table that lowercases, drops the default
    /// stopwords, stems with the classic Porter algorithm, does not
    /// normalize, and keeps the tokens seen at least five times.
    fn default() -> (tokenizer: Self)
        ensures
            tokenizer.wf(),
            tokenizer.stopwords.wf(),
            tokenizer.min_freq == 5,
            tokenizer.lowercase,
            tokenizer.stopwords@ == default_words().to_set(),
            tokenizer.stopwords.list() == with_words(Seq::empty(), default_words()),
            tokenizer.norm == Normalization::Identity,
            tokenizer.stemmer == Stemmer::Snowball,
            tokenizer.vocab() == VocabularyModel::empty(),
    {
        Tokenizer {
            min_freq: 5,
            lowercase: true,
            stopwords: default_stopwords(),
            norm: Normalization::Identity,
            stemmer: Stemmer::Snowball,
            vocabulary: Vocabulary::new(),
        }
    }
}

} // verus!
