//! Stemming of a word by one of the English Snowball algorithms.

use std::borrow::Cow;
use vstd::prelude::*;
use vstd::utf8::encode_utf8;

verus! {

/// The stem of `word` under the classic Porter algorithm, as
/// `tantivy_stemmers` computes it.
pub uninterp spec fn porter_stem_of(word: Seq<char>) -> Seq<char>;

/// The stem of `word` under the revised Porter algorithm (Porter2), as
/// `tantivy_stemmers` computes it.
pub uninterp spec fn porter2_stem_of(word: Seq<char>) -> Seq<char>;

/// Whether the Snowball stemmers can take `word`: they index its UTF-8 bytes
/// with `i32` offsets, so it must not be longer than `i32::MAX` bytes.
pub open spec fn stemmable(word: Seq<char>) -> bool {
    encode_utf8(word).len() <= i32::MAX
}

/// Calls `tantivy_stemmers::algorithms::english_porter`. Trusted: on a word
/// whose bytes `i32` offsets can index, the call returns, and its result is
/// the function of the characters of `word` that `porter_stem_of` names.
#[verifier::external_body]
fn english_porter<'a>(word: &'a str) -> (res: Cow<'a, str>)
    requires
        stemmable(word@),
    ensures
        res@ == porter_stem_of(word@),
{
    tantivy_stemmers::algorithms::english_porter(word)
}

/// Calls `tantivy_stemmers::algorithms::english_porter_2`. Trusted: on a word
/// whose bytes `i32` offsets can index, the call returns, and its result is
/// the function of the characters of `word` that `porter2_stem_of` names.
#[verifier::external_body]
fn english_porter_2<'a>(word: &'a str) -> (res: Cow<'a, str>)
    requires
        stemmable(word@),
    ensures
        res@ == porter2_stem_of(word@),
{
    tantivy_stemmers::algorithms::english_porter_2(word)
}

/// Stemmer method.
#[derive(Debug, Clone, Copy, PartialEq, Eq, Structural)]
pub enum Stemmer {
    /// The classic Porter algorithm.
    /// <https://snowballstem.org/algorithms/porter/stemmer.html>
    Snowball,
    /// The revised Porter algorithm, also known as Porter2.
    /// <https://snowballstem.org/algorithms/english/stemmer.html>
    Porter2,
    /// No stemmer
    Identity,
}

impl Stemmer {
    /// Whether `stem` can be called on `word`.
    pub open spec fn can_stem(self, word: Seq<char>) -> bool {
        self != Stemmer::Identity ==> stemmable(word)
    }

    /// What `stem` makes of `word`: its stem under the selected algorithm, or
    /// `word` itself where no stemmer is selected.
    pub open spec fn stemmed(self, word: Seq<char>) -> Seq<char> {
        match self {
            Stemmer::Snowball => porter_stem_of(word),
            Stemmer::Porter2 => porter2_stem_of(word),
            Stemmer::Identity => word,
        }
    }

    /// Whether a word of `len` bytes is short enough for `stem`.
    pub fn accepts_len(&self, len: usize) -> (ok: bool)
        ensures
            ok == (*self != Stemmer::Identity ==> len <= i32::MAX),
    {
        match self {
            Stemmer::Identity => true,
            _ => len <= 0x7fff_ffff,
        }
    }

    /// Stem the text.
    pub fn stem<'a>(&self, text: &'a str) -> (res: Cow<'a, str>)
        requires
            self.can_stem(text@),
        ensures
            res@ == self.stemmed(text@),
    {
        match self {
            Stemmer::Snowball => english_porter(text),
            Stemmer::Porter2 => english_porter_2(text),
            Stemmer::Identity => Cow::Borrowed(text),
        }
    }
}

} // verus!
