//! Lowercasing and segmentation of a line of text into Unicode words.

use crate::views::texts;
use unicode_segmentation::UnicodeSegmentation;
use vstd::prelude::*;

verus! {

/// The lowercase form of `text`, as `str::to_lowercase` computes it.
pub uninterp spec fn lowercase_of(text: Seq<char>) -> Seq<char>;

/// The words of `text` in the order in which they occur, as
/// `unicode_segmentation` finds them: the pieces between word boundaries that
/// hold a letter or a digit.
pub uninterp spec fn words_of(text: Seq<char>) -> Seq<Seq<char>>;

/// Calls `str::to_lowercase`. Trusted: the result is the function of the
/// characters of `text` that `lowercase_of` names.
#[verifier::external_body]
pub(crate) fn to_lowercase(text: &str) -> (res: String)
    ensures
        res@ == lowercase_of(text@),
{
    text.to_lowercase()
}

/// Collects `UnicodeSegmentation::unicode_words` of `text`, each word as an
/// owned string. Trusted: the words are, in order, those that `words_of`
/// names for the characters of `text`.
#[verifier::external_body]
pub(crate) fn unicode_words(text: &str) -> (words: Vec<String>)
    ensures
        texts(words@) == words_of(text@),
{
    text.unicode_words().map(String::from).collect()
}

} // verus!
