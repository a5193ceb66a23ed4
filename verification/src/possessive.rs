//! English possessive filter: strips a trailing `'s` from a word.

use crate::views::option_text;
use vstd::prelude::*;
use vstd::string::*;

verus! {

/// The glyphs accepted as the apostrophe of a possessive suffix: the ASCII
/// apostrophe, the right single quotation mark and the fullwidth apostrophe.
pub open spec fn is_apostrophe(c: char) -> bool {
    c == '\'' || c == '\u{2019}' || c == '\u{FF07}'
}

/// Whether `word` has more than two characters and ends in an apostrophe
/// followed by a lowercase `s`.
pub open spec fn has_possessive_suffix(word: Seq<char>) -> bool {
    &&& word.len() > 2
    &&& word[word.len() - 1] == 's'
    &&& is_apostrophe(word[word.len() - 2])
}

/// The word without its possessive suffix, or `None` where it has none.
pub open spec fn possessive_stem(word: Seq<char>) -> Option<Seq<char>> {
    if has_possessive_suffix(word) {
        Some(word.subrange(0, word.len() - 2))
    } else {
        None
    }
}

/// The word as the pipeline sees it after the possessive filter: the stem
/// where there is a suffix to strip, the word itself otherwise.
pub open spec fn without_possessive(word: Seq<char>) -> Seq<char> {
    match possessive_stem(word) {
        Some(stem) => stem,
        None => word,
    }
}

/// English possessive filter.
///
/// Returns the word without its last two characters where it is longer than
/// two characters and ends in an apostrophe glyph followed by `s`; returns
/// `None` for every other word, which the caller then keeps unchanged.
pub fn english_possessive_filter(text: &str) -> (res: Option<String>)
    ensures
        option_text(res) == possessive_stem(text@),
{
    let n: usize = text.unicode_len();
    if n > 2 {
        let last = text.get_char(n - 1);
        let mark = text.get_char(n - 2);
        if last == 's' && (mark == '\'' || mark == '\u{2019}' || mark == '\u{FF07}') {
            let stem = text.substring_char(0, n - 2);
            return Some(stem.to_owned());
        }
    }
    None
}

/// The word as it leaves the possessive filter: without its possessive
/// suffix where it has one, unchanged where it has none.
pub fn strip_possessive(word: &str) -> (bare: String)
    ensures
        bare@ == without_possessive(word@),
{
    match english_possessive_filter(word) {
        Some(stem) => stem,
        None => word.to_owned(),
    }
}

} // verus!
