//! Unicode normalization of a token, by one of the four standard forms.

use unicode_normalization::UnicodeNormalization;
use vstd::prelude::*;

verus! {

/// The canonical decomposition (form D) of `text`, as
/// `unicode_normalization` computes it.
pub uninterp spec fn nfd_of(text: Seq<char>) -> Seq<char>;

/// The canonical decomposition of `text` followed by canonical composition
/// (form C), as `unicode_normalization` computes it.
pub uninterp spec fn nfc_of(text: Seq<char>) -> Seq<char>;

/// The compatibility decomposition (form KD) of `text`, as
/// `unicode_normalization` computes it.
pub uninterp spec fn nfkd_of(text: Seq<char>) -> Seq<char>;

/// The compatibility decomposition of `text` followed by canonical
/// composition (form KC), as `unicode_normalization` computes it.
pub uninterp spec fn nfkc_of(text: Seq<char>) -> Seq<char>;

/// Collects `UnicodeNormalization::nfd` of `text` into a string. Trusted: the
/// result is the function of the characters of `text` that `nfd_of` names.
#[verifier::external_body]
fn nfd(text: &str) -> (res: String)
    ensures
        res@ == nfd_of(text@),
{
    text.nfd().collect()
}

/// Collects `UnicodeNormalization::nfc` of `text` into a string. Trusted: the
/// result is the function of the characters of `text` that `nfc_of` names.
#[verifier::external_body]
fn nfc(text: &str) -> (res: String)
    ensures
        res@ == nfc_of(text@),
{
    text.nfc().collect()
}

/// Collects `UnicodeNormalization::nfkd` of `text` into a string. Trusted:
/// the result is the function of the characters of `text` that `nfkd_of`
/// names.
#[verifier::external_body]
fn nfkd(text: &str) -> (res: String)
    ensures
        res@ == nfkd_of(text@),
{
    text.nfkd().collect()
}

/// Collects `UnicodeNormalization::nfkc` of `text` into a string. Trusted:
/// the result is the function of the characters of `text` that `nfkc_of`
/// names.
#[verifier::external_body]
fn nfkc(text: &str) -> (res: String)
    ensures
        res@ == nfkc_of(text@),
{
    text.nfkc().collect()
}

/// Unicode normalization.
/// Ref: <https://unicode.org/reports/tr15/>
#[derive(Debug, Clone, Copy, PartialEq, Eq, Structural)]
pub enum Normalization {
    /// Canonical Decomposition
    NFD,
    /// Canonical Decomposition, followed by Canonical Composition
    NFC,
    /// Compatibility Decomposition
    NFKD,
    /// Compatibility Decomposition, followed by Canonical Composition
    NFKC,
    /// No normalization
    Identity,
}

impl Normalization {
    /// What `normalize` makes of `text`: the named normal form, or `text`
    /// itself where no normalization is selected.
    pub open spec fn normalized(self, text: Seq<char>) -> Seq<char> {
        match self {
            Normalization::NFD => nfd_of(text),
            Normalization::NFC => nfc_of(text),
            Normalization::NFKD => nfkd_of(text),
            Normalization::NFKC => nfkc_of(text),
            Normalization::Identity => text,
        }
    }

    /// Normalize the text.
    pub fn normalize(&self, text: &str) -> (res: String)
        ensures
            res@ == self.normalized(text@),
    {
        match self {
            Normalization::NFD => nfd(text),
            Normalization::NFC => nfc(text),
            Normalization::NFKD => nfkd(text),
            Normalization::NFKC => nfkc(text),
            Normalization::Identity => text.to_owned(),
        }
    }
}

} // verus!
