//! Unicode normalization and case mapping, as computed by the
//! `unicode-normalization` crate and by `str::to_lowercase`.
use unicode_normalization::UnicodeNormalization;
use vstd::prelude::*;

verus! {

/// What `unicode_normalization`'s NFKC (compatibility decomposition followed
/// by canonical composition) yields for the given characters.
pub uninterp spec fn nfkc_of(s: Seq<char>) -> Seq<char>;

/// What `unicode_normalization`'s NFC (canonical decomposition followed by
/// canonical composition) yields for the given characters.
pub uninterp spec fn nfc_of(s: Seq<char>) -> Seq<char>;

/// What `str::to_lowercase` (the Unicode `Lowercase` mapping) yields for the
/// given characters.
pub uninterp spec fn lowercase_of(s: Seq<char>) -> Seq<char>;

/// Trusted: `UnicodeNormalization::nfkc` on a `&str`, collected into a
/// `String`. The result is named `nfkc_of` of the input's characters; the
/// normalization tables are not restated here.
#[verifier::external_body]
pub(crate) fn nfkc(s: &str) -> (r: String)
    ensures
        r@ == nfkc_of(s@),
{
    s.nfkc().collect::<String>()
}

/// Trusted: `UnicodeNormalization::nfc` on a `&str`, collected into a
/// `String`. The result is named `nfc_of` of the input's characters.
#[verifier::external_body]
pub(crate) fn nfc(s: &str) -> (r: String)
    ensures
        r@ == nfc_of(s@),
{
    s.nfc().collect::<String>()
}

/// Trusted: `str::to_lowercase`. The result is named `lowercase_of` of the
/// input's characters; the Unicode case tables are not restated here.
#[verifier::external_body]
pub(crate) fn to_lowercase(s: &str) -> (r: String)
    ensures
        r@ == lowercase_of(s@),
{
    s.to_lowercase()
}

/// The search normalization of a string: NFKC, then lowercase. The empty
/// string stays empty.
pub open spec fn normalized(s: Seq<char>) -> Seq<char> {
    if s.len() == 0 {
        Seq::<char>::empty()
    } else {
        lowercase_of(nfkc_of(s))
    }
}

/// Each string normalized.
pub open spec fn normalized_each(s: Seq<Seq<char>>) -> Seq<Seq<char>> {
    s.map_values(|x: Seq<char>| normalized(x))
}

/// Each string in NFC.
pub open spec fn nfc_each(s: Seq<Seq<char>>) -> Seq<Seq<char>> {
    s.map_values(|x: Seq<char>| nfc_of(x))
}

} // verus!
