//! Unicode character properties and normalization, taken from std and from
//! the `unicode_normalization` crate.
//!
//! Each of these results is defined by Unicode data tables and depends on
//! its argument alone, so each is given a name here and the wrappers tie the
//! call's result to that name.
use vstd::prelude::*;
use unicode_normalization::UnicodeNormalization;

verus! {

/// The Unicode Normalization Form C of a character sequence.
pub uninterp spec fn nfc_form(s: Seq<char>) -> Seq<char>;

/// The characters that std's `char::to_lowercase` yields for `c`.
pub uninterp spec fn lowercase_of(c: char) -> Seq<char>;

/// Whether `c` has the Unicode `Alphabetic` property (std's `char::is_alphabetic`).
pub uninterp spec fn is_alphabetic_char(c: char) -> bool;

/// Whether `c` has `General_Category=Mark`
/// (`unicode_normalization::char::is_combining_mark`).
pub uninterp spec fn is_combining_mark_char(c: char) -> bool;

/// Normalizes a string to NFC.
///
/// Trusted: collects `UnicodeNormalization::nfc` of `unicode_normalization`
/// (canonical decomposition followed by canonical composition) into a
/// `String`; the result is named `nfc_form` of the input's characters.
#[verifier::external_body]
pub(crate) fn nfc_string(s: &str) -> (r: String)
    ensures
        r@ == nfc_form(s@),
{
    s.nfc().collect::<String>()
}

/// The lowercase mapping of one character.
///
/// Trusted: collects std's `char::to_lowercase`, whose result is named
/// `lowercase_of`.
#[verifier::external_body]
pub(crate) fn lowercase(c: char) -> (r: Vec<char>)
    ensures
        r@ == lowercase_of(c),
{
    c.to_lowercase().collect::<Vec<char>>()
}

/// Trusted: calls std's `char::is_alphabetic`, named `is_alphabetic_char`.
#[verifier::external_body]
pub(crate) fn is_alphabetic(c: char) -> (r: bool)
    ensures
        r == is_alphabetic_char(c),
{
    c.is_alphabetic()
}

/// Trusted: calls `unicode_normalization::char::is_combining_mark`, named
/// `is_combining_mark_char`.
#[verifier::external_body]
pub(crate) fn is_combining_mark(c: char) -> (r: bool)
    ensures
        r == is_combining_mark_char(c),
{
    unicode_normalization::char::is_combining_mark(c)
}

} // verus!
