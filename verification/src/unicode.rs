//! Trusted boundary to the Unicode crates and to the std string
//! routines that vstd leaves unspecified. Each wrapper names or states
//! what the outside call returns; everything built on top is verified
//! against these contracts.

use vstd::prelude::*;
use vstd::utf8::decode_utf8;
use vstd::utf8::valid_utf8;
use unicode_normalization::UnicodeNormalization;
use unicode_segmentation::UnicodeSegmentation;

verus! {

/// The lowercase form `str::to_lowercase` assigns to `s`; the result
/// depends on the characters of `s` alone.
pub uninterp spec fn lower_of(s: Seq<char>) -> Seq<char>;

/// Relies on str::to_lowercase: the lowercase equivalent of the string,
/// per the Unicode lowercase property, a pure function of its
/// characters; the empty string stays empty.
#[verifier::external_body]
pub(crate) fn to_lowercase_string(s: &str) -> (r: String)
    ensures
        r@ == lower_of(s@),
        s@.len() == 0 ==> r@.len() == 0,
{
    s.to_lowercase()
}

/// The canonical decomposition (normalization form D) of `s`, as the
/// unicode-normalization crate computes it from its characters alone.
pub uninterp spec fn nfd_of(s: Seq<char>) -> Seq<char>;

/// Relies on unicode_normalization's nfd: the canonical decomposition
/// of the string's characters, in canonical order; the empty string
/// stays empty.
#[verifier::external_body]
pub(crate) fn nfd_string(s: &str) -> (r: String)
    ensures
        r@ == nfd_of(s@),
        s@.len() == 0 ==> r@.len() == 0,
{
    s.nfd().collect()
}

/// Whether the Unicode tables of the unicode-normalization crate class
/// `c` as a combining mark; a function of `c` alone.
pub uninterp spec fn combining_mark(c: char) -> bool;

/// Relies on unicode_normalization::char::is_combining_mark.
#[verifier::external_body]
pub(crate) fn is_combining_mark_char(c: char) -> (r: bool)
    ensures
        r == combining_mark(c),
{
    unicode_normalization::char::is_combining_mark(c)
}

/// The words of `text` under the default (locale-independent) Unicode
/// word-boundary rules, as the unicode-segmentation crate yields them,
/// in text order.
pub uninterp spec fn unicode_words_of(text: Seq<char>) -> Seq<Seq<char>>;

/// Relies on unicode_segmentation's unicode_words: the substrings of
/// the text that the default word-boundary rules class as words.
#[verifier::external_body]
pub(crate) fn unicode_words_vec(text: &str) -> (r: Vec<String>)
    ensures
        r.deep_view() == unicode_words_of(text@),
{
    text.unicode_words().map(|w| w.to_string()).collect()
}

/// Relies on String::push: appends the given character to the string.
#[verifier::external_body]
pub(crate) fn push_char(s: &mut String, c: char)
    ensures
        final(s)@ == old(s)@.push(c),
{
    s.push(c);
}

/// Relies on core::str::from_utf8: succeeds exactly on well-formed
/// UTF-8, and the characters of the resulting string are the decoding
/// of the bytes.
#[verifier::external_body]
pub(crate) fn utf8_to_string(bytes: &[u8]) -> (r: Option<String>)
    ensures
        r is Some <==> valid_utf8(bytes@),
        r matches Some(s) ==> s@ == decode_utf8(bytes@),
{
    match core::str::from_utf8(bytes) {
        Ok(s) => Some(s.to_string()),
        Err(_) => None,
    }
}

} // verus!
