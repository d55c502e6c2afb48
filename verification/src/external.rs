//! The functions of `std` and of `unicode_normalization` whose behaviour is
//! taken on trust.

use crate::script::ZWJ;
use unicode_normalization::UnicodeNormalization;
use vstd::prelude::*;
use vstd::utf8::{decode_utf8, valid_utf8};

verus! {

/// `String::push` appends one character.
pub assume_specification[ String::push ](s: &mut String, c: char)
    ensures
        final(s)@ == old(s)@.push(c),
;

/// `char::from_u32` gives the character with the given code, and none for a code
/// that is a surrogate or lies beyond U+10FFFF.
pub assume_specification[ char::from_u32 ](code: u32) -> (c: Option<char>)
    ensures
        c is Some <==> (code < 0xD800 || 0xE000 <= code <= 0x10FFFF),
        c is Some ==> c->0 as u32 == code,
;

/// What Unicode Normalization Form C makes of a text.
pub uninterp spec fn nfc(text: Seq<char>) -> Seq<char>;

/// Calls `unicode_normalization::UnicodeNormalization::nfc` and collects the
/// characters. The result is a function of the text alone, here named [`nfc`],
/// and is itself in form C: a second application leaves it as it is (Unicode
/// Standard Annex #15). The zero-width joiner is part of no composition and of no
/// decomposition in the tables of that crate, so that it is never put in. What else
/// form C does to a given text is left unsaid.
#[verifier::external_body]
pub(crate) fn compose(text: &str) -> (composed: String)
    ensures
        composed@ == nfc(text@),
        nfc(composed@) == composed@,
        !text@.contains(ZWJ) ==> !composed@.contains(ZWJ),
{
    text.nfc().collect()
}

/// What lossy decoding makes of bytes that are not valid UTF-8.
pub uninterp spec fn replaced_utf8(bytes: Seq<u8>) -> Seq<char>;

/// Calls `String::from_utf8_lossy`. Valid UTF-8 is decoded as it is; for other
/// bytes the result is a function of the bytes alone, here named
/// [`replaced_utf8`], and where the replacement characters stand in it is left
/// unsaid.
#[verifier::external_body]
pub(crate) fn from_utf8_lossy(bytes: &[u8]) -> (text: String)
    ensures
        valid_utf8(bytes@) ==> text@ == decode_utf8(bytes@),
        !valid_utf8(bytes@) ==> text@ == replaced_utf8(bytes@),
{
    String::from_utf8_lossy(bytes).into_owned()
}

} // verus!
