//! The functions of the standard library that the proofs rest on.
//!
//! Nothing in this module is proved: each item states what the documentation
//! of the function that it names says of it.
use vstd::prelude::*;
use vstd::utf8::{decode_utf8, is_ascii_chars, valid_utf8};

verus! {

/// The lower-case form of an ASCII character: `A` to `Z` become `a` to `z`.
pub open spec fn ascii_lower(c: char) -> char {
    if 'A' <= c <= 'Z' {
        (c as u32 + 32) as char
    } else {
        c
    }
}

/// The upper-case form of an ASCII character: `a` to `z` become `A` to `Z`.
pub open spec fn ascii_upper(c: char) -> char {
    if 'a' <= c <= 'z' {
        (c as u32 - 32) as char
    } else {
        c
    }
}

/// What `str::to_lowercase` gives for a text that is not all ASCII. The Unicode
/// tables that it goes by are not written out here.
pub uninterp spec fn unicode_lowercase(s: Seq<char>) -> Seq<char>;

/// What `char::to_uppercase` gives for a character outside ASCII. The Unicode
/// tables that it goes by are not written out here.
pub uninterp spec fn unicode_uppercase(c: char) -> Seq<char>;

/// The lower-case form of a text.
pub open spec fn lowercase(s: Seq<char>) -> Seq<char> {
    if is_ascii_chars(s) {
        s.map_values(|c: char| ascii_lower(c))
    } else {
        unicode_lowercase(s)
    }
}

/// The upper-case form of a character, which may be several characters.
pub open spec fn uppercase(c: char) -> Seq<char> {
    if c <= '\u{7f}' {
        seq![ascii_upper(c)]
    } else {
        unicode_uppercase(c)
    }
}

/// `String::push`: appends one character to the text.
pub assume_specification[ String::push ](s: &mut String, c: char)
    ensures
        final(s)@ == old(s)@.push(c),
;

/// `str::to_lowercase`: on ASCII text it changes the letters `A` to `Z` alone;
/// on other text its result is a function of the text and is left unstated.
pub assume_specification[ str::to_lowercase ](s: &str) -> (out: String)
    ensures
        is_ascii_chars(s@) ==> out@ == s@.map_values(|c: char| ascii_lower(c)),
        !is_ascii_chars(s@) ==> out@ == unicode_lowercase(s@),
;

/// `char::to_uppercase`, its characters gathered into a text: one character or
/// more. Of an ASCII character it gives that character with `a` to `z` made `A`
/// to `Z`; of another one the result is a function of the character, and which
/// characters it holds is left unstated.
#[verifier::external_body]
pub(crate) fn upper_of(c: char) -> (out: String)
    ensures
        c <= '\u{7f}' ==> out@ == seq![ascii_upper(c)],
        c > '\u{7f}' ==> out@ == unicode_uppercase(c),
        out@.len() > 0,
{
    c.to_uppercase().to_string()
}

/// `str::from_utf8`: gives the text that the bytes encode where they are valid
/// UTF-8, and an error where they are not.
#[verifier::external_body]
pub(crate) fn str_from_utf8(bytes: &[u8]) -> (text: Option<&str>)
    ensures
        match text {
            Some(s) => valid_utf8(bytes@) && s@ == decode_utf8(bytes@),
            None => !valid_utf8(bytes@),
        },
{
    std::str::from_utf8(bytes).ok()
}

} // verus!
