//! Character classification and case folding used by the tokenizer and the
//! index codec.
//!
//! The ASCII classes (whitespace, decimal digits, punctuation) are defined
//! and implemented here directly. The Unicode classes (alphabetic, numeric)
//! and Unicode upper-casing come from the standard library behind trusted
//! declarations, since their exact extent is given by the Unicode tables
//! rather than by a short definition.
use vstd::prelude::*;

verus! {

/// The ASCII whitespace characters: space, tab, line feed, form feed,
/// carriage return.
pub open spec fn is_ws_char(c: char) -> bool {
    c == ' ' || c == '\t' || c == '\n' || c == '\u{c}' || c == '\r'
}

/// The decimal digits `0..=9`.
pub open spec fn is_digit_char(c: char) -> bool {
    48 <= c as u32 <= 57
}

/// Whether `c` is one of the four ASCII punctuation ranges
/// `!..=/`, `:..=@`, `[..=`` ` ``, `{..=~`.
pub open spec fn is_punct_char(c: char) -> bool {
    (33 <= c as u32 && c as u32 <= 47) || (58 <= c as u32 && c as u32 <= 64) || (91 <= c as u32
        && c as u32 <= 96) || (123 <= c as u32 && c as u32 <= 126)
}

/// Whether `c` is a Unicode alphabetic character, as classified by
/// `char::is_alphabetic`.
pub uninterp spec fn unicode_alphabetic(c: char) -> bool;

/// Whether `c` is a Unicode numeric character, as classified by
/// `char::is_numeric`.
pub uninterp spec fn unicode_numeric(c: char) -> bool;

/// The Unicode uppercase form of a character sequence, as `str::to_uppercase`
/// computes it. A function of the characters alone; a sequence may grow
/// under it (one character can uppercase to several).
pub uninterp spec fn upper_of(s: Seq<char>) -> Seq<char>;

/// Relies on `char::is_alphabetic`: whether `c` has a Unicode letter
/// general category. The result depends on `c` alone.
pub assume_specification[ char::is_alphabetic ](c: char) -> (r: bool)
    ensures
        r == unicode_alphabetic(c),
;

/// Relies on `char::is_numeric`: whether `c` has a Unicode number general
/// category. The result depends on `c` alone.
pub assume_specification[ char::is_numeric ](c: char) -> (r: bool)
    ensures
        r == unicode_numeric(c),
;

/// Relies on `char::is_alphanumeric`, which the standard library documents
/// as `c.is_alphabetic() || c.is_numeric()`.
pub assume_specification[ char::is_alphanumeric ](c: char) -> (r: bool)
    ensures
        r == (unicode_alphabetic(c) || unicode_numeric(c)),
;

/// Relies on `char::from_u32`: `Some` exactly for values that are Unicode
/// scalar values (not a surrogate, at most the largest code point), and the
/// character returned has exactly that value.
pub assume_specification[ char::from_u32 ](i: u32) -> (r: Option<char>)
    ensures
        r is Some <==> (i < 0xD800 || (0xE000 <= i && i <= 0x10FFFF)),
        r matches Some(c) ==> c as u32 == i,
;

/// Relies on `str::to_uppercase`: the Unicode uppercase form of the text,
/// which depends on the characters alone; uppercasing a non-empty text
/// yields one or more characters per character, so it stays non-empty.
#[verifier::external_body]
pub fn to_uppercase_str(s: &str) -> (r: String)
    ensures
        r@ == upper_of(s@),
        s@.len() > 0 ==> r@.len() > 0,
{
    s.to_uppercase()
}

/// Executable check for `is_ws_char`.
pub fn is_ascii_ws(c: char) -> (r: bool)
    ensures
        r == is_ws_char(c),
{
    c == ' ' || c == '\t' || c == '\n' || c == '\u{c}' || c == '\r'
}

/// Executable check for `is_digit_char`.
pub fn is_dec_digit(c: char) -> (r: bool)
    ensures
        r == is_digit_char(c),
{
    let u = c as u32;
    48 <= u && u <= 57
}

/// Executable check for `is_punct_char`.
pub fn is_ascii_punct(c: char) -> (r: bool)
    ensures
        r == is_punct_char(c),
{
    let u = c as u32;
    (33 <= u && u <= 47) || (58 <= u && u <= 64) || (91 <= u && u <= 96) || (123 <= u && u <= 126)
}

} // verus!
