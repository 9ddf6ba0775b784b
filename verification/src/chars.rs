//! The classes of characters that the grammar tells apart.
//!
//! Within ASCII each class is spelled out here. For every other character
//! the library asks the standard library, and takes its answer as it is.
//!
//! What this library takes on trust of the standard library stands in this
//! file: the five questions about a character, and `String::push`.

use vstd::prelude::*;

verus! {

/// What `char::is_whitespace` answers for `c`.
pub uninterp spec fn unicode_whitespace(c: char) -> bool;

/// What `char::is_alphabetic` answers for `c`.
pub uninterp spec fn unicode_alphabetic(c: char) -> bool;

/// What `char::is_numeric` answers for `c`.
pub uninterp spec fn unicode_numeric(c: char) -> bool;

/// What `char::is_lowercase` answers for `c`.
pub uninterp spec fn unicode_lowercase(c: char) -> bool;

/// What `char::is_uppercase` answers for `c`.
pub uninterp spec fn unicode_uppercase(c: char) -> bool;

/// Calls `char::is_whitespace`. Nothing is claimed of the answer but that
/// it depends on the character alone.
#[verifier::external_body]
fn char_is_whitespace(c: char) -> (r: bool)
    ensures
        r == unicode_whitespace(c),
{
    c.is_whitespace()
}

/// Calls `char::is_alphabetic`. Nothing is claimed of the answer but that
/// it depends on the character alone.
#[verifier::external_body]
fn char_is_alphabetic(c: char) -> (r: bool)
    ensures
        r == unicode_alphabetic(c),
{
    c.is_alphabetic()
}

/// Calls `char::is_numeric`. Nothing is claimed of the answer but that it
/// depends on the character alone.
#[verifier::external_body]
fn char_is_numeric(c: char) -> (r: bool)
    ensures
        r == unicode_numeric(c),
{
    c.is_numeric()
}

/// Calls `char::is_lowercase`. Nothing is claimed of the answer but that
/// it depends on the character alone.
#[verifier::external_body]
fn char_is_lowercase(c: char) -> (r: bool)
    ensures
        r == unicode_lowercase(c),
{
    c.is_lowercase()
}

/// Calls `char::is_uppercase`. Nothing is claimed of the answer but that
/// it depends on the character alone.
#[verifier::external_body]
fn char_is_uppercase(c: char) -> (r: bool)
    ensures
        r == unicode_uppercase(c),
{
    c.is_uppercase()
}

/// Specifies `String::push`: the string is then what it was, with the
/// character at its end.
pub assume_specification[ String::push ](s: &mut String, ch: char)
    ensures
        final(s)@ == old(s)@.push(ch),
;

/// Whether the character is one of ASCII.
pub open spec fn ascii(c: char) -> bool {
    c <= '\x7f'
}

/// White space: blank, tab, line feed, vertical tab, form feed and
/// carriage return, and beyond ASCII what Unicode calls white space.
pub open spec fn space(c: char) -> bool {
    if ascii(c) {
        c == ' ' || ('\x09' <= c && c <= '\x0d')
    } else {
        unicode_whitespace(c)
    }
}

/// A lowercase letter.
pub open spec fn lowercase(c: char) -> bool {
    if ascii(c) {
        'a' <= c && c <= 'z'
    } else {
        unicode_lowercase(c)
    }
}

/// An uppercase letter.
pub open spec fn uppercase(c: char) -> bool {
    if ascii(c) {
        'A' <= c && c <= 'Z'
    } else {
        unicode_uppercase(c)
    }
}

/// A letter.
pub open spec fn letter(c: char) -> bool {
    if ascii(c) {
        ('a' <= c && c <= 'z') || ('A' <= c && c <= 'Z')
    } else {
        unicode_alphabetic(c)
    }
}

/// A digit.
pub open spec fn digit(c: char) -> bool {
    if ascii(c) {
        '0' <= c && c <= '9'
    } else {
        unicode_numeric(c)
    }
}

/// A character that may follow the first one of an identifier.
pub open spec fn identifier_char(c: char) -> bool {
    letter(c) || digit(c) || c == '_' || c == '-'
}

/// Whether the character is white space.
pub fn is_space(c: char) -> (r: bool)
    ensures
        r == space(c),
{
    if c <= '\x7f' {
        c == ' ' || ('\x09' <= c && c <= '\x0d')
    } else {
        char_is_whitespace(c)
    }
}

/// Whether the character is a lowercase letter.
pub fn is_lowercase(c: char) -> (r: bool)
    ensures
        r == lowercase(c),
{
    if c <= '\x7f' {
        'a' <= c && c <= 'z'
    } else {
        char_is_lowercase(c)
    }
}

/// Whether the character is an uppercase letter.
pub fn is_uppercase(c: char) -> (r: bool)
    ensures
        r == uppercase(c),
{
    if c <= '\x7f' {
        'A' <= c && c <= 'Z'
    } else {
        char_is_uppercase(c)
    }
}

/// Whether the character is a letter.
pub fn is_letter(c: char) -> (r: bool)
    ensures
        r == letter(c),
{
    if c <= '\x7f' {
        ('a' <= c && c <= 'z') || ('A' <= c && c <= 'Z')
    } else {
        char_is_alphabetic(c)
    }
}

/// Whether the character is a digit.
pub fn is_digit(c: char) -> (r: bool)
    ensures
        r == digit(c),
{
    if c <= '\x7f' {
        '0' <= c && c <= '9'
    } else {
        char_is_numeric(c)
    }
}

/// Whether the character may follow the first one of an identifier: a
/// letter, a digit, `_` or `-`.
pub fn identifier_character(c: char) -> (r: bool)
    ensures
        r == identifier_char(c),
{
    is_letter(c) || is_digit(c) || c == '_' || c == '-'
}

} // verus!
