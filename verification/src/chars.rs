//! Character classification and case folding.
//!
//! The matcher needs four facts about a character: whether it is
//! whitespace, whether it is alphanumeric, whether it is uppercase, and
//! what its lower-case form is.  All four are pure functions of the
//! character given by the Unicode tables that `std` implements; they are
//! named here by uninterpreted spec functions and bound to the `std`
//! implementations.
use vstd::prelude::*;

verus! {

/// Whether `c` is whitespace, as `char::is_whitespace` decides it.
pub uninterp spec fn whitespace_char(c: char) -> bool;

/// Whether `c` is alphanumeric, as `char::is_alphanumeric` decides it.
pub uninterp spec fn alphanumeric_char(c: char) -> bool;

/// Whether `c` is uppercase, as `char::is_uppercase` decides it.
pub uninterp spec fn uppercase_char(c: char) -> bool;

/// The lower-case form of `c`: the first character that
/// `char::to_lowercase` yields, a function of `c` alone.
pub uninterp spec fn lower_char_of(c: char) -> char;

/// Relies on `char::is_whitespace`: whitespace per the Unicode tables,
/// a function of the character alone.
pub assume_specification[ char::is_whitespace ](c: char) -> (r: bool)
    ensures
        r == whitespace_char(c),
;

/// Relies on `char::is_alphanumeric`: alphanumeric per the Unicode tables,
/// a function of the character alone.
pub assume_specification[ char::is_alphanumeric ](c: char) -> (r: bool)
    ensures
        r == alphanumeric_char(c),
;

/// Relies on `char::is_uppercase`: uppercase per the Unicode tables,
/// a function of the character alone.
pub assume_specification[ char::is_uppercase ](c: char) -> (r: bool)
    ensures
        r == uppercase_char(c),
;

/// Relies on `char::to_lowercase`: its result depends on the character
/// alone and always yields at least one character; the first one is the
/// lower-case form used throughout this crate.
#[verifier::external_body]
pub(crate) fn lower_char(c: char) -> (r: char)
    ensures
        r == lower_char_of(c),
{
    c.to_lowercase().next().unwrap_or(c)
}

/// Relies on `String::push`: appends exactly the one character `c`.
#[verifier::external_body]
pub(crate) fn push_char(s: &mut String, c: char)
    ensures
        final(s)@ == old(s)@.push(c),
{
    s.push(c)
}

} // verus!
