//! Unicode case handling, delegated to the standard library.

use crate::text::{chars_of, string_of};
use vstd::prelude::*;

verus! {

/// What `str::to_lowercase` returns for a string with these characters.
pub uninterp spec fn str_lowercase(s: Seq<char>) -> Seq<char>;

/// What `char::to_uppercase` yields for `c`.
pub uninterp spec fn char_uppercase(c: char) -> Seq<char>;

/// Whether `char::is_uppercase` holds of `c`.
pub uninterp spec fn char_is_uppercase(c: char) -> bool;

/// Whether `char::is_alphanumeric` holds of `c`.
pub uninterp spec fn char_is_alphanumeric(c: char) -> bool;

/// Trusted: `str::to_lowercase`; the result is named, its Unicode mapping not
/// restated.
#[verifier::external_body]
fn str_to_lowercase(s: &str) -> (r: String)
    ensures
        r@ == str_lowercase(s@),
{
    s.to_lowercase()
}

/// Trusted: `char::to_uppercase`, its characters collected in order; the
/// mapping itself is named, not restated.
#[verifier::external_body]
fn char_to_uppercase(c: char) -> (r: String)
    ensures
        r@ == char_uppercase(c),
{
    c.to_uppercase().collect()
}

/// Trusted: `char::is_uppercase` (the Unicode `Uppercase` property), named.
#[verifier::external_body]
pub(crate) fn is_uppercase(c: char) -> (b: bool)
    ensures
        b == char_is_uppercase(c),
{
    c.is_uppercase()
}

/// Trusted: `char::is_alphanumeric` (Unicode `Alphabetic` or `Numeric`), named.
#[verifier::external_body]
pub(crate) fn is_alphanumeric(c: char) -> (b: bool)
    ensures
        b == char_is_alphanumeric(c),
{
    c.is_alphanumeric()
}

/// The lowercase form of a string.
pub fn lowercase(s: &Vec<char>) -> (r: Vec<char>)
    ensures
        r@ == str_lowercase(s@),
{
    let owned = string_of(s);
    let lowered = str_to_lowercase(owned.as_str());
    chars_of(lowered.as_str())
}

/// The uppercase form of a character (possibly several characters).
pub fn uppercase(c: char) -> (r: Vec<char>)
    ensures
        r@ == char_uppercase(c),
{
    let upper = char_to_uppercase(c);
    chars_of(upper.as_str())
}

} // verus!
