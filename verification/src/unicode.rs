//! What the standard library knows of characters. Its Unicode tables are
//! not verified here: each function of this module calls one function of
//! the standard library, and its contract does no more than name what
//! comes back.

use vstd::prelude::*;

verus! {

/// The characters that `char::to_lowercase` yields for `c`, as the
/// Unicode tables of the standard library give them.
pub uninterp spec fn lowercase_of(c: char) -> Seq<char>;

/// Calls `char::to_lowercase` and collects what it yields. The contract
/// gives the result its name and claims nothing else of it.
#[verifier::external_body]
pub(crate) fn lowercase(c: char) -> (r: Vec<char>)
    ensures
        r@ == lowercase_of(c),
{
    c.to_lowercase().collect()
}

/// Whether `char::is_alphanumeric` holds of `c`, as the Unicode tables of
/// the standard library give it.
pub uninterp spec fn alphanumeric(c: char) -> bool;

/// Calls `char::is_alphanumeric`. The contract gives the result its name
/// and claims nothing else of it.
#[verifier::external_body]
pub(crate) fn is_alphanumeric(c: char) -> (r: bool)
    ensures
        r == alphanumeric(c),
{
    c.is_alphanumeric()
}

/// Whether `char::is_whitespace` holds of `c`, as the Unicode tables of
/// the standard library give it.
pub uninterp spec fn whitespace(c: char) -> bool;

/// Calls `char::is_whitespace`. The contract gives the result its name
/// and claims nothing else of it.
#[verifier::external_body]
pub(crate) fn is_whitespace(c: char) -> (r: bool)
    ensures
        r == whitespace(c),
{
    c.is_whitespace()
}

/// The characters that `char::to_uppercase` yields for `c`, as the
/// Unicode tables of the standard library give them.
pub uninterp spec fn uppercase_of(c: char) -> Seq<char>;

/// Calls `char::to_uppercase` and collects what it yields. The contract
/// gives the result its name and claims nothing else of it.
#[verifier::external_body]
pub(crate) fn uppercase(c: char) -> (r: String)
    ensures
        r@ == uppercase_of(c),
{
    c.to_uppercase().collect()
}

/// The text that `str::to_lowercase` makes of `s`, as the Unicode tables
/// of the standard library give it.
pub uninterp spec fn lowered(s: Seq<char>) -> Seq<char>;

/// Calls `str::to_lowercase`. The contract gives the result its name and
/// claims nothing else of it.
#[verifier::external_body]
pub(crate) fn to_lowercase(s: &str) -> (r: String)
    ensures
        r@ == lowered(s@),
{
    s.to_lowercase()
}

} // verus!
