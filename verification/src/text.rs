//! String operations of the standard library that the decoder relies on.

use vstd::prelude::*;

verus! {

/// Whether `text` is non-empty and its last character is `c`.
pub open spec fn ends_with(text: Seq<char>, c: char) -> bool {
    text.len() > 0 && text.last() == c
}

/// `str::ends_with` with a `char` pattern. Trusted: the result is true
/// exactly when the text is non-empty and its last character is `c`.
#[verifier::external_body]
pub(crate) fn ends_with_char(text: &str, c: char) -> (found: bool)
    ensures
        found == ends_with(text@, c),
{
    text.ends_with(c)
}

/// `str::strip_prefix` with a `&str` pattern. Trusted: `Some(tail)` exactly
/// when the text starts with `prefix`, and then `tail` is what follows it.
#[verifier::external_body]
pub(crate) fn strip_prefix<'a>(text: &'a str, prefix: &str) -> (rest: Option<&'a str>)
    ensures
        match rest {
            Some(tail) => text@ == prefix@ + tail@,
            None => !prefix@.is_prefix_of(text@),
        },
{
    text.strip_prefix(prefix)
}

/// `String::push`. Trusted: the character is appended at the end and nothing
/// else changes.
#[verifier::external_body]
pub(crate) fn push_char(text: &mut String, c: char)
    ensures
        final(text)@ == old(text)@.push(c),
{
    text.push(c)
}

} // verus!
