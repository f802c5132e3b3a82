//! The two pieces of std text handling that vstd leaves unspecified:
//! turning a scalar value into a `char` and growing a `String` by one
//! character.

use vstd::prelude::*;

verus! {

/// Relies on char::from_u32: `Some` exactly on Unicode scalar values, and
/// the character carries that value.
#[verifier::external_body]
pub(crate) fn char_from_u32(u: u32) -> (r: Option<char>)
    ensures
        match r {
            Some(c) => vstd::utf8::is_scalar(u) && c as u32 == u,
            None => !vstd::utf8::is_scalar(u),
        },
{
    char::from_u32(u)
}

/// Relies on String::push: appends the character.
#[verifier::external_body]
pub(crate) fn push_char(s: &mut String, c: char)
    ensures
        final(s)@ == old(s)@.push(c),
{
    s.push(c)
}

} // verus!
