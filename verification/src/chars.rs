//! Character classes of the lexical grammar, and the two small string
//! primitives of std that the library relies on.

use vstd::prelude::*;

verus! {

/// Horizontal whitespace: stripped around every token, never a token itself.
pub open spec fn is_hws(c: char) -> bool {
    c == ' ' || c == '\t'
}

/// ASCII letters and digits.
pub open spec fn is_alnum(c: char) -> bool {
    ||| ('0' as u32) <= (c as u32) <= ('9' as u32)
    ||| ('a' as u32) <= (c as u32) <= ('z' as u32)
    ||| ('A' as u32) <= (c as u32) <= ('Z' as u32)
}

/// Characters a `Word` token is made of.
pub open spec fn is_word_char(c: char) -> bool {
    is_alnum(c) || c == '.' || c == '\'' || c == '_'
}

/// Characters a directive name (after `#`) is made of.
pub open spec fn is_directive_char(c: char) -> bool {
    is_alnum(c) || c == '_'
}

/// Runtime test for [`is_hws`].
pub fn hws(c: char) -> (r: bool)
    ensures
        r == is_hws(c),
{
    c == ' ' || c == '\t'
}

/// Runtime test for [`is_word_char`].
pub fn word_char(c: char) -> (r: bool)
    ensures
        r == is_word_char(c),
{
    let u = c as u32;
    (('0' as u32) <= u && u <= ('9' as u32)) || (('a' as u32) <= u && u <= ('z' as u32)) || (('A'
        as u32) <= u && u <= ('Z' as u32)) || c == '.' || c == '\'' || c == '_'
}

/// Runtime test for [`is_directive_char`].
pub fn directive_char(c: char) -> (r: bool)
    ensures
        r == is_directive_char(c),
{
    let u = c as u32;
    (('0' as u32) <= u && u <= ('9' as u32)) || (('a' as u32) <= u && u <= ('z' as u32)) || (('A'
        as u32) <= u && u <= ('Z' as u32)) || c == '_'
}

/// Relies on str's `PartialEq`: two string slices are equal exactly when
/// their character sequences are equal.
#[verifier::external_body]
pub fn str_eq(a: &str, b: &str) -> (r: bool)
    ensures
        r == (a@ == b@),
{
    a == b
}

/// Relies on `String::push`: appends the single character at the end.
#[verifier::external_body]
pub fn push_char(s: &mut String, c: char)
    ensures
        final(s)@ == old(s)@.push(c),
{
    s.push(c)
}

} // verus!
