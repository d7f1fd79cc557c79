//! Contracts for functions of the standard library that have none yet.
//!
//! Verus believes these without proof: each says what the documentation of
//! the function says.

use vstd::prelude::*;

verus! {

/// `char::from_u32` of the standard library gives the character of a Unicode
/// scalar value, and none for a number that is not one.
pub assume_specification[ char::from_u32 ](i: u32) -> (c: Option<char>)
    ensures
        c is Some <==> vstd::utf8::is_scalar(i),
        c is Some ==> c.unwrap() as u32 == i,
;

/// `String::push` of the standard library appends one character.
pub assume_specification[ String::push ](s: &mut String, c: char)
    ensures
        final(s)@ == old(s)@.push(c),
;

} // verus!
