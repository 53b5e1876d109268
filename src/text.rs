//! What std's text routines used by the parser are relied on to do.
use crate::grammar::is_white_space;
use vstd::prelude::*;

verus! {

/// Relies on `String::push`, which appends one character at the end.
pub assume_specification[ std::string::String::push ](s: &mut std::string::String, ch: char)
    ensures
        final(s)@ == old(s)@.push(ch),
;

/// Relies on `char::is_whitespace`, which is true exactly of the characters with Unicode's
/// `White_Space` property.
pub assume_specification[ char::is_whitespace ](c: char) -> (r: bool)
    ensures
        r == is_white_space(c),
;

} // verus!
