//! What the library needs of `String` beyond what vstd says of it.
use vstd::prelude::*;

verus! {

/// `String::push` appends the character to the end of the string: the text
/// after the call is the text before it with `ch` added as its last
/// character.
pub assume_specification[ String::push ](s: &mut String, ch: char)
    ensures
        final(s)@ == old(s)@.push(ch),
;

} // verus!
