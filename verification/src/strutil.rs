//! Character-level string building.

use vstd::prelude::*;

verus! {

/// Relies on std's String::push: appends the given character at the end of
/// the string, leaving everything before it unchanged.
pub assume_specification[ String::push ](s: &mut String, c: char)
    ensures
        final(s)@ == old(s)@.push(c),
;

} // verus!
