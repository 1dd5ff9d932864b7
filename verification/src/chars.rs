//! Unicode character classification, taken from the standard library.
//!
//! The classes below are full Unicode property tables, far too large to
//! state here, so each gets an uninterpreted name; the tokenizer's
//! contracts are phrased over those names.

use vstd::prelude::*;

verus! {

/// Whether `c` has the Unicode `Numeric` property.
pub uninterp spec fn char_numeric(c: char) -> bool;

/// Whether `c` has the Unicode `Alphabetic` property.
pub uninterp spec fn char_alphabetic(c: char) -> bool;

/// Whether `c` has the Unicode `White_Space` property.
pub uninterp spec fn char_whitespace(c: char) -> bool;

/// Relies on char::is_numeric: the classification depends on the character alone.
pub assume_specification[ char::is_numeric ](c: char) -> (r: bool)
    ensures
        r == char_numeric(c),
;

/// Relies on char::is_alphabetic: the classification depends on the character alone.
pub assume_specification[ char::is_alphabetic ](c: char) -> (r: bool)
    ensures
        r == char_alphabetic(c),
;

/// Relies on char::is_whitespace: the classification depends on the character alone.
pub assume_specification[ char::is_whitespace ](c: char) -> (r: bool)
    ensures
        r == char_whitespace(c),
;

} // verus!
