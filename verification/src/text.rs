//! What this library takes on trust about text comparison in the standard
//! library.

use vstd::prelude::*;

verus! {

/// `str`'s equality from the standard library, `<str as PartialEq>::eq`: two
/// string slices are equal exactly when they hold the same characters.
pub assume_specification[ <str as PartialEq>::eq ](a: &str, b: &str) -> (r: bool)
    ensures
        r == (a@ == b@),
;

} // verus!
