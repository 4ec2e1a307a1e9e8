//! How the file of a unified trace is named.

use vstd::prelude::*;

verus! {

/// The extension of an output file: it takes the place of the input
/// file's extension, and tells whether the identifiers were left out.
pub fn output_extension(strip: bool) -> (ext: &'static str)
    ensures
        strip ==> ext@ == "stripped"@,
        !strip ==> ext@ == "unified"@,
{
    if strip {
        "stripped"
    } else {
        "unified"
    }
}

} // verus!
