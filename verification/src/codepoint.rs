//! Which bytes the markup grammar treats as whitespace.

use vstd::prelude::*;

verus! {

/// The bytes that the markup grammar treats as whitespace: tab, line feed,
/// form feed, carriage return and space.
pub open spec fn spec_is_whitespace(c: u8) -> bool {
    c == 0x09 || c == 0x0a || c == 0x0c || c == 0x0d || c == 0x20
}

#[verifier::when_used_as_spec(spec_is_whitespace)]
pub fn is_whitespace(c: u8) -> (r: bool)
    ensures
        r == spec_is_whitespace(c),
{
    c == 0x09 || c == 0x0a || c == 0x0c || c == 0x0d || c == 0x20
}

} // verus!
