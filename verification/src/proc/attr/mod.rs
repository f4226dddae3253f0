//! Attributes.

use vstd::prelude::*;

pub mod laws;
pub mod quoted;
pub mod value;

verus! {

/// How an attribute value stands in the output.
#[derive(Clone, Copy, Debug, PartialEq, Eq, Structural)]
pub enum AttrType {
    Quoted,
    Unquoted,
}

} // verus!
