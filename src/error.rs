//! The one error of the bounds-checked accessors.
use vstd::prelude::*;

verus! {

/// A bit index was not below the container's length.
#[derive(Debug, Clone, Copy, PartialEq, Eq, Structural)]
pub struct IndexOutOfBounds;

impl IndexOutOfBounds {
    /// A human-readable description of the error.
    pub fn to_string(&self) -> (r: String)
        ensures
            r@ == "index out of bounds"@,
    {
        String::from_str("index out of bounds")
    }
}

} // verus!
