//! Identifiers shared across the library.

use vstd::prelude::*;
use crate::text::{decimal, decimal_string};

verus! {

/// The internal id of a stored vector.
#[derive(Debug, Clone, Copy, PartialEq, Eq, Hash, Structural)]
pub struct VectorId(pub u64);

impl VectorId {
    pub fn raw(self) -> (r: u64)
        ensures
            r == self.0,
    {
        self.0
    }

    /// The id in decimal.
    pub fn to_string(&self) -> (r: String)
        ensures
            r@ == decimal(self.0 as nat),
    {
        decimal_string(self.0)
    }
}

} // verus!
