//! The recoverable failures of tree construction.

use vstd::prelude::*;

verus! {

#[derive(Clone, Copy, Debug, PartialEq, Eq)]
pub enum Error {
    /// No roots were given.
    EmptyRoots,
    /// The number of roots is not a power of two.
    NotPow2,
}

} // verus!
