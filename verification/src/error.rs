//! The one way in which an operation of the index can fail.

use vstd::prelude::*;

verus! {

/// Why a mutation was refused.
#[derive(Clone, Copy, Debug, PartialEq, Eq)]
pub enum GraphError {
    /// An entity id or a link type was the empty string.
    InvalidArgument,
}

} // verus!
