//! Keeps the input-source trait closed to this crate.
use vstd::prelude::*;

verus! {

/// Implemented only by this crate's input sources.
pub trait Sealed {
}

} // verus!
