use vstd::prelude::*;

verus! {

/// Prevents implementations of the counter traits outside of this crate.
pub trait Sealed {}

} // verus!
