//! The sealing marker for the component trait: the set of component types
//! is closed, so only this crate's platform component types can implement
//! [`crate::component::Utf8Component`].

use vstd::prelude::*;

verus! {

/// A marker implemented only by this crate's component types. The module
/// holding it is private, so the component trait cannot be implemented
/// outside the crate and the classification stays closed.
pub trait Sealed {

}

} // verus!
