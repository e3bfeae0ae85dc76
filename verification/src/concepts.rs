//! Conditions on constants, stated in types.

use vstd::prelude::*;

verus! {

/// Marker of a [`Condition`] that holds.
pub trait Satisfied {

}

/// A condition on the parameters of a generic item.
///
/// `Condition<{ N <= 5 }>: Satisfied` in a `where` clause admits the item
/// only for the `N` that meet the condition.
pub struct Condition<const B: bool>;

impl Satisfied for Condition<true> {

}

/// States that a type is the type `T`.
pub trait SameAs<T> {

}

impl<T> SameAs<T> for T {

}

} // verus!
