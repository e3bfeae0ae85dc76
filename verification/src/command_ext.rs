//! The numbers of buttons that a message can carry.

use crate::concepts::Satisfied;
use vstd::prelude::*;

verus! {

/// A row of `N` buttons. It is [`Satisfied`] for the `N` that a message
/// can hold in one row: 1 to 5.
pub struct Button<const N: usize> {}

impl Satisfied for Button<1> {

}

impl Satisfied for Button<2> {

}

impl Satisfied for Button<3> {

}

impl Satisfied for Button<4> {

}

impl Satisfied for Button<5> {

}

} // verus!
