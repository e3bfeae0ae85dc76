//! What a component of a message carries back when a player uses it.

use vstd::prelude::*;

verus! {

/// The identifier of a message component.
#[derive(Debug, PartialEq, Eq)]
pub enum CustomId {
    /// A button under the answer of a finished quiz: the player's opinion
    /// of the expression.
    Feedback { label: String, regex: String },
}

} // verus!
