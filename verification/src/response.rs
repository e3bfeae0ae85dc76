//! Parts of the answers to the players.

use vstd::prelude::*;

verus! {

/// An option of a select menu.
#[derive(Debug)]
pub struct SelectMenuOption {
    pub description: String,
    pub label: String,
    pub value: String,
}

} // verus!
