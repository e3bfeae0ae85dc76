//! The search for a word that tells two deterministic automata apart, made
//! by the `automata` crate.

use crate::nfa::dfa::DfaData;
use vstd::prelude::*;

verus! {

/// Whether exactly one of two states accepts: the pairs of states that tell
/// two automata apart.
pub fn differ(left: bool, right: bool) -> (r: bool)
    ensures
        r == (left != right),
{
    left != right
}

/// `Dfa::from_edges` and `Dfa::pair_empty` of the `automata` crate.
///
/// Each automaton is handed to the crate as its list of edges and its list
/// of accepting states. The crate walks the pairs of states that the two
/// automata reach on the same word, from the pair of the start states on,
/// and answers `true` if in none of them exactly one state accepts: the
/// automata then accept the same words.
///
/// Nothing of this is proved. The crate asks that every state has exactly
/// one edge for every letter, that the two automata have the same letters,
/// and, for the way in which it reads the accepting states, that these are
/// listed from the greatest down; the layout of a [`DfaData`] sees to all
/// of that but the same letters.
#[verifier::external_body]
pub(crate) fn pair_empty(left: &DfaData, right: &DfaData) -> (r: bool)
    requires
        left.is_table(),
        right.is_table(),
        left@.letters == right@.letters,
    ensures
        r == left@.same_language(right@),
{
    let l = automata::dfa::Dfa::from_edges(left.edges.iter().copied(), left.finals.iter().copied());
    let r = automata::dfa::Dfa::from_edges(
        right.edges.iter().copied(),
        right.finals.iter().copied(),
    );
    l.pair_empty(&r, &|a, b| differ(a, b))
}

impl DfaData {
    /// Whether two automata over the same letters accept the same words.
    pub fn equivalent_to(&self, another: &DfaData) -> (r: bool)
        requires
            self@.letters == another@.letters,
        ensures
            r == self@.same_language(another@),
    {
        proof {
            use_type_invariant(self);
            use_type_invariant(another);
        }
        pair_empty(self, another)
    }
}

} // verus!
