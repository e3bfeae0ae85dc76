//! Which words an automaton accepts.

use crate::nfa::nfa_manipulations::Automaton;
use crate::regex::alphabet::Alphabet;
use vstd::prelude::*;

verus! {

impl Automaton {
    /// An edge from `from` to `to` with the given label.
    pub open spec fn has_edge(self, from: int, label: Option<Alphabet>, to: int) -> bool {
        exists|i: int| 0 <= i < self.edges.len() && #[trigger] self.edges[i] == (from, label, to)
    }

    /// A path of `steps` ε-transitions from `from` to `to`.
    pub open spec fn silent_path(self, from: int, to: int, steps: int) -> bool
        decreases steps,
    {
        if steps <= 0 {
            from == to
        } else {
            exists|mid: int|
                self.silent_path(from, mid, steps - 1) && #[trigger] self.has_edge(mid, None, to)
        }
    }

    /// Some path of ε-transitions leads from `from` to `to`.
    pub open spec fn silently_reaches(self, from: int, to: int) -> bool {
        exists|steps: int| #[trigger] self.silent_path(from, to, steps)
    }

    /// The ε-closure of a set of states: the states that paths of
    /// ε-transitions reach from it.
    pub open spec fn closure(self, states: Set<int>) -> Set<int> {
        Set::new(
            |to: int| exists|from: int| states.contains(from) && #[trigger] self.silently_reaches(from, to),
        )
    }

    /// The states that an edge with the letter reaches from a set of
    /// states.
    pub open spec fn moved(self, states: Set<int>, letter: Alphabet) -> Set<int> {
        Set::new(
            |to: int|
                exists|from: int| states.contains(from) && #[trigger] self.has_edge(
                    from,
                    Some(letter),
                    to,
                ),
        )
    }

    /// The states in which the automaton can be when it has read the word:
    /// at first the ε-closure of the start state, and after each letter the
    /// ε-closure of the states that the letter leads to.
    pub open spec fn after(self, word: Seq<Alphabet>) -> Set<int>
        decreases word.len(),
    {
        if word.len() == 0 {
            self.closure(set![0int])
        } else {
            self.closure(self.moved(self.after(word.drop_last()), word.last()))
        }
    }

    /// Whether the set holds an accepting state.
    pub open spec fn accepting(self, states: Set<int>) -> bool {
        exists|i: int| 0 <= i < self.finals.len() && states.contains(#[trigger] self.finals[i])
    }

    /// Whether the automaton accepts the word: it can be in an accepting
    /// state when it has read it.
    pub open spec fn accepts(self, word: Seq<Alphabet>) -> bool {
        self.accepting(self.after(word))
    }
}

/// Every letter of the word is in the set.
pub open spec fn word_over(word: Seq<Alphabet>, letters: Set<Alphabet>) -> bool {
    forall|i: int| 0 <= i < word.len() ==> letters.contains(#[trigger] word[i])
}

} // verus!
