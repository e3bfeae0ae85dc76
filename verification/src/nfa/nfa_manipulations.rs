//! Automata as plain lists of edges, and the constructions that build the
//! automaton of an expression from those of its parts.

use crate::nfa::runs::lemma_accepts_by_run;
use crate::nfa::thompson::{
    accepted_in_row, accepted_repeatedly, all_well_formed, lemma_concat_accepts,
    lemma_concat_first_accepts, lemma_epsilon_accepts, lemma_literal_accepts, lemma_star_accepts,
    lemma_union_all_accepts, lemma_union_first_accepts, never_returns,
};
use crate::regex::alphabet::Alphabet;
use vstd::prelude::*;

verus! {

/// The mathematical value of an [`NfaData`].
///
/// States are the numbers from 0 to `max_index`; 0 is the start state. An
/// edge is a triple of source, label and target, and the label `None` marks
/// an ε-transition.
pub struct Automaton {
    pub max_index: int,
    pub edges: Seq<(int, Option<Alphabet>, int)>,
    pub finals: Seq<int>,
}

impl Automaton {
    /// No edge and no accepting state names a state outside `0..=max_index`.
    pub open spec fn well_formed(self) -> bool {
        &&& 0 <= self.max_index
        &&& forall|i: int|
            0 <= i < self.edges.len() ==> 0 <= (#[trigger] self.edges[i]).0 <= self.max_index && 0
                <= self.edges[i].2 <= self.max_index
        &&& forall|i: int|
            0 <= i < self.finals.len() ==> 0 <= #[trigger] self.finals[i] <= self.max_index
    }

    /// The automaton of one state that accepts no word.
    pub open spec fn empty() -> Automaton {
        Automaton { max_index: 0, edges: Seq::empty(), finals: Seq::empty() }
    }

    /// The automaton that accepts only the empty word.
    pub open spec fn epsilon() -> Automaton {
        Automaton { max_index: 0, edges: Seq::empty(), finals: seq![0int] }
    }

    /// The automaton that accepts only the word of the one letter.
    pub open spec fn literal(alphabet: Alphabet) -> Automaton {
        Automaton { max_index: 1, edges: seq![(0int, Some(alphabet), 1int)], finals: seq![1int] }
    }

    /// The same automaton with every state number raised by `shift`. The
    /// states below `shift` occur nowhere in it.
    pub open spec fn shifted(self, shift: int) -> Automaton {
        Automaton {
            max_index: self.max_index + shift,
            edges: Seq::new(
                self.edges.len(),
                |i: int| (self.edges[i].0 + shift, self.edges[i].1, self.edges[i].2 + shift),
            ),
            finals: Seq::new(self.finals.len(), |i: int| self.finals[i] + shift),
        }
    }

    /// `self` followed by `right`: `right` is moved behind the states of
    /// `self`, and every accepting state of `self` gets an ε-transition to
    /// the moved start of `right`.
    pub open spec fn concat(self, right: Automaton) -> Automaton {
        let start = self.max_index + 1;
        let moved = right.shifted(start);
        Automaton {
            max_index: moved.max_index,
            edges: self.edges + moved.edges + Seq::new(
                self.finals.len(),
                |i: int| (self.finals[i], None::<Alphabet>, start),
            ),
            finals: moved.finals,
        }
    }

    /// One more alternative: `nfa` is moved behind the states of `self`,
    /// and the start state gets an ε-transition to the moved start of `nfa`.
    pub open spec fn with_alternative(self, nfa: Automaton) -> Automaton {
        let start = self.max_index + 1;
        let moved = nfa.shifted(start);
        Automaton {
            max_index: moved.max_index,
            edges: self.edges + moved.edges + seq![(0int, None::<Alphabet>, start)],
            finals: self.finals + moved.finals,
        }
    }

    /// Zero or more repetitions: the automaton is moved up by one, the new
    /// state 0 is the start and the only accepting state, with an
    /// ε-transition to the moved start and one from every moved accepting
    /// state back to 0.
    pub open spec fn star(self) -> Automaton {
        let moved = self.shifted(1);
        Automaton {
            max_index: moved.max_index,
            edges: moved.edges + seq![(0int, None::<Alphabet>, 1int)] + Seq::new(
                moved.finals.len(),
                |i: int| (moved.finals[i], None::<Alphabet>, 0int),
            ),
            finals: seq![0int],
        }
    }

    /// The first `count` automata of `nfas` concatenated, from the left.
    pub open spec fn concat_first(nfas: Seq<Automaton>, count: int) -> Automaton
        decreases count,
    {
        if count <= 1 {
            nfas[0]
        } else {
            Automaton::concat_first(nfas, count - 1).concat(nfas[count - 1])
        }
    }

    /// All of `nfas` concatenated, from the left.
    pub open spec fn concat_all(nfas: Seq<Automaton>) -> Automaton {
        Automaton::concat_first(nfas, nfas.len() as int)
    }

    /// The first `count` automata of `nfas` as alternatives under a fresh
    /// start state.
    pub open spec fn union_first(nfas: Seq<Automaton>, count: int) -> Automaton
        decreases count,
    {
        if count <= 0 {
            Automaton::empty()
        } else {
            Automaton::union_first(nfas, count - 1).with_alternative(nfas[count - 1])
        }
    }

    /// The union of `nfas`: all of them as alternatives under a fresh start
    /// state.
    pub open spec fn union_all(nfas: Seq<Automaton>) -> Automaton {
        Automaton::union_first(nfas, nfas.len() as int)
    }
}

/// The number of states of the first `count` automata of `nfas`, added up.
pub open spec fn states_of_first(nfas: Seq<Automaton>, count: int) -> int
    decreases count,
{
    if count <= 0 {
        0
    } else {
        states_of_first(nfas, count - 1) + nfas[count - 1].max_index + 1
    }
}

/// Every automaton of the list has its states numbered from 0.
pub open spec fn all_counted(nfas: Seq<Automaton>) -> bool {
    forall|i: int| 0 <= i < nfas.len() ==> (#[trigger] nfas[i]).max_index >= 0
}

/// The values of a list of automata.
pub open spec fn automata_of(nfas: Seq<NfaData>) -> Seq<Automaton> {
    Seq::new(nfas.len(), |i: int| nfas[i]@)
}

/// The edges of an automaton as mathematical triples.
pub open spec fn edges_of(edges: Seq<(usize, Option<Alphabet>, usize)>) -> Seq<
    (int, Option<Alphabet>, int),
> {
    Seq::new(edges.len(), |i: int| (edges[i].0 as int, edges[i].1, edges[i].2 as int))
}

/// State numbers as mathematical integers.
pub open spec fn indices_of(indices: Seq<usize>) -> Seq<int> {
    Seq::new(indices.len(), |i: int| indices[i] as int)
}

/// A representation of a nondeterministic finite automaton. States are
/// numbered by `usize`, and the start state is fixed to 0.
///
/// Larger automata are built from smaller ones with the functions of this
/// type. No index in the edges or the accepting states is greater than the
/// maximum index that the automaton records.
#[derive(Debug)]
pub struct NfaData {
    /// Maximum index present in the automaton.
    max_index: usize,
    /// An edge is a triple of start index, label and target index; the
    /// label is `None` for an ε-transition.
    edges: Vec<(usize, Option<Alphabet>, usize)>,
    /// Indices of accepting states.
    finals: Vec<usize>,
}

impl View for NfaData {
    type V = Automaton;

    closed spec fn view(&self) -> Automaton {
        Automaton {
            max_index: self.max_index as int,
            edges: edges_of(self.edges@),
            finals: indices_of(self.finals@),
        }
    }
}

impl Clone for NfaData {
    fn clone(&self) -> (r: Self)
        ensures
            r@ == self@,
            r@.well_formed(),
    {
        proof {
            use_type_invariant(self);
        }
        let r = self.disconnect_with_shift(0);
        assert(r@.edges =~= self@.edges);
        assert(r@.finals =~= self@.finals);
        r
    }
}

impl NfaData {
    #[verifier::type_invariant]
    closed spec fn within_bounds(self) -> bool {
        self@.well_formed()
    }

    /// The greatest state number.
    pub fn max_index(&self) -> (r: usize)
        ensures
            r == self@.max_index,
            self@.well_formed(),
    {
        proof {
            use_type_invariant(self);
        }
        self.max_index
    }

    /// The edges.
    pub fn edges(&self) -> (r: &Vec<(usize, Option<Alphabet>, usize)>)
        ensures
            edges_of(r@) == self@.edges,
            self@.well_formed(),
    {
        proof {
            use_type_invariant(self);
        }
        &self.edges
    }

    /// The accepting states.
    pub fn finals(&self) -> (r: &Vec<usize>)
        ensures
            indices_of(r@) == self@.finals,
            self@.well_formed(),
    {
        proof {
            use_type_invariant(self);
        }
        &self.finals
    }

    /// The NFA that accepts no word.
    pub fn empty() -> (r: NfaData)
        ensures
            r@ == Automaton::empty(),
            r@.well_formed(),
            forall|word: Seq<Alphabet>| !#[trigger] r@.accepts(word),
    {
        let r = NfaData { max_index: 0, edges: Vec::new(), finals: Vec::new() };
        assert(r@.edges =~= Automaton::empty().edges);
        assert(r@.finals =~= Automaton::empty().finals);
        proof {
            assert forall|word: Seq<Alphabet>| !#[trigger] r@.accepts(word) by {
                lemma_accepts_by_run(r@, word);
            }
        }
        r
    }

    /// The NFA that only accepts the empty word.
    pub fn epsilon() -> (r: NfaData)
        ensures
            r@ == Automaton::epsilon(),
            r@.well_formed(),
            forall|word: Seq<Alphabet>| #[trigger] r@.accepts(word) == (word.len() == 0),
    {
        let mut finals: Vec<usize> = Vec::new();
        finals.push(0);
        let r = NfaData { max_index: 0, edges: Vec::new(), finals };
        assert(r@.edges =~= Automaton::epsilon().edges);
        assert(r@.finals =~= Automaton::epsilon().finals);
        proof {
            assert forall|word: Seq<Alphabet>| #[trigger] r@.accepts(word) == (word.len()
                == 0) by {
                lemma_epsilon_accepts(word);
            }
        }
        r
    }

    /// An NFA that only accepts the single-letter word of the given letter.
    pub fn literal(alphabet: Alphabet) -> (r: NfaData)
        ensures
            r@ == Automaton::literal(alphabet),
            r@.well_formed(),
            forall|word: Seq<Alphabet>| #[trigger] r@.accepts(word) == (word == seq![alphabet]),
    {
        let mut edges: Vec<(usize, Option<Alphabet>, usize)> = Vec::new();
        edges.push((0, Some(alphabet), 1));
        let mut finals: Vec<usize> = Vec::new();
        finals.push(1);
        let r = NfaData { max_index: 1, edges, finals };
        assert(r@.edges =~= Automaton::literal(alphabet).edges);
        assert(r@.finals =~= Automaton::literal(alphabet).finals);
        proof {
            assert forall|word: Seq<Alphabet>| #[trigger] r@.accepts(word) == (word
                == seq![alphabet]) by {
                lemma_literal_accepts(alphabet, word);
            }
        }
        r
    }

    /// The same NFA with all indices of states increased by `shift_size`.
    ///
    /// For example, the NFA
    ///
    /// ```text
    ///  -> 0 --ε->[1]--A->[2]
    ///             |       ^
    ///             |       B
    ///             |       |
    ///             |---B-> 3
    /// ```
    ///
    /// becomes, shifted by 3,
    ///
    /// ```text
    ///     3 --ε->[4]--A->[5]
    ///             |       ^
    ///             |       B
    ///             |       |
    ///             |---B-> 6
    ///
    ///  -> 0   1   2
    /// ```
    ///
    /// The states 0, 1 and 2 appear nowhere in the result, so the start
    /// state is disconnected and no word is accepted.
    fn disconnect_with_shift(&self, shift_size: usize) -> (r: NfaData)
        requires
            self@.max_index + shift_size <= usize::MAX,
        ensures
            r@ == self@.shifted(shift_size as int),
            r@.well_formed(),
    {
        proof {
            use_type_invariant(self);
        }
        let mut edges: Vec<(usize, Option<Alphabet>, usize)> = Vec::new();
        let mut i: usize = 0;
        while i < self.edges.len()
            invariant
                i <= self.edges.len(),
                self@.well_formed(),
                self@.max_index + shift_size <= usize::MAX,
                edges@.len() == i,
                forall|k: int|
                    0 <= k < i ==> #[trigger] edges@[k] == (
                        (self.edges@[k].0 + shift_size) as usize,
                        self.edges@[k].1,
                        (self.edges@[k].2 + shift_size) as usize,
                    ),
            decreases self.edges.len() - i,
        {
            let edge = self.edges[i];
            assert(self@.edges[i as int] == (edge.0 as int, edge.1, edge.2 as int));
            edges.push((edge.0 + shift_size, edge.1, edge.2 + shift_size));
            i += 1;
        }
        let mut finals: Vec<usize> = Vec::new();
        let mut j: usize = 0;
        while j < self.finals.len()
            invariant
                j <= self.finals.len(),
                self@.well_formed(),
                self@.max_index + shift_size <= usize::MAX,
                finals@.len() == j,
                forall|k: int|
                    0 <= k < j ==> #[trigger] finals@[k] == (self.finals@[k] + shift_size) as usize,
            decreases self.finals.len() - j,
        {
            let index = self.finals[j];
            assert(self@.finals[j as int] == index as int);
            finals.push(index + shift_size);
            j += 1;
        }
        proof {
            let target = self@.shifted(shift_size as int);
            assert forall|k: int| 0 <= k < edges@.len() implies edges_of(edges@)[k]
                == target.edges[k] by {
                assert(self@.edges[k] == (
                    self.edges@[k].0 as int,
                    self.edges@[k].1,
                    self.edges@[k].2 as int,
                ));
            }
            assert(edges_of(edges@) =~= target.edges);
            assert forall|k: int| 0 <= k < finals@.len() implies indices_of(finals@)[k]
                == target.finals[k] by {
                assert(self@.finals[k] == self.finals@[k] as int);
            }
            assert(indices_of(finals@) =~= target.finals);
        }
        NfaData { max_index: self.max_index + shift_size, edges, finals }
    }

    /// An NFA that recognizes the words of `self` followed by the words of
    /// `right`.
    ///
    /// All accepting states of `self` are joined to the start state of
    /// `right` by ε-transitions.
    pub fn concat(&self, right: &NfaData) -> (r: NfaData)
        requires
            self@.max_index + 1 + right@.max_index <= usize::MAX,
        ensures
            r@ == self@.concat(right@),
            r@.well_formed(),
            self@.well_formed(),
            right@.well_formed(),
            forall|word: Seq<Alphabet>| #[trigger]
                r@.accepts(word) == exists|k: int|
                    0 <= k <= word.len() && self@.accepts(#[trigger] word.take(k))
                        && right@.accepts(word.skip(k)),
    {
        proof {
            use_type_invariant(self);
            use_type_invariant(right);
        }
        let shifted_right_start_index = self.max_index + 1;
        let shifted_right = right.disconnect_with_shift(shifted_right_start_index);
        proof {
            use_type_invariant(&shifted_right);
        }
        let mut edges: Vec<(usize, Option<Alphabet>, usize)> = Vec::new();
        append_edges(&mut edges, &self.edges);
        append_edges(&mut edges, &shifted_right.edges);
        let mut i: usize = 0;
        while i < self.finals.len()
            invariant
                i <= self.finals.len(),
                shifted_right_start_index == self@.max_index + 1,
                edges@.len() == self.edges@.len() + shifted_right.edges@.len() + i,
                forall|k: int|
                    0 <= k < self.edges@.len() + shifted_right.edges@.len() ==> #[trigger] edges@[k]
                        == (self.edges@ + shifted_right.edges@)[k],
                forall|k: int|
                    0 <= k < i ==> #[trigger] edges@[self.edges@.len() + shifted_right.edges@.len()
                        + k] == (self.finals@[k], None::<Alphabet>, shifted_right_start_index),
            decreases self.finals.len() - i,
        {
            edges.push((self.finals[i], None, shifted_right_start_index));
            i += 1;
        }
        let ghost target = self@.concat(right@);
        proof {
            assert(edges_of(edges@) =~= target.edges) by {
                assert forall|k: int| 0 <= k < edges@.len() implies edges_of(edges@)[k]
                    == target.edges[k] by {
                    let a = self.edges@.len();
                    let b = shifted_right.edges@.len();
                    assert(shifted_right@.edges.len() == b);
                    assert(self@.edges.len() == a);
                    if k < a {
                        assert(edges@[k] == self.edges@[k]);
                        assert(self@.edges[k] == target.edges[k]);
                    } else if k < a + b {
                        assert(edges@[k] == shifted_right.edges@[k - a]);
                        assert(shifted_right@.edges[k - a] == target.edges[k]);
                    } else {
                        assert(edges@[a + b + (k - a - b)] == (
                            self.finals@[k - a - b],
                            None::<Alphabet>,
                            shifted_right_start_index,
                        ));
                        assert(self@.finals[k - a - b] == self.finals@[k - a - b] as int);
                    }
                }
            }
            assert(shifted_right@.finals == target.finals);
            assert(target.well_formed()) by {
                assert forall|k: int| 0 <= k < target.edges.len() implies 0 <= (
                #[trigger] target.edges[k]).0 <= target.max_index && 0 <= target.edges[k].2
                    <= target.max_index by {
                    let a = self@.edges.len();
                    let b = shifted_right@.edges.len();
                    if k < a {
                        assert(target.edges[k] == self@.edges[k]);
                    } else if k < a + b {
                        assert(target.edges[k] == shifted_right@.edges[k - a]);
                    } else {
                        assert(target.edges[k].0 == self@.finals[k - a - b]);
                    }
                }
            }
        }
        let r = NfaData { max_index: shifted_right.max_index, edges, finals: shifted_right.finals };
        proof {
            assert forall|word: Seq<Alphabet>| #[trigger]
                r@.accepts(word) == exists|k: int|
                    0 <= k <= word.len() && self@.accepts(#[trigger] word.take(k))
                        && right@.accepts(word.skip(k)) by {
                lemma_concat_accepts(self@, right@, word);
            }
        }
        r
    }

    /// An NFA that accepts concatenations of words, one from each NFA of
    /// the list in turn. The list may not be empty.
    pub fn concat_all(nfas: Vec<NfaData>) -> (r: NfaData)
        requires
            nfas@.len() >= 1,
            states_of_first(automata_of(nfas@), nfas@.len() as int) - 1 <= usize::MAX,
        ensures
            r@ == Automaton::concat_all(automata_of(nfas@)),
            r@.well_formed(),
            forall|word: Seq<Alphabet>| #[trigger]
                r@.accepts(word) == accepted_in_row(
                    automata_of(nfas@),
                    nfas@.len() as int,
                    word,
                ),
    {
        let ghost all = automata_of(nfas@);
        let mut accum = nfas[0].clone();
        let mut i: usize = 1;
        proof {
            lemma_all_counted(nfas@);
            lemma_fold_sizes(all, 1);
        }
        while i < nfas.len()
            invariant
                1 <= i <= nfas.len(),
                all == automata_of(nfas@),
                all_counted(all),
                states_of_first(all, nfas@.len() as int) - 1 <= usize::MAX,
                accum@ == Automaton::concat_first(all, i as int),
                accum@.well_formed(),
                forall|k: int| 0 <= k < i ==> (#[trigger] all[k]).well_formed(),
            decreases nfas.len() - i,
        {
            proof {
                lemma_fold_sizes(all, i as int);
                lemma_fold_sizes(all, i + 1);
                lemma_states_grow(all, i + 1, nfas@.len() as int);
            }
            accum = accum.concat(&nfas[i]);
            i += 1;
        }
        proof {
            assert(all_well_formed(all));
            assert forall|word: Seq<Alphabet>| #[trigger]
                accum@.accepts(word) == accepted_in_row(all, nfas@.len() as int, word) by {
                lemma_concat_first_accepts(all, nfas@.len() as int, word);
            }
        }
        accum
    }

    /// An NFA that recognizes the union of the languages of the NFAs in the
    /// list. The list may not be empty.
    ///
    /// A new start state gets the NFAs behind it, one after the other in
    /// the order of the list, each in a block of states of its own, and an
    /// ε-transition to the start state of each. No edge leads to the new
    /// start state, and the accepting states are those of the NFAs.
    pub fn union_all(nfas: Vec<NfaData>) -> (r: NfaData)
        requires
            nfas@.len() >= 1,
            states_of_first(automata_of(nfas@), nfas@.len() as int) <= usize::MAX,
        ensures
            r@ == Automaton::union_all(automata_of(nfas@)),
            r@.well_formed(),
            r@.max_index == states_of_first(automata_of(nfas@), nfas@.len() as int),
            never_returns(r@),
            forall|word: Seq<Alphabet>| #[trigger]
                r@.accepts(word) == exists|i: int|
                    0 <= i < nfas@.len() && (#[trigger] automata_of(nfas@)[i]).accepts(word),
    {
        let ghost all = automata_of(nfas@);
        let mut accum = NfaData::empty();
        let mut i: usize = 0;
        proof {
            lemma_all_counted(nfas@);
        }
        while i < nfas.len()
            invariant
                i <= nfas.len(),
                all == automata_of(nfas@),
                all_counted(all),
                states_of_first(all, nfas@.len() as int) <= usize::MAX,
                accum@ == Automaton::union_first(all, i as int),
                accum@.well_formed(),
                forall|k: int| 0 <= k < i ==> (#[trigger] all[k]).well_formed(),
            decreases nfas.len() - i,
        {
            proof {
                lemma_fold_sizes(all, i as int);
                lemma_fold_sizes(all, i + 1);
                lemma_states_grow(all, i + 1, nfas@.len() as int);
            }
            accum = accum.with_alternative(&nfas[i]);
            i += 1;
        }
        proof {
            assert(all_well_formed(all));
            lemma_fold_sizes(all, nfas@.len() as int);
            lemma_union_first_accepts(all, nfas@.len() as int, Seq::empty());
            assert forall|word: Seq<Alphabet>| #[trigger]
                accum@.accepts(word) == exists|i: int|
                    0 <= i < nfas@.len() && (#[trigger] all[i]).accepts(word) by {
                lemma_union_all_accepts(all, word);
            }
        }
        accum
    }

    /// `self` with `nfa` as one more alternative behind its states.
    fn with_alternative(&self, nfa: &NfaData) -> (r: NfaData)
        requires
            self@.max_index + 1 + nfa@.max_index <= usize::MAX,
        ensures
            r@ == self@.with_alternative(nfa@),
            r@.well_formed(),
            nfa@.well_formed(),
    {
        proof {
            use_type_invariant(self);
            use_type_invariant(nfa);
        }
        let shifted_right_start_index = self.max_index + 1;
        let shifted_nfa = nfa.disconnect_with_shift(shifted_right_start_index);
        proof {
            use_type_invariant(&shifted_nfa);
        }
        let mut extended_edges: Vec<(usize, Option<Alphabet>, usize)> = Vec::new();
        append_edges(&mut extended_edges, &self.edges);
        append_edges(&mut extended_edges, &shifted_nfa.edges);
        extended_edges.push((0, None, shifted_right_start_index));
        let mut extended_finals: Vec<usize> = Vec::new();
        append_indices(&mut extended_finals, &self.finals);
        append_indices(&mut extended_finals, &shifted_nfa.finals);
        let ghost target = self@.with_alternative(nfa@);
        proof {
            assert(edges_of(extended_edges@) =~= target.edges);
            assert(indices_of(extended_finals@) =~= target.finals);
            assert(target.well_formed()) by {
                assert forall|k: int| 0 <= k < target.edges.len() implies 0 <= (
                #[trigger] target.edges[k]).0 <= target.max_index && 0 <= target.edges[k].2
                    <= target.max_index by {
                    let a = self@.edges.len();
                    let b = shifted_nfa@.edges.len();
                    if k < a {
                        assert(target.edges[k] == self@.edges[k]);
                    } else if k < a + b {
                        assert(target.edges[k] == shifted_nfa@.edges[k - a]);
                    }
                }
                assert forall|k: int| 0 <= k < target.finals.len() implies 0
                    <= #[trigger] target.finals[k] <= target.max_index by {
                    let a = self@.finals.len();
                    if k < a {
                        assert(target.finals[k] == self@.finals[k]);
                    } else {
                        assert(target.finals[k] == shifted_nfa@.finals[k - a]);
                    }
                }
            }
        }
        NfaData {
            max_index: shifted_nfa.max_index,
            edges: extended_edges,
            finals: extended_finals,
        }
    }

    /// An NFA that recognizes zero or more repetitions of words recognized
    /// by the given NFA.
    pub fn star(nfa: &NfaData) -> (r: NfaData)
        requires
            nfa@.max_index + 1 <= usize::MAX,
        ensures
            r@ == nfa@.star(),
            r@.well_formed(),
            forall|word: Seq<Alphabet>| #[trigger]
                r@.accepts(word) == accepted_repeatedly(nfa@, word),
    {
        proof {
            use_type_invariant(nfa);
        }
        let shifted = nfa.disconnect_with_shift(1);
        proof {
            use_type_invariant(&shifted);
        }
        let mut extended_edges: Vec<(usize, Option<Alphabet>, usize)> = Vec::new();
        append_edges(&mut extended_edges, &shifted.edges);
        extended_edges.push((0, None, 1));
        let mut i: usize = 0;
        while i < shifted.finals.len()
            invariant
                i <= shifted.finals.len(),
                extended_edges@.len() == shifted.edges@.len() + 1 + i,
                forall|k: int|
                    0 <= k < shifted.edges@.len() + 1 ==> #[trigger] extended_edges@[k] == (
                    shifted.edges@ + seq![(0usize, None::<Alphabet>, 1usize)])[k],
                forall|k: int|
                    0 <= k < i ==> #[trigger] extended_edges@[shifted.edges@.len() + 1 + k] == (
                        shifted.finals@[k],
                        None::<Alphabet>,
                        0usize,
                    ),
            decreases shifted.finals.len() - i,
        {
            extended_edges.push((shifted.finals[i], None, 0));
            i += 1;
        }
        let mut finals: Vec<usize> = Vec::new();
        finals.push(0);
        let ghost target = nfa@.star();
        proof {
            assert(edges_of(extended_edges@) =~= target.edges) by {
                assert forall|k: int| 0 <= k < extended_edges@.len() implies edges_of(
                    extended_edges@,
                )[k] == target.edges[k] by {
                    let a = shifted.edges@.len();
                    assert(shifted@.edges.len() == a);
                    if k < a {
                        assert(extended_edges@[k] == shifted.edges@[k]);
                        assert(shifted@.edges[k] == target.edges[k]);
                    } else if k == a {
                        assert(extended_edges@[k] == (0usize, None::<Alphabet>, 1usize));
                    } else {
                        assert(extended_edges@[a + 1 + (k - a - 1)] == (
                            shifted.finals@[k - a - 1],
                            None::<Alphabet>,
                            0usize,
                        ));
                        assert(shifted@.finals[k - a - 1] == shifted.finals@[k - a - 1] as int);
                    }
                }
            }
            assert(indices_of(finals@) =~= target.finals);
            assert(target.well_formed()) by {
                assert forall|k: int| 0 <= k < target.edges.len() implies 0 <= (
                #[trigger] target.edges[k]).0 <= target.max_index && 0 <= target.edges[k].2
                    <= target.max_index by {
                    let a = shifted@.edges.len();
                    if k < a {
                        assert(target.edges[k] == shifted@.edges[k]);
                    } else if k > a {
                        assert(target.edges[k].0 == shifted@.finals[k - a - 1]);
                    }
                }
            }
        }
        let r = NfaData { max_index: shifted.max_index, edges: extended_edges, finals };
        proof {
            assert forall|word: Seq<Alphabet>| #[trigger]
                r@.accepts(word) == accepted_repeatedly(nfa@, word) by {
                lemma_star_accepts(nfa@, word);
            }
        }
        r
    }
}

/// Appends copies of the edges of `more` to `edges`.
fn append_edges(
    edges: &mut Vec<(usize, Option<Alphabet>, usize)>,
    more: &Vec<(usize, Option<Alphabet>, usize)>,
)
    ensures
        final(edges)@ == old(edges)@ + more@,
{
    let mut i: usize = 0;
    while i < more.len()
        invariant
            i <= more.len(),
            edges@ == old(edges)@ + more@.take(i as int),
        decreases more.len() - i,
    {
        edges.push(more[i]);
        assert(edges@ =~= old(edges)@ + more@.take(i + 1));
        i += 1;
    }
    assert(more@.take(more.len() as int) =~= more@);
}

/// Appends the state numbers of `more` to `indices`.
fn append_indices(indices: &mut Vec<usize>, more: &Vec<usize>)
    ensures
        final(indices)@ == old(indices)@ + more@,
{
    let mut i: usize = 0;
    while i < more.len()
        invariant
            i <= more.len(),
            indices@ == old(indices)@ + more@.take(i as int),
        decreases more.len() - i,
    {
        indices.push(more[i]);
        assert(indices@ =~= old(indices)@ + more@.take(i + 1));
        i += 1;
    }
    assert(more@.take(more.len() as int) =~= more@);
}

/// The automata of a list have their states numbered from 0.
proof fn lemma_all_counted(nfas: Seq<NfaData>)
    ensures
        all_counted(automata_of(nfas)),
{
    assert forall|i: int| 0 <= i < nfas.len() implies (#[trigger] automata_of(nfas)[i]).max_index
        >= 0 by {
        assert(automata_of(nfas)[i] == nfas[i]@);
    }
}

/// The greatest state of a fold is fixed by the number of states that went
/// into it.
pub proof fn lemma_fold_sizes(nfas: Seq<Automaton>, count: int)
    requires
        all_counted(nfas),
        0 <= count <= nfas.len(),
    ensures
        count >= 1 ==> Automaton::concat_first(nfas, count).max_index + 1 == states_of_first(
            nfas,
            count,
        ),
        Automaton::union_first(nfas, count).max_index == states_of_first(nfas, count),
        states_of_first(nfas, count) >= count,
    decreases count,
{
    if count >= 1 {
        lemma_fold_sizes(nfas, count - 1);
        assert(nfas[count - 1].max_index >= 0);
        if count == 1 {
            assert(states_of_first(nfas, 0) == 0);
        }
    }
}

/// More automata have more states.
pub proof fn lemma_states_grow(nfas: Seq<Automaton>, fewer: int, more: int)
    requires
        all_counted(nfas),
        0 <= fewer <= more <= nfas.len(),
    ensures
        states_of_first(nfas, fewer) <= states_of_first(nfas, more),
    decreases more - fewer,
{
    if fewer < more {
        lemma_states_grow(nfas, fewer, more - 1);
        assert(nfas[more - 1].max_index >= 0);
    }
}

} // verus!
