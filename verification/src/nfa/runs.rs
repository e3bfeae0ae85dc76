//! Runs of an automaton: the ways from one state to another along the
//! letters of a word.

use crate::nfa::nfa_manipulations::Automaton;
use crate::regex::alphabet::Alphabet;
use vstd::prelude::*;

verus! {

impl Automaton {
    /// Whether the automaton can go from `from` to `to` and read the word
    /// on its way: with ε-transitions only for the empty word, and else
    /// with a run for all but the last letter, an edge with the last letter
    /// and ε-transitions behind it.
    pub open spec fn reaches(self, from: int, word: Seq<Alphabet>, to: int) -> bool
        decreases word.len(),
    {
        if word.len() == 0 {
            self.silently_reaches(from, to)
        } else {
            exists|before: int, behind: int|
                self.reaches(from, word.drop_last(), before) && #[trigger] self.has_edge(
                    before,
                    Some(word.last()),
                    behind,
                ) && self.silently_reaches(behind, to)
        }
    }

    /// Every edge of `self` is, moved by `shift`, an edge of `outer`.
    pub open spec fn embedded_in(self, outer: Automaton, shift: int) -> bool {
        forall|i: int|
            0 <= i < self.edges.len() ==> outer.has_edge(
                (#[trigger] self.edges[i]).0 + shift,
                self.edges[i].1,
                self.edges[i].2 + shift,
            )
    }
}

/// Every state reaches itself without a step.
pub proof fn lemma_silent_start(nfa: Automaton, state: int)
    ensures
        nfa.silently_reaches(state, state),
        nfa.reaches(state, Seq::empty(), state),
{
    assert(nfa.silent_path(state, state, 0));
}

/// An ε-transition is a path of ε-transitions.
pub proof fn lemma_silent_edge(nfa: Automaton, from: int, to: int)
    requires
        nfa.has_edge(from, None, to),
    ensures
        nfa.silently_reaches(from, to),
{
    assert(nfa.silent_path(from, from, 0));
    assert(nfa.silent_path(from, to, 1));
}

/// Paths of ε-transitions in a row make a path.
pub proof fn lemma_silent_paths_join(nfa: Automaton, from: int, mid: int, to: int, first: int, second: int)
    requires
        nfa.silent_path(from, mid, first),
        nfa.silent_path(mid, to, second),
    ensures
        nfa.silently_reaches(from, to),
    decreases second,
{
    if second <= 0 {
        assert(nfa.silent_path(from, to, first));
    } else {
        let last = choose|last: int|
            nfa.silent_path(mid, last, second - 1) && #[trigger] nfa.has_edge(last, None, to);
        lemma_silent_paths_join(nfa, from, mid, last, first, second - 1);
        let steps = choose|steps: int| #[trigger] nfa.silent_path(from, last, steps);
        if steps <= 0 {
            assert(nfa.silent_path(from, last, 0));
            assert(nfa.silent_path(from, to, 1));
        } else {
            assert(nfa.silent_path(from, to, steps + 1));
        }
    }
}

/// What is silently reached from what is silently reached is silently
/// reached.
pub proof fn lemma_silent_transitive(nfa: Automaton, from: int, mid: int, to: int)
    requires
        nfa.silently_reaches(from, mid),
        nfa.silently_reaches(mid, to),
    ensures
        nfa.silently_reaches(from, to),
{
    let first = choose|steps: int| #[trigger] nfa.silent_path(from, mid, steps);
    let second = choose|steps: int| #[trigger] nfa.silent_path(mid, to, steps);
    lemma_silent_paths_join(nfa, from, mid, to, first, second);
}

/// A run may go on with ε-transitions.
pub proof fn lemma_run_then_silent(nfa: Automaton, from: int, word: Seq<Alphabet>, mid: int, to: int)
    requires
        nfa.reaches(from, word, mid),
        nfa.silently_reaches(mid, to),
    ensures
        nfa.reaches(from, word, to),
{
    if word.len() == 0 {
        lemma_silent_transitive(nfa, from, mid, to);
    } else {
        let (before, behind) = choose|before: int, behind: int|
            nfa.reaches(from, word.drop_last(), before) && #[trigger] nfa.has_edge(
                before,
                Some(word.last()),
                behind,
            ) && nfa.silently_reaches(behind, mid);
        lemma_silent_transitive(nfa, behind, mid, to);
    }
}

/// A run may go on with an edge.
pub proof fn lemma_run_then_edge(
    nfa: Automaton,
    from: int,
    word: Seq<Alphabet>,
    before: int,
    letter: Alphabet,
    behind: int,
)
    requires
        nfa.reaches(from, word, before),
        nfa.has_edge(before, Some(letter), behind),
    ensures
        nfa.reaches(from, word.push(letter), behind),
{
    let longer = word.push(letter);
    assert(longer.drop_last() =~= word);
    assert(longer.last() == letter);
    lemma_silent_start(nfa, behind);
}

/// Runs in a row make a run of the words in a row.
pub proof fn lemma_runs_join(
    nfa: Automaton,
    from: int,
    first: Seq<Alphabet>,
    mid: int,
    second: Seq<Alphabet>,
    to: int,
)
    requires
        nfa.reaches(from, first, mid),
        nfa.reaches(mid, second, to),
    ensures
        nfa.reaches(from, first + second, to),
    decreases second.len(),
{
    if second.len() == 0 {
        assert(first + second =~= first);
        lemma_run_then_silent(nfa, from, first, mid, to);
    } else {
        let (before, behind) = choose|before: int, behind: int|
            nfa.reaches(mid, second.drop_last(), before) && #[trigger] nfa.has_edge(
                before,
                Some(second.last()),
                behind,
            ) && nfa.silently_reaches(behind, to);
        lemma_runs_join(nfa, from, first, mid, second.drop_last(), before);
        let whole = first + second;
        assert(whole.drop_last() =~= first + second.drop_last());
        assert(whole.last() == second.last());
    }
}

/// A path of ε-transitions of an automaton is, moved, one of an automaton
/// in which it is embedded.
pub proof fn lemma_silent_path_embedded(
    inner: Automaton,
    outer: Automaton,
    shift: int,
    from: int,
    to: int,
    steps: int,
)
    requires
        inner.embedded_in(outer, shift),
        inner.silent_path(from, to, steps),
    ensures
        outer.silently_reaches(from + shift, to + shift),
    decreases steps,
{
    if steps <= 0 {
        lemma_silent_start(outer, from + shift);
    } else {
        let mid = choose|mid: int|
            inner.silent_path(from, mid, steps - 1) && #[trigger] inner.has_edge(mid, None, to);
        lemma_silent_path_embedded(inner, outer, shift, from, mid, steps - 1);
        lemma_edge_embedded(inner, outer, shift, mid, None, to);
        lemma_silent_edge(outer, mid + shift, to + shift);
        lemma_silent_transitive(outer, from + shift, mid + shift, to + shift);
    }
}

/// An edge of an automaton is, moved, one of an automaton in which it is
/// embedded.
pub proof fn lemma_edge_embedded(
    inner: Automaton,
    outer: Automaton,
    shift: int,
    from: int,
    label: Option<Alphabet>,
    to: int,
)
    requires
        inner.embedded_in(outer, shift),
        inner.has_edge(from, label, to),
    ensures
        outer.has_edge(from + shift, label, to + shift),
{
    let i = choose|i: int| 0 <= i < inner.edges.len() && #[trigger] inner.edges[i] == (from, label, to);
    assert(outer.has_edge(inner.edges[i].0 + shift, inner.edges[i].1, inner.edges[i].2 + shift));
}

/// A run of an automaton is, moved, one of an automaton in which it is
/// embedded.
pub proof fn lemma_run_embedded(
    inner: Automaton,
    outer: Automaton,
    shift: int,
    from: int,
    word: Seq<Alphabet>,
    to: int,
)
    requires
        inner.embedded_in(outer, shift),
        inner.reaches(from, word, to),
    ensures
        outer.reaches(from + shift, word, to + shift),
    decreases word.len(),
{
    if word.len() == 0 {
        let steps = choose|steps: int| #[trigger] inner.silent_path(from, to, steps);
        lemma_silent_path_embedded(inner, outer, shift, from, to, steps);
    } else {
        let (before, behind) = choose|before: int, behind: int|
            inner.reaches(from, word.drop_last(), before) && #[trigger] inner.has_edge(
                before,
                Some(word.last()),
                behind,
            ) && inner.silently_reaches(behind, to);
        lemma_run_embedded(inner, outer, shift, from, word.drop_last(), before);
        lemma_edge_embedded(inner, outer, shift, before, Some(word.last()), behind);
        let steps = choose|steps: int| #[trigger] inner.silent_path(behind, to, steps);
        lemma_silent_path_embedded(inner, outer, shift, behind, to, steps);
    }
}

/// The states in which an automaton can be after a word are those that a
/// run from the start state reaches.
pub proof fn lemma_after_is_reached(nfa: Automaton, word: Seq<Alphabet>, to: int)
    ensures
        nfa.after(word).contains(to) == nfa.reaches(0, word, to),
    decreases word.len(),
{
    if word.len() == 0 {
        if nfa.after(word).contains(to) {
            let from = choose|from: int| set![0int].contains(from) && #[trigger] nfa.silently_reaches(from, to);
            assert(from == 0);
        }
        if nfa.reaches(0, word, to) {
            assert(set![0int].contains(0int));
        }
    } else {
        let shorter = word.drop_last();
        let letter = word.last();
        let states = nfa.after(shorter);
        let next = nfa.moved(states, letter);
        if nfa.after(word).contains(to) {
            let behind = choose|behind: int| next.contains(behind) && #[trigger] nfa.silently_reaches(behind, to);
            let before = choose|before: int| states.contains(before) && #[trigger] nfa.has_edge(before, Some(letter), behind);
            lemma_after_is_reached(nfa, shorter, before);
        }
        if nfa.reaches(0, word, to) {
            let (before, behind) = choose|before: int, behind: int|
                nfa.reaches(0, shorter, before) && #[trigger] nfa.has_edge(
                    before,
                    Some(letter),
                    behind,
                ) && nfa.silently_reaches(behind, to);
            lemma_after_is_reached(nfa, shorter, before);
            assert(next.contains(behind));
        }
    }
}

/// An automaton accepts the words on which a run from the start state
/// reaches an accepting state.
pub proof fn lemma_accepts_by_run(nfa: Automaton, word: Seq<Alphabet>)
    ensures
        nfa.accepts(word) == exists|i: int|
            0 <= i < nfa.finals.len() && nfa.reaches(0, word, #[trigger] nfa.finals[i]),
{
    if nfa.accepts(word) {
        let i = choose|i: int| 0 <= i < nfa.finals.len() && nfa.after(word).contains(#[trigger] nfa.finals[i]);
        lemma_after_is_reached(nfa, word, nfa.finals[i]);
    }
    if exists|i: int| 0 <= i < nfa.finals.len() && nfa.reaches(0, word, #[trigger] nfa.finals[i]) {
        let i = choose|i: int| 0 <= i < nfa.finals.len() && nfa.reaches(0, word, #[trigger] nfa.finals[i]);
        lemma_after_is_reached(nfa, word, nfa.finals[i]);
    }
}

} // verus!
