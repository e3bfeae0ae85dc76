//! The languages of the automata that the constructions build.

use crate::nfa::nfa_manipulations::Automaton;
use crate::nfa::runs::{
    lemma_accepts_by_run, lemma_edge_embedded, lemma_run_embedded, lemma_run_then_edge,
    lemma_run_then_silent, lemma_runs_join, lemma_silent_edge, lemma_silent_start,
    lemma_silent_transitive,
};
use crate::regex::alphabet::Alphabet;
use vstd::prelude::*;

verus! {

/// The automaton `whole` holds `left`, behind it `right`, and an
/// ε-transition from each of the states `exits` of `left` to the start
/// state of `right`. Nothing else leads from the one to the other.
pub open spec fn bridged(
    whole: Automaton,
    left: Automaton,
    right: Automaton,
    exits: Seq<int>,
) -> bool {
    &&& left.well_formed()
    &&& right.well_formed()
    &&& whole.edges == left.edges + right.shifted(left.max_index + 1).edges + Seq::new(
        exits.len(),
        |i: int| (exits[i], None::<Alphabet>, left.max_index + 1),
    )
    &&& forall|i: int| 0 <= i < exits.len() ==> 0 <= #[trigger] exits[i] <= left.max_index
}

/// Where an edge of a bridged automaton comes from.
pub open spec fn bridged_edge(
    left: Automaton,
    right: Automaton,
    exits: Seq<int>,
    from: int,
    label: Option<Alphabet>,
    to: int,
) -> bool {
    let start = left.max_index + 1;
    ||| (left.has_edge(from, label, to) && 0 <= from <= left.max_index && 0 <= to
        <= left.max_index)
    ||| (right.has_edge(from - start, label, to - start) && from >= start && to >= start)
    ||| (label is None && to == start && 0 <= from <= left.max_index && exists|i: int|
        0 <= i < exits.len() && #[trigger] exits[i] == from)
}

/// An edge of a bridged automaton is an edge of the left automaton, a
/// moved edge of the right one, or a bridge.
pub proof fn lemma_bridged_edge(
    whole: Automaton,
    left: Automaton,
    right: Automaton,
    exits: Seq<int>,
    from: int,
    label: Option<Alphabet>,
    to: int,
)
    requires
        bridged(whole, left, right, exits),
        whole.has_edge(from, label, to),
    ensures
        bridged_edge(left, right, exits, from, label, to),
{
    let start = left.max_index + 1;
    let moved = right.shifted(start);
    let i = choose|i: int| 0 <= i < whole.edges.len() && #[trigger] whole.edges[i] == (from, label, to);
    let a = left.edges.len();
    let b = moved.edges.len();
    if i < a {
        assert(left.edges[i] == (from, label, to));
    } else if i < a + b {
        assert(whole.edges[i] == moved.edges[i - a]);
        assert(right.edges[i - a] == (from - start, label, to - start));
    } else {
        assert(exits[i - a - b] == from);
    }
}

/// The left and the right automaton are embedded in a bridged automaton,
/// and the bridges are edges of it.
pub proof fn lemma_bridged_holds_parts(
    whole: Automaton,
    left: Automaton,
    right: Automaton,
    exits: Seq<int>,
)
    requires
        bridged(whole, left, right, exits),
    ensures
        left.embedded_in(whole, 0),
        right.embedded_in(whole, left.max_index + 1),
        forall|i: int|
            0 <= i < exits.len() ==> whole.has_edge(
                #[trigger] exits[i],
                None,
                left.max_index + 1,
            ),
{
    let start = left.max_index + 1;
    let moved = right.shifted(start);
    let a = left.edges.len();
    let b = moved.edges.len();
    assert forall|i: int| 0 <= i < left.edges.len() implies whole.has_edge(
        (#[trigger] left.edges[i]).0 + 0,
        left.edges[i].1,
        left.edges[i].2 + 0,
    ) by {
        assert(whole.edges[i] == left.edges[i]);
    }
    assert forall|i: int| 0 <= i < right.edges.len() implies whole.has_edge(
        (#[trigger] right.edges[i]).0 + start,
        right.edges[i].1,
        right.edges[i].2 + start,
    ) by {
        assert(whole.edges[a + i] == moved.edges[i]);
    }
    assert forall|i: int| 0 <= i < exits.len() implies whole.has_edge(
        #[trigger] exits[i],
        None,
        start,
    ) by {
        assert(whole.edges[a + b + i] == (exits[i], None::<Alphabet>, start));
    }
}

/// In a bridged automaton, ε-transitions from a state of the right
/// automaton stay in the right automaton.
pub proof fn lemma_bridged_silent_right(
    whole: Automaton,
    left: Automaton,
    right: Automaton,
    exits: Seq<int>,
    from: int,
    to: int,
    steps: int,
)
    requires
        bridged(whole, left, right, exits),
        from >= left.max_index + 1,
        whole.silent_path(from, to, steps),
    ensures
        to >= left.max_index + 1,
        right.silently_reaches(from - (left.max_index + 1), to - (left.max_index + 1)),
    decreases steps,
{
    let start = left.max_index + 1;
    if steps <= 0 {
        lemma_silent_start(right, from - start);
    } else {
        let mid = choose|mid: int|
            whole.silent_path(from, mid, steps - 1) && #[trigger] whole.has_edge(mid, None, to);
        lemma_bridged_silent_right(whole, left, right, exits, from, mid, steps - 1);
        lemma_bridged_edge(whole, left, right, exits, mid, None, to);
        lemma_silent_edge(right, mid - start, to - start);
        lemma_silent_transitive(right, from - start, mid - start, to - start);
    }
}

/// Where ε-transitions lead from a state of the left automaton.
pub open spec fn bridged_silent_left(
    left: Automaton,
    right: Automaton,
    exits: Seq<int>,
    from: int,
    to: int,
) -> bool {
    let start = left.max_index + 1;
    ||| (0 <= to <= left.max_index && left.silently_reaches(from, to))
    ||| (to >= start && right.silently_reaches(0, to - start) && exists|i: int|
        0 <= i < exits.len() && left.silently_reaches(from, #[trigger] exits[i]))
}

/// In a bridged automaton, ε-transitions from a state of the left
/// automaton stay in it or cross a bridge and go on in the right automaton.
pub proof fn lemma_bridged_silent_left(
    whole: Automaton,
    left: Automaton,
    right: Automaton,
    exits: Seq<int>,
    from: int,
    to: int,
    steps: int,
)
    requires
        bridged(whole, left, right, exits),
        0 <= from <= left.max_index,
        whole.silent_path(from, to, steps),
    ensures
        bridged_silent_left(left, right, exits, from, to),
    decreases steps,
{
    let start = left.max_index + 1;
    if steps <= 0 {
        lemma_silent_start(left, from);
    } else {
        let mid = choose|mid: int|
            whole.silent_path(from, mid, steps - 1) && #[trigger] whole.has_edge(mid, None, to);
        lemma_bridged_silent_left(whole, left, right, exits, from, mid, steps - 1);
        lemma_bridged_edge(whole, left, right, exits, mid, None, to);
        if 0 <= mid <= left.max_index {
            if left.has_edge(mid, None, to) {
                lemma_silent_edge(left, mid, to);
                lemma_silent_transitive(left, from, mid, to);
            } else {
                let i = choose|i: int| 0 <= i < exits.len() && #[trigger] exits[i] == mid;
                lemma_silent_start(right, 0);
                assert(left.silently_reaches(from, exits[i]));
            }
        } else {
            let i = choose|i: int|
                0 <= i < exits.len() && left.silently_reaches(from, #[trigger] exits[i]);
            lemma_silent_edge(right, mid - start, to - start);
            lemma_silent_transitive(right, 0, mid - start, to - start);
            assert(left.silently_reaches(from, exits[i]));
        }
    }
}

/// In a bridged automaton, a run from a state of the right automaton is a
/// run of the right automaton.
pub proof fn lemma_bridged_run_right(
    whole: Automaton,
    left: Automaton,
    right: Automaton,
    exits: Seq<int>,
    from: int,
    word: Seq<Alphabet>,
    to: int,
)
    requires
        bridged(whole, left, right, exits),
        from >= left.max_index + 1,
        whole.reaches(from, word, to),
    ensures
        to >= left.max_index + 1,
        right.reaches(from - (left.max_index + 1), word, to - (left.max_index + 1)),
    decreases word.len(),
{
    let start = left.max_index + 1;
    if word.len() == 0 {
        let steps = choose|steps: int| #[trigger] whole.silent_path(from, to, steps);
        lemma_bridged_silent_right(whole, left, right, exits, from, to, steps);
    } else {
        let (before, behind) = choose|before: int, behind: int|
            whole.reaches(from, word.drop_last(), before) && #[trigger] whole.has_edge(
                before,
                Some(word.last()),
                behind,
            ) && whole.silently_reaches(behind, to);
        lemma_bridged_run_right(whole, left, right, exits, from, word.drop_last(), before);
        lemma_bridged_edge(whole, left, right, exits, before, Some(word.last()), behind);
        let steps = choose|steps: int| #[trigger] whole.silent_path(behind, to, steps);
        lemma_bridged_silent_right(whole, left, right, exits, behind, to, steps);
    }
}

/// Where a run leads from a state of the left automaton.
pub open spec fn bridged_run_left(
    left: Automaton,
    right: Automaton,
    exits: Seq<int>,
    from: int,
    word: Seq<Alphabet>,
    to: int,
) -> bool {
    let start = left.max_index + 1;
    ||| (0 <= to <= left.max_index && left.reaches(from, word, to))
    ||| (to >= start && exists|k: int, i: int|
        #![trigger word.take(k), exits[i]]
        0 <= k <= word.len() && 0 <= i < exits.len() && left.reaches(from, word.take(k), exits[i])
            && right.reaches(0, word.skip(k), to - start))
}

/// In a bridged automaton, a run from a state of the left automaton stays
/// in it, or it runs to an exit, crosses the bridge and runs on in the
/// right automaton from its start state.
pub proof fn lemma_bridged_run_left(
    whole: Automaton,
    left: Automaton,
    right: Automaton,
    exits: Seq<int>,
    from: int,
    word: Seq<Alphabet>,
    to: int,
)
    requires
        bridged(whole, left, right, exits),
        0 <= from <= left.max_index,
        whole.reaches(from, word, to),
    ensures
        bridged_run_left(left, right, exits, from, word, to),
    decreases word.len(),
{
    let start = left.max_index + 1;
    if word.len() == 0 {
        let steps = choose|steps: int| #[trigger] whole.silent_path(from, to, steps);
        lemma_bridged_silent_left(whole, left, right, exits, from, to, steps);
        if to >= start {
            let i = choose|i: int|
                0 <= i < exits.len() && left.silently_reaches(from, #[trigger] exits[i]);
            assert(word.take(0) =~= word);
            assert(word.skip(0) =~= word);
            assert(left.reaches(from, word.take(0), exits[i]));
        }
    } else {
        let shorter = word.drop_last();
        let letter = word.last();
        let (before, behind) = choose|before: int, behind: int|
            whole.reaches(from, shorter, before) && #[trigger] whole.has_edge(
                before,
                Some(letter),
                behind,
            ) && whole.silently_reaches(behind, to);
        lemma_bridged_run_left(whole, left, right, exits, from, shorter, before);
        lemma_bridged_edge(whole, left, right, exits, before, Some(letter), behind);
        let steps = choose|steps: int| #[trigger] whole.silent_path(behind, to, steps);
        assert(shorter.push(letter) =~= word);
        if 0 <= before <= left.max_index {
            lemma_run_then_edge(left, from, shorter, before, letter, behind);
            lemma_bridged_silent_left(whole, left, right, exits, behind, to, steps);
            if 0 <= to <= left.max_index {
                lemma_run_then_silent(left, from, word, behind, to);
            } else {
                let i = choose|i: int|
                    0 <= i < exits.len() && left.silently_reaches(behind, #[trigger] exits[i]);
                lemma_run_then_silent(left, from, word, behind, exits[i]);
                let k = word.len() as int;
                assert(word.take(k) =~= word);
                assert(word.skip(k) =~= Seq::<Alphabet>::empty());
                assert(left.reaches(from, word.take(k), exits[i]) && right.reaches(
                    0,
                    word.skip(k),
                    to - start,
                ));
            }
        } else {
            let (k, i) = choose|k: int, i: int|
                #![trigger shorter.take(k), exits[i]]
                0 <= k <= shorter.len() && 0 <= i < exits.len() && left.reaches(
                    from,
                    shorter.take(k),
                    exits[i],
                ) && right.reaches(0, shorter.skip(k), before - start);
            lemma_run_then_edge(right, 0, shorter.skip(k), before - start, letter, behind - start);
            lemma_bridged_silent_right(whole, left, right, exits, behind, to, steps);
            lemma_run_then_silent(
                right,
                0,
                shorter.skip(k).push(letter),
                behind - start,
                to - start,
            );
            assert(word.take(k) =~= shorter.take(k));
            assert(word.skip(k) =~= shorter.skip(k).push(letter));
            assert(left.reaches(from, word.take(k), exits[i]) && right.reaches(
                0,
                word.skip(k),
                to - start,
            ));
        }
    }
}

/// In a bridged automaton, a run of the left automaton to an exit and a
/// run of the right automaton from its start state make a run.
pub proof fn lemma_bridged_run_across(
    whole: Automaton,
    left: Automaton,
    right: Automaton,
    exits: Seq<int>,
    from: int,
    first: Seq<Alphabet>,
    exit: int,
    second: Seq<Alphabet>,
    to: int,
)
    requires
        bridged(whole, left, right, exits),
        0 <= exit < exits.len(),
        left.reaches(from, first, exits[exit]),
        right.reaches(0, second, to),
    ensures
        whole.reaches(from, first + second, to + left.max_index + 1),
{
    let start = left.max_index + 1;
    lemma_bridged_holds_parts(whole, left, right, exits);
    lemma_run_embedded(left, whole, 0, from, first, exits[exit]);
    lemma_run_embedded(right, whole, start, 0, second, to);
    lemma_silent_edge(whole, exits[exit], start);
    lemma_run_then_silent(whole, from, first, exits[exit], start);
    lemma_runs_join(whole, from, first, start, second, to + start);
}

/// A moved automaton is well formed where the automaton is.
pub proof fn lemma_shifted_well_formed(nfa: Automaton, shift: int)
    requires
        nfa.well_formed(),
        0 <= shift,
    ensures
        nfa.shifted(shift).well_formed(),
        forall|i: int|
            0 <= i < nfa.shifted(shift).edges.len() ==> (#[trigger] nfa.shifted(shift).edges[i]).0
                >= shift && nfa.shifted(shift).edges[i].2 >= shift,
        forall|i: int|
            0 <= i < nfa.finals.len() ==> #[trigger] nfa.shifted(shift).finals[i] == nfa.finals[i]
                + shift,
{
    let moved = nfa.shifted(shift);
    assert forall|i: int| 0 <= i < moved.edges.len() implies 0 <= (#[trigger] moved.edges[i]).0
        <= moved.max_index && 0 <= moved.edges[i].2 <= moved.max_index && moved.edges[i].0 >= shift
        && moved.edges[i].2 >= shift by {
        assert(0 <= nfa.edges[i].0 <= nfa.max_index);
    }
    assert forall|i: int| 0 <= i < moved.finals.len() implies 0 <= #[trigger] moved.finals[i]
        <= moved.max_index by {
        assert(0 <= nfa.finals[i] <= nfa.max_index);
    }
}

/// The concatenation of well-formed automata is well formed.
pub proof fn lemma_concat_well_formed(left: Automaton, right: Automaton)
    requires
        left.well_formed(),
        right.well_formed(),
    ensures
        left.concat(right).well_formed(),
        bridged(left.concat(right), left, right, left.finals),
{
    let whole = left.concat(right);
    let start = left.max_index + 1;
    let moved = right.shifted(start);
    lemma_shifted_well_formed(right, start);
    assert forall|i: int| 0 <= i < whole.edges.len() implies 0 <= (#[trigger] whole.edges[i]).0
        <= whole.max_index && 0 <= whole.edges[i].2 <= whole.max_index by {
        let a = left.edges.len();
        let b = moved.edges.len();
        if i < a {
            assert(whole.edges[i] == left.edges[i]);
        } else if i < a + b {
            assert(whole.edges[i] == moved.edges[i - a]);
        } else {
            assert(whole.edges[i].0 == left.finals[i - a - b]);
        }
    }
}

/// The concatenation of two automata accepts the words made of a word
/// that the left one accepts and a word that the right one accepts.
pub proof fn lemma_concat_accepts(left: Automaton, right: Automaton, word: Seq<Alphabet>)
    requires
        left.well_formed(),
        right.well_formed(),
    ensures
        left.concat(right).accepts(word) == exists|k: int|
            0 <= k <= word.len() && left.accepts(#[trigger] word.take(k)) && right.accepts(
                word.skip(k),
            ),
{
    let whole = left.concat(right);
    let start = left.max_index + 1;
    lemma_concat_well_formed(left, right);
    lemma_shifted_well_formed(right, start);
    lemma_accepts_by_run(whole, word);
    if whole.accepts(word) {
        let j = choose|j: int| 0 <= j < whole.finals.len() && whole.reaches(0, word, #[trigger] whole.finals[j]);
        assert(whole.finals[j] == right.finals[j] + start);
        lemma_bridged_run_left(whole, left, right, left.finals, 0, word, whole.finals[j]);
        let (k, i) = choose|k: int, i: int|
            #![trigger word.take(k), left.finals[i]]
            0 <= k <= word.len() && 0 <= i < left.finals.len() && left.reaches(
                0,
                word.take(k),
                left.finals[i],
            ) && right.reaches(0, word.skip(k), whole.finals[j] - start);
        lemma_accepts_by_run(left, word.take(k));
        lemma_accepts_by_run(right, word.skip(k));
        assert(right.reaches(0, word.skip(k), right.finals[j]));
        assert(left.accepts(word.take(k)) && right.accepts(word.skip(k)));
    }
    if exists|k: int|
        0 <= k <= word.len() && left.accepts(#[trigger] word.take(k)) && right.accepts(
            word.skip(k),
        ) {
        let k = choose|k: int|
            0 <= k <= word.len() && left.accepts(#[trigger] word.take(k)) && right.accepts(
                word.skip(k),
            );
        lemma_accepts_by_run(left, word.take(k));
        lemma_accepts_by_run(right, word.skip(k));
        let i = choose|i: int| 0 <= i < left.finals.len() && left.reaches(0, word.take(k), #[trigger] left.finals[i]);
        let j = choose|j: int| 0 <= j < right.finals.len() && right.reaches(0, word.skip(k), #[trigger] right.finals[j]);
        lemma_bridged_run_across(
            whole,
            left,
            right,
            left.finals,
            0,
            word.take(k),
            i,
            word.skip(k),
            right.finals[j],
        );
        assert(word.take(k) + word.skip(k) =~= word);
        assert(whole.finals[j] == right.finals[j] + start);
        assert(whole.reaches(0, word, whole.finals[j]));
    }
}

/// No edge of the automaton leads to its start state.
pub open spec fn never_returns(nfa: Automaton) -> bool {
    forall|i: int| 0 <= i < nfa.edges.len() ==> (#[trigger] nfa.edges[i]).2 != 0
}

/// Where no edge leads to the start state, only the empty word leads
/// there, and only from there.
pub proof fn lemma_no_return(nfa: Automaton, from: int, word: Seq<Alphabet>)
    requires
        never_returns(nfa),
        nfa.reaches(from, word, 0),
    ensures
        word.len() == 0,
        from == 0,
{
    if word.len() == 0 {
        let steps = choose|steps: int| #[trigger] nfa.silent_path(from, 0, steps);
        lemma_no_silent_return(nfa, from, steps);
    } else {
        let (before, behind) = choose|before: int, behind: int|
            nfa.reaches(from, word.drop_last(), before) && #[trigger] nfa.has_edge(
                before,
                Some(word.last()),
                behind,
            ) && nfa.silently_reaches(behind, 0);
        let steps = choose|steps: int| #[trigger] nfa.silent_path(behind, 0, steps);
        lemma_no_silent_return(nfa, behind, steps);
        let i = choose|i: int|
            0 <= i < nfa.edges.len() && #[trigger] nfa.edges[i] == (
                before,
                Some(word.last()),
                behind,
            );
        assert(nfa.edges[i].2 != 0);
    }
}

/// Where no edge leads to the start state, no ε-transitions lead there
/// from another state.
pub proof fn lemma_no_silent_return(nfa: Automaton, from: int, steps: int)
    requires
        never_returns(nfa),
        nfa.silent_path(from, 0, steps),
    ensures
        from == 0,
{
    if steps > 0 {
        let mid = choose|mid: int|
            nfa.silent_path(from, mid, steps - 1) && #[trigger] nfa.has_edge(mid, None, 0);
        let i = choose|i: int|
            0 <= i < nfa.edges.len() && #[trigger] nfa.edges[i] == (mid, None::<Alphabet>, 0int);
        assert(nfa.edges[i].2 != 0);
    }
}

/// An automaton with one more alternative is well formed where the two
/// automata are, and no edge leads to its start state where none does in
/// the automaton that it was made from.
pub proof fn lemma_alternative_well_formed(left: Automaton, right: Automaton)
    requires
        left.well_formed(),
        right.well_formed(),
    ensures
        left.with_alternative(right).well_formed(),
        bridged(left.with_alternative(right), left, right, seq![0int]),
        never_returns(left) ==> never_returns(left.with_alternative(right)),
{
    let whole = left.with_alternative(right);
    let start = left.max_index + 1;
    let moved = right.shifted(start);
    lemma_shifted_well_formed(right, start);
    let a = left.edges.len();
    let b = moved.edges.len();
    assert forall|i: int| 0 <= i < whole.edges.len() implies 0 <= (#[trigger] whole.edges[i]).0
        <= whole.max_index && 0 <= whole.edges[i].2 <= whole.max_index && (never_returns(left)
        ==> whole.edges[i].2 != 0) by {
        if i < a {
            assert(whole.edges[i] == left.edges[i]);
        } else if i < a + b {
            assert(whole.edges[i] == moved.edges[i - a]);
        }
    }
    assert forall|i: int| 0 <= i < whole.finals.len() implies 0 <= #[trigger] whole.finals[i]
        <= whole.max_index by {
        if i < left.finals.len() {
            assert(whole.finals[i] == left.finals[i]);
        } else {
            assert(whole.finals[i] == moved.finals[i - left.finals.len()]);
        }
    }
    assert(whole.edges =~= left.edges + moved.edges + Seq::new(
        1,
        |i: int| (seq![0int][i], None::<Alphabet>, start),
    ));
}

/// An automaton with one more alternative, made from one to whose start
/// state no edge leads, accepts what one of the two automata accepts.
pub proof fn lemma_alternative_accepts(left: Automaton, right: Automaton, word: Seq<Alphabet>)
    requires
        left.well_formed(),
        right.well_formed(),
        never_returns(left),
    ensures
        left.with_alternative(right).accepts(word) == (left.accepts(word) || right.accepts(word)),
{
    let whole = left.with_alternative(right);
    let start = left.max_index + 1;
    let moved = right.shifted(start);
    let exits = seq![0int];
    lemma_alternative_well_formed(left, right);
    lemma_shifted_well_formed(right, start);
    lemma_bridged_holds_parts(whole, left, right, exits);
    lemma_accepts_by_run(whole, word);
    lemma_accepts_by_run(left, word);
    lemma_accepts_by_run(right, word);
    let a = left.finals.len();
    if whole.accepts(word) {
        let j = choose|j: int| 0 <= j < whole.finals.len() && whole.reaches(0, word, #[trigger] whole.finals[j]);
        lemma_bridged_run_left(whole, left, right, exits, 0, word, whole.finals[j]);
        if j < a {
            assert(whole.finals[j] == left.finals[j]);
            assert(left.reaches(0, word, left.finals[j]));
        } else {
            assert(whole.finals[j] == moved.finals[j - a]);
            assert(whole.finals[j] == right.finals[j - a] + start);
            let (k, i) = choose|k: int, i: int|
                #![trigger word.take(k), exits[i]]
                0 <= k <= word.len() && 0 <= i < exits.len() && left.reaches(
                    0,
                    word.take(k),
                    exits[i],
                ) && right.reaches(0, word.skip(k), whole.finals[j] - start);
            lemma_no_return(left, 0, word.take(k));
            assert(word.skip(k) =~= word);
            assert(right.reaches(0, word, right.finals[j - a]));
        }
    }
    if left.accepts(word) {
        let i = choose|i: int| 0 <= i < left.finals.len() && left.reaches(0, word, #[trigger] left.finals[i]);
        lemma_run_embedded(left, whole, 0, 0, word, left.finals[i]);
        assert(whole.finals[i] == left.finals[i]);
        assert(whole.reaches(0, word, whole.finals[i]));
    }
    if right.accepts(word) {
        let j = choose|j: int| 0 <= j < right.finals.len() && right.reaches(0, word, #[trigger] right.finals[j]);
        lemma_silent_start(left, 0);
        lemma_bridged_run_across(
            whole,
            left,
            right,
            exits,
            0,
            Seq::empty(),
            0,
            word,
            right.finals[j],
        );
        assert(Seq::<Alphabet>::empty() + word =~= word);
        assert(whole.finals[a + j] == moved.finals[j]);
        assert(whole.reaches(0, word, whole.finals[a + j]));
    }
}

/// Every automaton of the list is well formed.
pub open spec fn all_well_formed(nfas: Seq<Automaton>) -> bool {
    forall|i: int| 0 <= i < nfas.len() ==> (#[trigger] nfas[i]).well_formed()
}

/// The first automata of a list as alternatives under a fresh start state
/// accept what one of them accepts.
pub proof fn lemma_union_first_accepts(nfas: Seq<Automaton>, count: int, word: Seq<Alphabet>)
    requires
        all_well_formed(nfas),
        0 <= count <= nfas.len(),
    ensures
        Automaton::union_first(nfas, count).well_formed(),
        never_returns(Automaton::union_first(nfas, count)),
        Automaton::union_first(nfas, count).accepts(word) == exists|i: int|
            0 <= i < count && (#[trigger] nfas[i]).accepts(word),
    decreases count,
{
    if count <= 0 {
        let nothing = Automaton::empty();
        lemma_accepts_by_run(nothing, word);
    } else {
        let before = Automaton::union_first(nfas, count - 1);
        lemma_union_first_accepts(nfas, count - 1, word);
        assert(nfas[count - 1].well_formed());
        lemma_alternative_well_formed(before, nfas[count - 1]);
        lemma_alternative_accepts(before, nfas[count - 1], word);
        if before.accepts(word) {
            let i = choose|i: int| 0 <= i < count - 1 && (#[trigger] nfas[i]).accepts(word);
            assert(0 <= i < count && nfas[i].accepts(word));
        }
        if exists|i: int| 0 <= i < count && (#[trigger] nfas[i]).accepts(word) {
            let i = choose|i: int| 0 <= i < count && (#[trigger] nfas[i]).accepts(word);
            if i < count - 1 {
                assert(0 <= i < count - 1 && nfas[i].accepts(word));
            }
        }
    }
}

/// The union of automata accepts what one of them accepts.
pub proof fn lemma_union_all_accepts(nfas: Seq<Automaton>, word: Seq<Alphabet>)
    requires
        all_well_formed(nfas),
    ensures
        Automaton::union_all(nfas).well_formed(),
        Automaton::union_all(nfas).accepts(word) == exists|i: int|
            0 <= i < nfas.len() && (#[trigger] nfas[i]).accepts(word),
{
    lemma_union_first_accepts(nfas, nfas.len() as int, word);
}

/// Whether the word is made of one word for each of the first `count`
/// automata, in order, each accepted by its automaton.
pub open spec fn accepted_in_row(nfas: Seq<Automaton>, count: int, word: Seq<Alphabet>) -> bool
    decreases count,
{
    if count <= 1 {
        nfas[0].accepts(word)
    } else {
        exists|k: int|
            0 <= k <= word.len() && accepted_in_row(nfas, count - 1, #[trigger] word.take(k))
                && nfas[count - 1].accepts(word.skip(k))
    }
}

/// The concatenation of the first automata of a list accepts the words
/// made of one word for each of them.
pub proof fn lemma_concat_first_accepts(nfas: Seq<Automaton>, count: int, word: Seq<Alphabet>)
    requires
        all_well_formed(nfas),
        1 <= count <= nfas.len(),
    ensures
        Automaton::concat_first(nfas, count).well_formed(),
        Automaton::concat_first(nfas, count).accepts(word) == accepted_in_row(nfas, count, word),
    decreases count,
{
    if count <= 1 {
        assert(nfas[0].well_formed());
    } else {
        let before = Automaton::concat_first(nfas, count - 1);
        let last = nfas[count - 1];
        lemma_concat_first_accepts(nfas, count - 1, word);
        assert(last.well_formed());
        lemma_concat_well_formed(before, last);
        lemma_concat_accepts(before, last, word);
        if before.concat(last).accepts(word) {
            let k = choose|k: int|
                0 <= k <= word.len() && before.accepts(#[trigger] word.take(k)) && last.accepts(
                    word.skip(k),
                );
            lemma_concat_first_accepts(nfas, count - 1, word.take(k));
        }
        if accepted_in_row(nfas, count, word) {
            let k = choose|k: int|
                0 <= k <= word.len() && accepted_in_row(nfas, count - 1, #[trigger] word.take(k))
                    && last.accepts(word.skip(k));
            lemma_concat_first_accepts(nfas, count - 1, word.take(k));
        }
    }
}

/// Whether the word is made of words that the automaton accepts, any
/// number of them: it is empty, or it is such a word followed by a word,
/// not empty, that the automaton accepts.
pub open spec fn accepted_repeatedly(nfa: Automaton, word: Seq<Alphabet>) -> bool
    decreases word.len(),
{
    word.len() == 0 || exists|k: int|
        0 <= k < word.len() && accepted_repeatedly(nfa, #[trigger] word.take(k)) && nfa.accepts(
            word.skip(k),
        )
}

/// A word made of accepted words, followed by an accepted word, is made
/// of accepted words.
pub proof fn lemma_repeated_extends(nfa: Automaton, word: Seq<Alphabet>, k: int)
    requires
        0 <= k <= word.len(),
        accepted_repeatedly(nfa, word.take(k)),
        nfa.accepts(word.skip(k)),
    ensures
        accepted_repeatedly(nfa, word),
{
    if k == word.len() {
        assert(word.take(k) =~= word);
    }
}

/// Where an edge of the star of an automaton comes from.
pub open spec fn star_edge(nfa: Automaton, from: int, label: Option<Alphabet>, to: int) -> bool {
    ||| (nfa.has_edge(from - 1, label, to - 1) && from >= 1 && to >= 1)
    ||| (from == 0 && label is None && to == 1)
    ||| (label is None && to == 0 && from >= 1 && exists|i: int|
        0 <= i < nfa.finals.len() && #[trigger] nfa.finals[i] == from - 1)
}

/// An edge of the star of an automaton is a moved edge of the automaton,
/// the ε-transition from the new start state to the old, or one back from
/// an accepting state.
pub proof fn lemma_star_edge(nfa: Automaton, from: int, label: Option<Alphabet>, to: int)
    requires
        nfa.well_formed(),
        nfa.star().has_edge(from, label, to),
    ensures
        star_edge(nfa, from, label, to),
{
    let whole = nfa.star();
    let moved = nfa.shifted(1);
    lemma_shifted_well_formed(nfa, 1);
    let i = choose|i: int| 0 <= i < whole.edges.len() && #[trigger] whole.edges[i] == (from, label, to);
    let a = moved.edges.len();
    if i < a {
        assert(whole.edges[i] == moved.edges[i]);
        assert(nfa.edges[i] == (from - 1, label, to - 1));
    } else if i > a {
        assert(whole.edges[i] == (moved.finals[i - a - 1], None::<Alphabet>, 0int));
        assert(nfa.finals[i - a - 1] == from - 1);
    }
}

/// The star of a well-formed automaton is well formed; the automaton is
/// embedded in it, moved by one, and the ε-transitions from the new start
/// state and back from the accepting states are edges of it.
pub proof fn lemma_star_well_formed(nfa: Automaton)
    requires
        nfa.well_formed(),
    ensures
        nfa.star().well_formed(),
        nfa.embedded_in(nfa.star(), 1),
        nfa.star().has_edge(0, None, 1),
        forall|i: int|
            0 <= i < nfa.finals.len() ==> nfa.star().has_edge(
                #[trigger] nfa.finals[i] + 1,
                None,
                0,
            ),
{
    let whole = nfa.star();
    let moved = nfa.shifted(1);
    lemma_shifted_well_formed(nfa, 1);
    let a = moved.edges.len();
    assert forall|i: int| 0 <= i < whole.edges.len() implies 0 <= (#[trigger] whole.edges[i]).0
        <= whole.max_index && 0 <= whole.edges[i].2 <= whole.max_index by {
        if i < a {
            assert(whole.edges[i] == moved.edges[i]);
        } else if i > a {
            assert(whole.edges[i].0 == moved.finals[i - a - 1]);
        }
    }
    assert forall|i: int| 0 <= i < nfa.edges.len() implies whole.has_edge(
        (#[trigger] nfa.edges[i]).0 + 1,
        nfa.edges[i].1,
        nfa.edges[i].2 + 1,
    ) by {
        assert(whole.edges[i] == moved.edges[i]);
    }
    assert(whole.edges[a as int] == (0int, None::<Alphabet>, 1int));
    assert forall|i: int| 0 <= i < nfa.finals.len() implies whole.has_edge(
        #[trigger] nfa.finals[i] + 1,
        None,
        0,
    ) by {
        assert(whole.edges[a + 1 + i] == (moved.finals[i], None::<Alphabet>, 0int));
    }
}

/// Where ε-transitions of the star lead from its start state.
pub open spec fn star_silent_from_start(nfa: Automaton, to: int) -> bool {
    to == 0 || (to >= 1 && nfa.silently_reaches(0, to - 1))
}

/// Where ε-transitions of the star lead from a state.
pub open spec fn star_silent(nfa: Automaton, from: int, to: int) -> bool {
    if from == 0 {
        star_silent_from_start(nfa, to)
    } else {
        ||| (to >= 1 && nfa.silently_reaches(from - 1, to - 1))
        ||| (star_silent_from_start(nfa, to) && exists|i: int|
            0 <= i < nfa.finals.len() && nfa.silently_reaches(from - 1, #[trigger] nfa.finals[i]))
    }
}

/// In the star of an automaton, ε-transitions stay in the automaton, or
/// they lead through an accepting state back to the start.
pub proof fn lemma_star_silent(nfa: Automaton, from: int, to: int, steps: int)
    requires
        nfa.well_formed(),
        0 <= from,
        nfa.star().silent_path(from, to, steps),
    ensures
        star_silent(nfa, from, to),
        0 <= to,
    decreases steps,
{
    let whole = nfa.star();
    if steps <= 0 {
        if from >= 1 {
            lemma_silent_start(nfa, from - 1);
        }
    } else {
        let mid = choose|mid: int|
            whole.silent_path(from, mid, steps - 1) && #[trigger] whole.has_edge(mid, None, to);
        lemma_star_silent(nfa, from, mid, steps - 1);
        lemma_star_edge(nfa, mid, None, to);
        if mid == 0 {
            // the edge to the old start state
            lemma_silent_start(nfa, 0);
        } else if to == 0 {
            // an edge back from an accepting state
            let f = choose|f: int| 0 <= f < nfa.finals.len() && #[trigger] nfa.finals[f] == mid - 1;
            if from >= 1 {
                if nfa.silently_reaches(from - 1, mid - 1) {
                    assert(nfa.silently_reaches(from - 1, nfa.finals[f]));
                }
            }
        } else {
            // a moved edge of the automaton
            lemma_silent_edge(nfa, mid - 1, to - 1);
            if from == 0 {
                lemma_silent_transitive(nfa, 0, mid - 1, to - 1);
            } else if nfa.silently_reaches(from - 1, mid - 1) {
                lemma_silent_transitive(nfa, from - 1, mid - 1, to - 1);
            } else {
                lemma_silent_transitive(nfa, 0, mid - 1, to - 1);
            }
        }
    }
}

/// Where a run of the star leads from its start state.
pub open spec fn star_run(nfa: Automaton, word: Seq<Alphabet>, to: int) -> bool {
    ||| (to == 0 && accepted_repeatedly(nfa, word))
    ||| (to >= 1 && exists|k: int|
        0 <= k <= word.len() && accepted_repeatedly(nfa, #[trigger] word.take(k)) && nfa.reaches(
            0,
            word.skip(k),
            to - 1,
        ))
}

/// A run of the star of an automaton from its start state reads accepted
/// words and is back at the start, or it reads accepted words and then
/// runs in the automaton.
pub proof fn lemma_star_run(nfa: Automaton, word: Seq<Alphabet>, to: int)
    requires
        nfa.well_formed(),
        nfa.star().reaches(0, word, to),
    ensures
        star_run(nfa, word, to),
    decreases word.len(),
{
    let whole = nfa.star();
    if word.len() == 0 {
        let steps = choose|steps: int| #[trigger] whole.silent_path(0, to, steps);
        lemma_star_silent(nfa, 0, to, steps);
        if to >= 1 {
            assert(word.take(0) =~= word);
            assert(word.skip(0) =~= word);
            assert(accepted_repeatedly(nfa, word.take(0)));
        }
    } else {
        let shorter = word.drop_last();
        let letter = word.last();
        let (before, behind) = choose|before: int, behind: int|
            whole.reaches(0, shorter, before) && #[trigger] whole.has_edge(
                before,
                Some(letter),
                behind,
            ) && whole.silently_reaches(behind, to);
        lemma_star_run(nfa, shorter, before);
        lemma_star_edge(nfa, before, Some(letter), behind);
        let k = choose|k: int|
            0 <= k <= shorter.len() && accepted_repeatedly(nfa, #[trigger] shorter.take(k))
                && nfa.reaches(0, shorter.skip(k), before - 1);
        lemma_run_then_edge(nfa, 0, shorter.skip(k), before - 1, letter, behind - 1);
        assert(word.take(k) =~= shorter.take(k));
        assert(word.skip(k) =~= shorter.skip(k).push(letter));
        let steps = choose|steps: int| #[trigger] whole.silent_path(behind, to, steps);
        lemma_star_silent(nfa, behind, to, steps);
        if to >= 1 && nfa.silently_reaches(behind - 1, to - 1) {
            lemma_run_then_silent(nfa, 0, word.skip(k), behind - 1, to - 1);
            assert(accepted_repeatedly(nfa, word.take(k)) && nfa.reaches(
                0,
                word.skip(k),
                to - 1,
            ));
        } else {
            let f = choose|f: int|
                0 <= f < nfa.finals.len() && nfa.silently_reaches(
                    behind - 1,
                    #[trigger] nfa.finals[f],
                );
            lemma_run_then_silent(nfa, 0, word.skip(k), behind - 1, nfa.finals[f]);
            lemma_accepts_by_run(nfa, word.skip(k));
            lemma_repeated_extends(nfa, word, k);
            if to >= 1 {
                let all = word.len() as int;
                assert(word.take(all) =~= word);
                assert(word.skip(all) =~= Seq::<Alphabet>::empty());
                assert(accepted_repeatedly(nfa, word.take(all)) && nfa.reaches(
                    0,
                    word.skip(all),
                    to - 1,
                ));
            }
        }
    }
}

/// The star of an automaton reads a word made of accepted words and is
/// back at its start state.
pub proof fn lemma_star_repeats(nfa: Automaton, word: Seq<Alphabet>)
    requires
        nfa.well_formed(),
        accepted_repeatedly(nfa, word),
    ensures
        nfa.star().reaches(0, word, 0),
    decreases word.len(),
{
    let whole = nfa.star();
    lemma_star_well_formed(nfa);
    if word.len() == 0 {
        lemma_silent_start(whole, 0);
    } else {
        let k = choose|k: int|
            0 <= k < word.len() && accepted_repeatedly(nfa, #[trigger] word.take(k)) && nfa.accepts(
                word.skip(k),
            );
        lemma_star_repeats(nfa, word.take(k));
        lemma_accepts_by_run(nfa, word.skip(k));
        let f = choose|f: int|
            0 <= f < nfa.finals.len() && nfa.reaches(0, word.skip(k), #[trigger] nfa.finals[f]);
        lemma_run_embedded(nfa, whole, 1, 0, word.skip(k), nfa.finals[f]);
        lemma_silent_edge(whole, 0, 1);
        lemma_run_then_silent(whole, 0, word.take(k), 0, 1);
        lemma_silent_edge(whole, nfa.finals[f] + 1, 0);
        lemma_run_then_silent(whole, 1, word.skip(k), nfa.finals[f] + 1, 0);
        lemma_runs_join(whole, 0, word.take(k), 1, word.skip(k), 0);
        assert(word.take(k) + word.skip(k) =~= word);
    }
}

/// The star of an automaton accepts the words made of words that the
/// automaton accepts.
pub proof fn lemma_star_accepts(nfa: Automaton, word: Seq<Alphabet>)
    requires
        nfa.well_formed(),
    ensures
        nfa.star().well_formed(),
        nfa.star().accepts(word) == accepted_repeatedly(nfa, word),
{
    let whole = nfa.star();
    lemma_star_well_formed(nfa);
    lemma_accepts_by_run(whole, word);
    if whole.accepts(word) {
        let j = choose|j: int| 0 <= j < whole.finals.len() && whole.reaches(0, word, #[trigger] whole.finals[j]);
        assert(whole.finals[j] == 0);
        lemma_star_run(nfa, word, 0);
    }
    if accepted_repeatedly(nfa, word) {
        lemma_star_repeats(nfa, word);
        assert(whole.finals[0] == 0);
    }
}

/// The automaton of one state and no edge accepts the empty word only.
pub proof fn lemma_epsilon_accepts(word: Seq<Alphabet>)
    ensures
        Automaton::epsilon().well_formed(),
        Automaton::epsilon().accepts(word) == (word.len() == 0),
{
    let nfa = Automaton::epsilon();
    lemma_accepts_by_run(nfa, word);
    assert(nfa.finals[0] == 0);
    if word.len() == 0 {
        lemma_silent_start(nfa, 0);
    }
}

/// Where no ε-transition leaves a state, ε-transitions lead from it
/// nowhere else.
pub proof fn lemma_no_silent_edge(nfa: Automaton, from: int, to: int, steps: int)
    requires
        forall|i: int| 0 <= i < nfa.edges.len() ==> (#[trigger] nfa.edges[i]).1 is Some,
        nfa.silent_path(from, to, steps),
    ensures
        from == to,
    decreases steps,
{
    if steps > 0 {
        let mid = choose|mid: int|
            nfa.silent_path(from, mid, steps - 1) && #[trigger] nfa.has_edge(mid, None, to);
        let i = choose|i: int|
            0 <= i < nfa.edges.len() && #[trigger] nfa.edges[i] == (mid, None::<Alphabet>, to);
        assert(nfa.edges[i].1 is Some);
    }
}

/// The automaton of a letter accepts the word of that letter only.
pub proof fn lemma_literal_accepts(letter: Alphabet, word: Seq<Alphabet>)
    ensures
        Automaton::literal(letter).well_formed(),
        Automaton::literal(letter).accepts(word) == (word == seq![letter]),
{
    let nfa = Automaton::literal(letter);
    lemma_accepts_by_run(nfa, word);
    assert(nfa.finals[0] == 1);
    assert(nfa.edges[0] == (0int, Some(letter), 1int));
    if nfa.accepts(word) {
        let j = choose|j: int| 0 <= j < nfa.finals.len() && nfa.reaches(0, word, #[trigger] nfa.finals[j]);
        if word.len() == 0 {
            let steps = choose|steps: int| #[trigger] nfa.silent_path(0, 1, steps);
            lemma_no_silent_edge(nfa, 0, 1, steps);
        } else {
            let (before, behind) = choose|before: int, behind: int|
                nfa.reaches(0, word.drop_last(), before) && #[trigger] nfa.has_edge(
                    before,
                    Some(word.last()),
                    behind,
                ) && nfa.silently_reaches(behind, 1);
            let i = choose|i: int|
                0 <= i < nfa.edges.len() && #[trigger] nfa.edges[i] == (
                    before,
                    Some(word.last()),
                    behind,
                );
            let shorter = word.drop_last();
            if shorter.len() > 0 {
                let (earlier, then) = choose|earlier: int, then: int|
                    nfa.reaches(0, shorter.drop_last(), earlier) && #[trigger] nfa.has_edge(
                        earlier,
                        Some(shorter.last()),
                        then,
                    ) && nfa.silently_reaches(then, before);
                let e = choose|e: int|
                    0 <= e < nfa.edges.len() && #[trigger] nfa.edges[e] == (
                        earlier,
                        Some(shorter.last()),
                        then,
                    );
                let steps = choose|steps: int| #[trigger] nfa.silent_path(then, before, steps);
                lemma_no_silent_edge(nfa, then, before, steps);
            }
            assert(word =~= seq![letter]);
        }
    }
    if word == seq![letter] {
        lemma_silent_start(nfa, 0);
        lemma_silent_start(nfa, 1);
        assert(word.drop_last() =~= Seq::<Alphabet>::empty());
        assert(nfa.has_edge(0, Some(word.last()), 1));
        assert(nfa.reaches(0, word, 1));
    }
}

} // verus!
