//! The powerset construction: a deterministic automaton from a
//! nondeterministic one.

use crate::nfa::dfa::{lemma_state_in_table, DfaData, DfaTable};
use crate::nfa::nfa_manipulations::{indices_of, Automaton, NfaData};
use crate::regex::alphabet::Alphabet;
use vstd::prelude::*;
use vstd::set_lib::{lemma_int_range, lemma_len_subset, set_int_range};

verus! {

/// The set of states that a list of flags stands for: those whose flag is
/// set.
pub open spec fn members(bits: Seq<bool>) -> Set<int> {
    Set::new(|s: int| 0 <= s < bits.len() && bits[s])
}

/// The number of flags among the first `count` that are not set.
pub open spec fn unset_first(bits: Seq<bool>, count: int) -> int
    decreases count,
{
    if count <= 0 {
        0
    } else if bits[count - 1] {
        unset_first(bits, count - 1)
    } else {
        unset_first(bits, count - 1) + 1
    }
}

/// Setting a flag that was not set leaves one unset flag less.
proof fn lemma_set_flag(bits: Seq<bool>, at: int, count: int)
    requires
        0 <= at < bits.len(),
        0 <= count <= bits.len(),
        !bits[at],
    ensures
        unset_first(bits.update(at, true), count) == unset_first(bits, count) - if at < count {
            1int
        } else {
            0int
        },
        unset_first(bits, count) >= 0,
    decreases count,
{
    if count > 0 {
        lemma_set_flag(bits, at, count - 1);
    }
}

/// A list of `count` flags, none set.
fn no_states(count: usize) -> (bits: Vec<bool>)
    ensures
        bits@.len() == count,
        forall|s: int| 0 <= s < count ==> !bits@[s],
{
    let mut bits: Vec<bool> = Vec::new();
    let mut i: usize = 0;
    while i < count
        invariant
            i <= count,
            bits@.len() == i,
            forall|s: int| 0 <= s < i ==> !bits@[s],
        decreases count - i,
    {
        bits.push(false);
        i += 1;
    }
    bits
}

/// A set of states that holds the ε-successors of its own states holds
/// all that ε-paths reach from them.
proof fn lemma_closed_under_paths(nfa: Automaton, bits: Seq<bool>, from: int, to: int, steps: int)
    requires
        0 <= from < bits.len(),
        bits[from],
        nfa.silent_path(from, to, steps),
        forall|s: int, t: int|
            0 <= s < bits.len() && bits[s] && #[trigger] nfa.has_edge(s, None, t) ==> 0 <= t
                < bits.len() && bits[t],
    ensures
        0 <= to < bits.len(),
        bits[to],
    decreases steps,
{
    if steps > 0 {
        let mid = choose|mid: int|
            nfa.silent_path(from, mid, steps - 1) && #[trigger] nfa.has_edge(mid, None, to);
        lemma_closed_under_paths(nfa, bits, from, mid, steps - 1);
    }
}

/// The ε-closure of a set of states.
///
/// The states to look at are kept in a list. A state is marked when it is
/// found and then put on the list, so every state is looked at once.
pub fn silent_closure(nfa: &NfaData, seed: &Vec<bool>) -> (closed: Vec<bool>)
    requires
        seed@.len() == nfa@.max_index + 1,
    ensures
        closed@.len() == seed@.len(),
        members(closed@) == nfa@.closure(members(seed@)),
{
    let n = seed.len();
    let edges = nfa.edges();
    let ghost automaton = nfa@;
    let ghost target = automaton.closure(members(seed@));
    let mut closed = no_states(n);
    let mut pending: Vec<usize> = Vec::new();
    let mut s: usize = 0;
    proof {
        lemma_edges_agree(edges@, automaton);
    }
    while s < n
        invariant
            s <= n,
            n == seed@.len(),
            closed@.len() == n,
            target == automaton.closure(members(seed@)),
            forall|q: int| 0 <= q < s ==> closed@[q] == seed@[q],
            forall|q: int| s <= q < n ==> !closed@[q],
            forall|q: int| 0 <= q < n && closed@[q] ==> pending@.contains(q as usize),
            forall|p: int| 0 <= p < pending@.len() ==> pending@[p] < n && closed@[pending@[p] as int],
            forall|q: int| 0 <= q < n && closed@[q] ==> target.contains(q),
        decreases n - s,
    {
        if seed[s] {
            closed.set(s, true);
            let ghost before = pending@;
            pending.push(s);
            proof {
                assert(automaton.silent_path(s as int, s as int, 0int));
                assert(members(seed@).contains(s as int));
                assert(automaton.silently_reaches(s as int, s as int));
                assert forall|q: int| 0 <= q < n && closed@[q] implies pending@.contains(
                    q as usize,
                ) by {
                    if q == s {
                        assert(pending@[pending@.len() - 1] == s);
                    } else {
                        let p = choose|p: int| 0 <= p < before.len() && before[p] == q as usize;
                        assert(pending@[p] == q as usize);
                    }
                }
            }
        }
        s += 1;
    }
    while pending.len() > 0
        invariant
            n == seed@.len(),
            n == automaton.max_index + 1,
            automaton == nfa@,
            automaton.well_formed(),
            edges_agree(edges@, automaton),
            closed@.len() == n,
            target == automaton.closure(members(seed@)),
            forall|q: int| 0 <= q < n && seed@[q] ==> closed@[q],
            forall|p: int| 0 <= p < pending@.len() ==> pending@[p] < n && closed@[pending@[p] as int],
            forall|q: int| 0 <= q < n && closed@[q] ==> target.contains(q),
            forall|q: int, t: int|
                0 <= q < n && closed@[q] && #[trigger] automaton.has_edge(q, None, t)
                    ==> pending@.contains(q as usize) || (0 <= t < n && closed@[t]),
        decreases unset_first(closed@, n as int), pending@.len(),
    {
        let ghost marks_before = closed@;
        let ghost pending_before = pending@;
        let state = pending.pop().unwrap();
        let mut e: usize = 0;
        proof {
            lemma_unset_natural(closed@, n as int);
        }
        while e < edges.len()
            invariant
                e <= edges@.len(),
                state < n,
                n == seed@.len(),
                n == automaton.max_index + 1,
                automaton.well_formed(),
                edges_agree(edges@, automaton),
                closed@.len() == n,
                closed@[state as int],
                target == automaton.closure(members(seed@)),
                pending_before.len() >= 1,
                marks_before.len() == n,
                pending@.len() >= pending_before.len() - 1,
                forall|p: int|
                    0 <= p < pending_before.len() - 1 ==> pending@[p] == pending_before[p],
                pending_before[pending_before.len() - 1] == state,
                forall|q: int| 0 <= q < n && marks_before[q] ==> closed@[q],
                forall|q: int| 0 <= q < n && seed@[q] ==> closed@[q],
                forall|p: int|
                    0 <= p < pending@.len() ==> pending@[p] < n && closed@[pending@[p] as int],
                forall|q: int| 0 <= q < n && closed@[q] ==> target.contains(q),
                forall|q: int| 0 <= q < n && closed@[q] && !marks_before[q] ==> pending@.contains(
                    q as usize,
                ),
                forall|x: int|
                    0 <= x < e && edges@[x].0 == state && edges@[x].1 is None ==> closed@[edges@[x].2 as int],
                unset_first(closed@, n as int) >= 0,
                unset_first(closed@, n as int) < unset_first(marks_before, n as int) || (closed@
                    == marks_before && pending@.len() == pending_before.len() - 1),
            decreases edges@.len() - e,
        {
            let edge = edges[e];
            proof {
                assert(automaton.edges[e as int] == (edge.0 as int, edge.1, edge.2 as int));
            }
            if edge.0 == state && edge.1.is_none() && !closed[edge.2] {
                proof {
                    lemma_set_flag(closed@, edge.2 as int, n as int);
                    // the new state is reached through the state at hand
                    assert(automaton.has_edge(state as int, None, edge.2 as int));
                    assert(target.contains(state as int));
                    let from = choose|from: int|
                        members(seed@).contains(from) && #[trigger] automaton.silently_reaches(
                            from,
                            state as int,
                        );
                    let steps = choose|steps: int| #[trigger]
                        automaton.silent_path(from, state as int, steps);
                    lemma_path_extends(automaton, from, state as int, edge.2 as int, steps);
                    assert(automaton.silently_reaches(from, edge.2 as int));
                    assert(target.contains(edge.2 as int));
                }
                let ghost pending_now = pending@;
                closed.set(edge.2, true);
                pending.push(edge.2);
                proof {
                    lemma_unset_natural(closed@, n as int);
                    assert forall|q: int|
                        0 <= q < n && closed@[q] && !marks_before[q] implies pending@.contains(
                        q as usize,
                    ) by {
                        if q == edge.2 {
                            assert(pending@[pending@.len() - 1] == q as usize);
                        } else {
                            let p = choose|p: int|
                                0 <= p < pending_now.len() && pending_now[p] == q as usize;
                            assert(pending@[p] == q as usize);
                        }
                    }
                }
            }
            e += 1;
        }
        proof {
            assert forall|q: int, t: int|
                0 <= q < n && closed@[q] && #[trigger] automaton.has_edge(
                    q,
                    None,
                    t,
                ) implies pending@.contains(q as usize) || (0 <= t < n && closed@[t]) by {
                let x = choose|x: int|
                    0 <= x < automaton.edges.len() && #[trigger] automaton.edges[x] == (
                        q,
                        None::<Alphabet>,
                        t,
                    );
                if q == state {
                    assert(edges@[x].0 == state && edges@[x].1 is None);
                } else if marks_before[q] {
                    if pending_before.contains(q as usize) {
                        let p = choose|p: int|
                            0 <= p < pending_before.len() && pending_before[p] == q as usize;
                        assert(pending@[p] == q as usize);
                    }
                }
            }
        }
    }
    proof {
        assert forall|t: int| target.contains(t) implies members(closed@).contains(t) by {
            let from = choose|from: int|
                members(seed@).contains(from) && #[trigger] automaton.silently_reaches(from, t);
            let steps = choose|steps: int| #[trigger] automaton.silent_path(from, t, steps);
            assert(!pending@.contains(from as usize));
            assert forall|q: int, u: int|
                0 <= q < closed@.len() && closed@[q] && #[trigger] automaton.has_edge(
                    q,
                    None,
                    u,
                ) implies 0 <= u < closed@.len() && closed@[u] by {
                assert(!pending@.contains(q as usize));
            }
            lemma_closed_under_paths(automaton, closed@, from, t, steps);
        }
        assert(members(closed@) =~= target);
    }
    closed
}

/// The edges of the list are those of the automaton, and they connect
/// states of it.
pub open spec fn edges_agree(edges: Seq<(usize, Option<Alphabet>, usize)>, nfa: Automaton) -> bool {
    &&& edges.len() == nfa.edges.len()
    &&& forall|x: int|
        0 <= x < edges.len() ==> #[trigger] nfa.edges[x] == (
            edges[x].0 as int,
            edges[x].1,
            edges[x].2 as int,
        )
    &&& forall|x: int|
        0 <= x < edges.len() ==> (#[trigger] edges[x]).0 <= nfa.max_index && edges[x].2
            <= nfa.max_index
}

/// The edges that an automaton hands out agree with its value.
proof fn lemma_edges_agree(edges: Seq<(usize, Option<Alphabet>, usize)>, nfa: Automaton)
    requires
        nfa.well_formed(),
        crate::nfa::nfa_manipulations::edges_of(edges) == nfa.edges,
    ensures
        edges_agree(edges, nfa),
{
    assert forall|x: int| 0 <= x < edges.len() implies (#[trigger] edges[x]).0 <= nfa.max_index
        && edges[x].2 <= nfa.max_index by {
        assert(nfa.edges[x] == (edges[x].0 as int, edges[x].1, edges[x].2 as int));
    }
}

/// A path of ε-transitions and one more ε-transition make a path.
proof fn lemma_path_extends(nfa: Automaton, from: int, mid: int, to: int, steps: int)
    requires
        nfa.silent_path(from, mid, steps),
        nfa.has_edge(mid, None, to),
    ensures
        nfa.silently_reaches(from, to),
{
    if steps <= 0 {
        assert(nfa.silent_path(from, mid, 0));
        assert(nfa.silent_path(from, to, 1));
    } else {
        assert(nfa.silent_path(from, to, steps + 1));
    }
}

/// The states that an edge with the letter reaches from a set of states.
pub fn moved(nfa: &NfaData, from: &Vec<bool>, letter: Alphabet) -> (to: Vec<bool>)
    requires
        from@.len() == nfa@.max_index + 1,
    ensures
        to@.len() == from@.len(),
        members(to@) == nfa@.moved(members(from@), letter),
{
    let n = from.len();
    let edges = nfa.edges();
    let ghost automaton = nfa@;
    let mut to = no_states(n);
    let mut e: usize = 0;
    proof {
        lemma_edges_agree(edges@, automaton);
    }
    while e < edges.len()
        invariant
            e <= edges@.len(),
            n == from@.len(),
            n == automaton.max_index + 1,
            to@.len() == n,
            edges_agree(edges@, automaton),
            forall|t: int|
                0 <= t < n ==> (#[trigger] to@[t] == exists|x: int|
                    0 <= x < e && (#[trigger] edges@[x]).2 == t && edges@[x].1 == Some(letter)
                        && from@[edges@[x].0 as int]),
        decreases edges@.len() - e,
    {
        let edge = edges[e];
        let labelled = match edge.1 {
            Some(a) => a == letter,
            None => false,
        };
        if labelled && from[edge.0] {
            to.set(edge.2, true);
        }
        proof {
            assert forall|t: int| 0 <= t < n implies (#[trigger] to@[t] == exists|x: int|
                0 <= x < e + 1 && (#[trigger] edges@[x]).2 == t && edges@[x].1 == Some(letter)
                    && from@[edges@[x].0 as int]) by {
                if to@[t] {
                    if labelled && from@[edge.0 as int] && edge.2 == t {
                        assert(edges@[e as int].2 == t);
                    } else {
                        let x = choose|x: int|
                            0 <= x < e && (#[trigger] edges@[x]).2 == t && edges@[x].1 == Some(
                                letter,
                            ) && from@[edges@[x].0 as int];
                        assert(0 <= x < e + 1 && edges@[x].2 == t);
                    }
                }
            }
        }
        e += 1;
    }
    proof {
        let target = automaton.moved(members(from@), letter);
        assert forall|t: int| members(to@).contains(t) == target.contains(t) by {
            if members(to@).contains(t) {
                let x = choose|x: int|
                    0 <= x < edges@.len() && (#[trigger] edges@[x]).2 == t && edges@[x].1 == Some(
                        letter,
                    ) && from@[edges@[x].0 as int];
                assert(automaton.edges[x] == (edges@[x].0 as int, Some(letter), t));
                assert(automaton.has_edge(edges@[x].0 as int, Some(letter), t));
                assert(members(from@).contains(edges@[x].0 as int));
            }
            if target.contains(t) {
                let s = choose|s: int|
                    members(from@).contains(s) && #[trigger] automaton.has_edge(
                        s,
                        Some(letter),
                        t,
                    );
                let x = choose|x: int|
                    0 <= x < automaton.edges.len() && #[trigger] automaton.edges[x] == (
                        s,
                        Some(letter),
                        t,
                    );
                assert(edges@[x].2 == t && edges@[x].1 == Some(letter) && from@[edges@[x].0 as int]);
            }
        }
        assert(members(to@) =~= target);
    }
    to
}

/// Whether a set of states holds an accepting state.
pub fn holds_final(nfa: &NfaData, bits: &Vec<bool>) -> (r: bool)
    requires
        bits@.len() == nfa@.max_index + 1,
    ensures
        r == nfa@.accepting(members(bits@)),
{
    let finals = nfa.finals();
    let mut i: usize = 0;
    while i < finals.len()
        invariant
            i <= finals@.len(),
            bits@.len() == nfa@.max_index + 1,
            nfa@.well_formed(),
            indices_of(finals@) == nfa@.finals,
            forall|x: int| 0 <= x < i ==> !members(bits@).contains(#[trigger] nfa@.finals[x]),
        decreases finals@.len() - i,
    {
        assert(nfa@.finals[i as int] == finals@[i as int]);
        if bits[finals[i]] {
            return true;
        }
        i += 1;
    }
    false
}

/// Whether two lists of flags are the same.
fn same_bits(left: &Vec<bool>, right: &Vec<bool>) -> (r: bool)
    requires
        left@.len() == right@.len(),
    ensures
        r == (left@ == right@),
{
    let mut i: usize = 0;
    while i < left.len()
        invariant
            i <= left@.len(),
            left@.len() == right@.len(),
            forall|x: int| 0 <= x < i ==> left@[x] == right@[x],
        decreases left@.len() - i,
    {
        if left[i] != right[i] {
            return false;
        }
        i += 1;
    }
    assert(left@ =~= right@);
    true
}

/// The place of a set of states in a list of sets, if it is there.
fn position_of(sets: &Vec<Vec<bool>>, bits: &Vec<bool>) -> (r: Option<usize>)
    requires
        forall|x: int| 0 <= x < sets@.len() ==> (#[trigger] sets@[x])@.len() == bits@.len(),
    ensures
        match r {
            Some(at) => at < sets@.len() && sets@[at as int]@ == bits@,
            None => forall|x: int| 0 <= x < sets@.len() ==> (#[trigger] sets@[x])@ != bits@,
        },
{
    let mut i: usize = 0;
    while i < sets.len()
        invariant
            i <= sets@.len(),
            forall|x: int| 0 <= x < sets@.len() ==> (#[trigger] sets@[x])@.len() == bits@.len(),
            forall|x: int| 0 <= x < i ==> (#[trigger] sets@[x])@ != bits@,
        decreases sets@.len() - i,
    {
        if same_bits(&sets[i], bits) {
            return Some(i);
        }
        i += 1;
    }
    None
}

/// Two to the power of `n`.
pub open spec fn two_to(n: int) -> int
    decreases n,
{
    if n <= 0 {
        1
    } else {
        2 * two_to(n - 1)
    }
}

/// The first `count` flags read as a number in base two.
pub open spec fn code(bits: Seq<bool>, count: int) -> int
    decreases count,
{
    if count <= 0 {
        0
    } else {
        2 * code(bits, count - 1) + if bits[count - 1] {
            1int
        } else {
            0int
        }
    }
}

/// The number of `count` flags is below two to the power of `count`.
proof fn lemma_code_bound(bits: Seq<bool>, count: int)
    requires
        0 <= count,
    ensures
        0 <= code(bits, count) < two_to(count),
    decreases count,
{
    if count > 0 {
        lemma_code_bound(bits, count - 1);
    }
}

/// Lists of flags with the same number are the same.
proof fn lemma_code_injective(left: Seq<bool>, right: Seq<bool>, count: int)
    requires
        0 <= count,
        code(left, count) == code(right, count),
    ensures
        forall|i: int| 0 <= i < count ==> left[i] == right[i],
    decreases count,
{
    if count > 0 {
        lemma_code_injective(left, right, count - 1);
    }
}

/// There are no more different sets of `n` states than two to the power
/// of `n`.
proof fn lemma_distinct_sets_bound(sets: Seq<Seq<bool>>, n: int)
    requires
        0 <= n,
        forall|x: int| 0 <= x < sets.len() ==> (#[trigger] sets[x]).len() == n,
        forall|x: int, y: int| 0 <= x < y < sets.len() ==> #[trigger] sets[x] != #[trigger] sets[y],
    ensures
        sets.len() <= two_to(n),
{
    let codes = Seq::new(sets.len(), |x: int| code(sets[x], n));
    assert forall|x: int, y: int|
        0 <= x < codes.len() && 0 <= y < codes.len() && x != y implies codes[x] != codes[y] by {
        if codes[x] == codes[y] {
            lemma_code_injective(sets[x], sets[y], n);
            assert(sets[x] =~= sets[y]);
            if x < y {
                assert(sets[x] != sets[y]);
            } else {
                assert(sets[y] != sets[x]);
            }
        }
    }
    codes.unique_seq_to_set();
    assert(two_to(n) >= 0) by {
        lemma_code_bound(Seq::empty(), n);
    }
    lemma_int_range(0, two_to(n));
    assert forall|c: int| codes.to_set().contains(c) implies set_int_range(0, two_to(n)).contains(
        c,
    ) by {
        let x = choose|x: int| 0 <= x < codes.len() && codes[x] == c;
        lemma_code_bound(sets[x], n);
    }
    lemma_len_subset(codes.to_set(), set_int_range(0, two_to(n)));
}

/// The word of letters that a word of letter numbers spells.
pub open spec fn spelled(alphabet: Seq<Alphabet>, word: Seq<int>) -> Seq<Alphabet> {
    Seq::new(word.len(), |i: int| alphabet[word[i]])
}

/// The lists of flags of a list of sets.
pub open spec fn flags_of(sets: Seq<Vec<bool>>) -> Seq<Seq<bool>> {
    Seq::new(sets.len(), |x: int| sets[x]@)
}

/// The table follows the automaton: its start state stands for the
/// ε-closure of the start state, and the next state of a state for a letter
/// stands for the ε-closure of what the letter reaches from its set.
pub open spec fn follows(
    table: DfaTable,
    sets: Seq<Seq<bool>>,
    nfa: Automaton,
    alphabet: Seq<Alphabet>,
) -> bool {
    &&& table.well_formed()
    &&& table.letters == alphabet.len()
    &&& sets.len() == table.rows.len()
    &&& members(sets[0]) == nfa.closure(set![0int])
    &&& forall|state: int, letter: int|
        0 <= state < table.rows.len() && 0 <= letter < table.letters ==> members(
            sets[#[trigger] table.rows[state][letter]],
        ) == nfa.closure(nfa.moved(members(sets[state]), alphabet[letter]))
    &&& forall|state: int|
        0 <= state < table.rows.len() ==> #[trigger] table.accepting[state] == nfa.accepting(
            members(sets[state]),
        )
}

/// The table is the part of the powerset automaton that words reach: its
/// states stand for different sets of states of the automaton, the start
/// state for the ε-closure of the start state and the next state of a
/// state for the ε-closure of what the letter reaches from its set; a state
/// accepts if its set holds an accepting state.
pub open spec fn powerset_of(
    table: DfaTable,
    sets: Seq<Set<int>>,
    nfa: Automaton,
    alphabet: Seq<Alphabet>,
) -> bool {
    &&& table.well_formed()
    &&& table.letters == alphabet.len()
    &&& sets.len() == table.rows.len()
    &&& forall|x: int, y: int| 0 <= x < y < sets.len() ==> #[trigger] sets[x] != #[trigger] sets[y]
    &&& sets[0] == nfa.closure(set![0int])
    &&& forall|state: int, letter: int|
        0 <= state < table.rows.len() && 0 <= letter < table.letters ==> sets[#[trigger] table.rows[state][letter]]
            == nfa.closure(nfa.moved(sets[state], alphabet[letter]))
    &&& forall|state: int|
        0 <= state < table.rows.len() ==> #[trigger] table.accepting[state] == nfa.accepting(
            sets[state],
        )
}

/// Different lists of flags of the same length stand for different sets.
proof fn lemma_members_differ(left: Seq<bool>, right: Seq<bool>)
    requires
        left.len() == right.len(),
        left != right,
    ensures
        members(left) != members(right),
{
    if members(left) == members(right) {
        assert forall|s: int| 0 <= s < left.len() implies left[s] == right[s] by {
            assert(members(left).contains(s) == members(right).contains(s));
        }
        assert(left =~= right);
    }
}

/// A table that follows an automaton is, after every word, in the state
/// that stands for the states in which the automaton can be.
pub proof fn lemma_table_tracks(
    table: DfaTable,
    sets: Seq<Seq<bool>>,
    nfa: Automaton,
    alphabet: Seq<Alphabet>,
    word: Seq<int>,
)
    requires
        follows(table, sets, nfa, alphabet),
        table.reads(word),
    ensures
        0 <= table.state_after(word) < sets.len(),
        members(sets[table.state_after(word)]) == nfa.after(spelled(alphabet, word)),
        table.accepts(word) == nfa.accepts(spelled(alphabet, word)),
    decreases word.len(),
{
    lemma_state_in_table(table, word);
    if word.len() > 0 {
        let shorter = word.drop_last();
        assert(table.reads(shorter)) by {
            assert forall|i: int| 0 <= i < shorter.len() implies 0 <= #[trigger] shorter[i]
                < table.letters by {
                assert(shorter[i] == word[i]);
            }
        }
        lemma_table_tracks(table, sets, nfa, alphabet, shorter);
        lemma_state_in_table(table, shorter);
        assert(0 <= word[word.len() - 1] < table.letters);
        assert(spelled(alphabet, word).drop_last() =~= spelled(alphabet, shorter));
        assert(spelled(alphabet, word).last() == alphabet[word.last()]);
    } else {
        assert(spelled(alphabet, word).len() == 0);
    }
}

impl NfaData {
    /// Converts the automaton to a deterministic one by the powerset
    /// construction.
    ///
    /// The letters of the result are those of `alphabet`, numbered by their
    /// place in it. A state of the result stands for the set of states in
    /// which this automaton can be, and it accepts if one of them does. The
    /// sets are found from that of the empty word on; each is looked up in
    /// the list of those found so far and put at its end if it is new, so
    /// that the list is at once the list of sets that are still to visit.
    ///
    /// The result accepts a word of letter numbers if and only if this
    /// automaton accepts the word that they spell.
    pub fn into_dfa(&self, alphabet: &Vec<Alphabet>) -> (dfa: DfaData)
        requires
            self@.max_index < usize::MAX,
        ensures
            dfa@.well_formed(),
            dfa@.letters == alphabet@.len(),
            exists|sets: Seq<Set<int>>| powerset_of(dfa@, sets, self@, alphabet@),
            forall|word: Seq<int>|
                dfa@.reads(word) ==> #[trigger] dfa@.accepts(word) == self@.accepts(
                    spelled(alphabet@, word),
                ),
    {
        let n = self.max_index() + 1;
        let letters = alphabet.len();
        let ghost nfa = self@;
        let mut start = no_states(n);
        start.set(0, true);
        assert(members(start@) =~= set![0int]);
        let mut sets: Vec<Vec<bool>> = Vec::new();
        sets.push(silent_closure(self, &start));
        let mut rows: Vec<Vec<usize>> = Vec::new();
        let mut state: usize = 0;
        proof {
            lemma_distinct_sets_bound(flags_of(sets@), n as int);
        }
        while state < sets.len()
            invariant
                state <= sets@.len(),
                n == nfa.max_index + 1,
                nfa == self@,
                letters == alphabet@.len(),
                explored(sets@, rows@, nfa, alphabet@, n as int),
                rows@.len() == state,
                sets@.len() <= two_to(n as int),
                letters == 0 ==> sets@.len() == 1,
            decreases two_to(n as int) - sets@.len(), sets@.len() - state,
        {
            let mut row: Vec<usize> = Vec::new();
            let mut letter: usize = 0;
            let ghost sets_before = sets@;
            while letter < letters
                invariant
                    letter <= letters,
                    state < sets@.len(),
                    n == nfa.max_index + 1,
                    nfa == self@,
                    letters == alphabet@.len(),
                    explored(sets@, rows@, nfa, alphabet@, n as int),
                    rows@.len() == state,
                    sets@.len() >= sets_before.len(),
                    letters == 0 ==> sets@.len() == 1,
                    row@.len() == letter,
                    forall|l: int|
                        0 <= l < letter ==> #[trigger] row@[l] < sets@.len() && members(
                            sets@[row@[l] as int]@,
                        ) == nfa.closure(
                            nfa.moved(members(sets@[state as int]@), alphabet@[l]),
                        ),
                decreases letters - letter,
            {
                let reached = moved(self, &sets[state], alphabet[letter]);
                let target = silent_closure(self, &reached);
                let at = match position_of(&sets, &target) {
                    Some(at) => at,
                    None => {
                        sets.push(target);
                        sets.len() - 1
                    },
                };
                row.push(at);
                letter += 1;
            }
            rows.push(row);
            proof {
                lemma_distinct_sets_bound(flags_of(sets@), n as int);
            }
            state += 1;
        }
        let mut accepting: Vec<bool> = Vec::new();
        let mut s: usize = 0;
        while s < sets.len()
            invariant
                s <= sets@.len(),
                n == nfa.max_index + 1,
                nfa == self@,
                forall|x: int| 0 <= x < sets@.len() ==> (#[trigger] sets@[x])@.len() == n,
                accepting@.len() == s,
                forall|x: int|
                    0 <= x < s ==> #[trigger] accepting@[x] == nfa.accepting(members(sets@[x]@)),
            decreases sets@.len() - s,
        {
            accepting.push(holds_final(self, &sets[s]));
            s += 1;
        }
        let dfa = DfaData::from_rows(letters, rows, accepting);
        proof {
            let table = dfa@;
            let flags = flags_of(sets@);
            assert(follows(table, flags, nfa, alphabet@)) by {
                assert forall|st: int, l: int|
                    0 <= st < table.rows.len() && 0 <= l < table.letters implies members(
                    flags[#[trigger] table.rows[st][l]],
                ) == nfa.closure(nfa.moved(members(flags[st]), alphabet@[l])) by {
                    assert(table.rows[st][l] == rows@[st]@[l]);
                }
            }
            assert forall|word: Seq<int>| dfa@.reads(word) implies #[trigger] dfa@.accepts(word)
                == self@.accepts(spelled(alphabet@, word)) by {
                lemma_table_tracks(table, flags, nfa, alphabet@, word);
            }
            let subsets = Seq::new(flags.len(), |x: int| members(flags[x]));
            assert forall|x: int, y: int| 0 <= x < y < subsets.len() implies #[trigger] subsets[x]
                != #[trigger] subsets[y] by {
                assert(sets@[x]@ != sets@[y]@);
                lemma_members_differ(flags[x], flags[y]);
            }
            assert(powerset_of(table, subsets, nfa, alphabet@));
        }
        dfa
    }
}

/// What holds of the sets of states found so far and of the rows of the
/// table written so far: the sets are different sets of the states of the
/// automaton, the first is the ε-closure of the start state, and the rows
/// lead to the sets that the letters reach.
pub open spec fn explored(
    sets: Seq<Vec<bool>>,
    rows: Seq<Vec<usize>>,
    nfa: Automaton,
    alphabet: Seq<Alphabet>,
    n: int,
) -> bool {
    &&& 1 <= sets.len()
    &&& forall|x: int| 0 <= x < sets.len() ==> (#[trigger] sets[x])@.len() == n
    &&& forall|x: int, y: int|
        0 <= x < y < sets.len() ==> (#[trigger] sets[x])@ != (#[trigger] sets[y])@
    &&& members(sets[0]@) == nfa.closure(set![0int])
    &&& forall|x: int| 0 <= x < rows.len() ==> (#[trigger] rows[x])@.len() == alphabet.len()
    &&& forall|x: int, l: int|
        0 <= x < rows.len() && 0 <= l < alphabet.len() ==> #[trigger] rows[x]@[l] < sets.len()
            && members(sets[rows[x]@[l] as int]@) == nfa.closure(
            nfa.moved(members(sets[x]@), alphabet[l]),
        )
}

/// No list has a negative number of unset flags.
proof fn lemma_unset_natural(bits: Seq<bool>, count: int)
    ensures
        unset_first(bits, count) >= 0,
    decreases count,
{
    if count > 0 {
        lemma_unset_natural(bits, count - 1);
    }
}

} // verus!
