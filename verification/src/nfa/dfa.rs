//! Deterministic automata as tables.

use vstd::prelude::*;

verus! {

/// The mathematical value of a [`DfaData`]: a table with a row for each
/// state, which holds the next state for each letter, and the accepting
/// states. Letters are numbered from 0; state 0 is the start state.
pub struct DfaTable {
    pub letters: int,
    pub rows: Seq<Seq<int>>,
    pub accepting: Seq<bool>,
}

impl DfaTable {
    /// There is a state, every state has a next state for every letter,
    /// and it is known of every state whether it accepts.
    pub open spec fn well_formed(self) -> bool {
        &&& 0 <= self.letters
        &&& 1 <= self.rows.len()
        &&& self.accepting.len() == self.rows.len()
        &&& forall|state: int|
            0 <= state < self.rows.len() ==> (#[trigger] self.rows[state]).len() == self.letters
        &&& forall|state: int, letter: int|
            0 <= state < self.rows.len() && 0 <= letter < self.letters ==> 0
                <= #[trigger] self.rows[state][letter] < self.rows.len()
    }

    /// A word of letters of the automaton.
    pub open spec fn reads(self, word: Seq<int>) -> bool {
        forall|i: int| 0 <= i < word.len() ==> 0 <= #[trigger] word[i] < self.letters
    }

    /// The state of the automaton when it has read the word.
    pub open spec fn state_after(self, word: Seq<int>) -> int
        decreases word.len(),
    {
        if word.len() == 0 {
            0
        } else {
            self.rows[self.state_after(word.drop_last())][word.last()]
        }
    }

    /// Whether the automaton accepts the word.
    pub open spec fn accepts(self, word: Seq<int>) -> bool {
        self.accepting[self.state_after(word)]
    }

    /// Two automata over the same letters accept the same words.
    pub open spec fn same_language(self, other: DfaTable) -> bool {
        forall|word: Seq<int>| self.reads(word) ==> #[trigger] self.accepts(word) == other.accepts(word)
    }
}

/// The states of a well-formed automaton are the rows of its table.
pub proof fn lemma_state_in_table(table: DfaTable, word: Seq<int>)
    requires
        table.well_formed(),
        table.reads(word),
    ensures
        0 <= table.state_after(word) < table.rows.len(),
    decreases word.len(),
{
    if word.len() > 0 {
        assert(table.reads(word.drop_last())) by {
            assert forall|i: int| 0 <= i < word.drop_last().len() implies 0
                <= #[trigger] word.drop_last()[i] < table.letters by {
                assert(word.drop_last()[i] == word[i]);
            }
        }
        lemma_state_in_table(table, word.drop_last());
        assert(0 <= word[word.len() - 1] < table.letters);
    }
}

/// The place of an edge in the list of edges of an automaton with
/// `letters` letters: the edges of a state stand in a row, in the order of
/// the letters, and the rows in the order of the states.
pub open spec fn slot(state: int, letters: int, letter: int) -> int {
    state * letters + letter
}

/// The numbers of a list as mathematical integers.
pub open spec fn numbers_of(word: Seq<usize>) -> Seq<int> {
    Seq::new(word.len(), |i: int| word[i] as int)
}

/// The accepting states listed from the greatest down, each once.
pub open spec fn descending(finals: Seq<usize>) -> bool {
    forall|i: int, j: int| 0 <= i < j < finals.len() ==> #[trigger] finals[i] > #[trigger] finals[j]
}

/// A deterministic automaton: its states are numbered from 0, the start
/// state, and its letters likewise. For every state and every letter there
/// is exactly one edge.
#[derive(Debug)]
pub struct DfaData {
    pub(crate) letters: usize,
    pub(crate) states: usize,
    /// The edges as triples of state, letter and next state, ordered by
    /// state and then by letter.
    pub(crate) edges: Vec<(usize, usize, usize)>,
    /// The accepting states, from the greatest down.
    pub(crate) finals: Vec<usize>,
}

impl View for DfaData {
    type V = DfaTable;

    closed spec fn view(&self) -> DfaTable {
        DfaTable {
            letters: self.letters as int,
            rows: Seq::new(
                self.states as nat,
                |state: int|
                    Seq::new(
                        self.letters as nat,
                        |letter: int| self.edges@[slot(state, self.letters as int, letter)].2 as int,
                    ),
            ),
            accepting: Seq::new(self.states as nat, |state: int| self.finals@.contains(state as usize)),
        }
    }
}

impl DfaData {
    /// The edges and the accepting states are laid out as a table.
    #[verifier::type_invariant]
    pub closed spec fn is_table(self) -> bool {
        &&& 1 <= self.states
        &&& self.letters == 0 ==> self.states == 1
        &&& self.edges@.len() == self.states * self.letters
        &&& forall|state: int, letter: int|
            0 <= state < self.states && 0 <= letter < self.letters ==> {
                let edge = #[trigger] self.edges@[slot(state, self.letters as int, letter)];
                edge.0 == state && edge.1 == letter && edge.2 < self.states
            }
        &&& descending(self.finals@)
        &&& forall|i: int| 0 <= i < self.finals@.len() ==> #[trigger] self.finals@[i] < self.states
    }

    /// The number of letters.
    pub fn letters(&self) -> (r: usize)
        ensures
            r == self@.letters,
    {
        self.letters
    }

    /// The number of states.
    pub fn states(&self) -> (r: usize)
        ensures
            r == self@.rows.len(),
            self@.well_formed(),
    {
        proof {
            use_type_invariant(self);
            self.lemma_table_well_formed();
        }
        self.states
    }

    /// Whether the automaton accepts the word, given as the numbers of its
    /// letters.
    pub fn accepts(&self, word: &[usize]) -> (r: bool)
        requires
            forall|i: int| 0 <= i < word@.len() ==> word@[i] < self@.letters,
        ensures
            r == self@.accepts(numbers_of(word@)),
    {
        proof {
            use_type_invariant(self);
            self.lemma_table_well_formed();
        }
        let ghost numbers = numbers_of(word@);
        let mut state: usize = 0;
        let mut i: usize = 0;
        let edge_count = self.edges.len();
        assert(numbers.take(0) =~= Seq::<int>::empty());
        while i < word.len()
            invariant
                i <= word@.len(),
                self.is_table(),
                edge_count == self.states * self.letters,
                numbers == numbers_of(word@),
                forall|k: int| 0 <= k < word@.len() ==> word@[k] < self.letters,
                state < self.states,
                state == self@.state_after(numbers.take(i as int)),
            decreases word@.len() - i,
        {
            let letter = word[i];
            proof {
                lemma_slot_order(state as int, self.states as int, self.letters as int, letter as int, 0);
                assert(numbers.take(i + 1).drop_last() =~= numbers.take(i as int));
                assert(numbers.take(i + 1).last() == letter);
                assert(self.edges@[slot(state as int, self.letters as int, letter as int)].2
                    < self.states);
                assert(0 <= state * self.letters + letter < self.states * self.letters);
            }
            state = self.edges[state * self.letters + letter].2;
            i += 1;
        }
        assert(numbers.take(word@.len() as int) =~= numbers);
        let ghost last = state;
        let mut k: usize = 0;
        while k < self.finals.len()
            invariant
                k <= self.finals@.len(),
                state < self.states,
                state == self@.state_after(numbers_of(word@)),
                forall|x: int| 0 <= x < k ==> self.finals@[x] != state,
            decreases self.finals@.len() - k,
        {
            if self.finals[k] == state {
                assert(self.finals@.contains(state));
                return true;
            }
            k += 1;
        }
        assert(!self.finals@.contains(state));
        false
    }

    /// A table with the layout of this type is a well-formed automaton.
    pub proof fn lemma_table_well_formed(self)
        requires
            self.is_table(),
        ensures
            self@.well_formed(),
    {
        let table = self@;
        assert forall|state: int, letter: int|
            0 <= state < table.rows.len() && 0 <= letter < table.letters implies 0
            <= #[trigger] table.rows[state][letter] < table.rows.len() by {
            let edge = self.edges@[slot(state, self.letters as int, letter)];
            assert(edge.2 < self.states);
        }
    }

    /// Makes an automaton of a table: `rows[s][l]` is the next state of
    /// the state `s` for the letter `l`, and `accepting[s]` says whether `s`
    /// accepts.
    pub fn from_rows(letters: usize, rows: Vec<Vec<usize>>, accepting: Vec<bool>) -> (r: DfaData)
        requires
            1 <= rows@.len(),
            letters == 0 ==> rows@.len() == 1,
            accepting@.len() == rows@.len(),
            forall|state: int| 0 <= state < rows@.len() ==> (#[trigger] rows@[state])@.len() == letters,
            forall|state: int, letter: int|
                0 <= state < rows@.len() && 0 <= letter < letters ==> #[trigger] rows@[state]@[letter]
                    < rows@.len(),
        ensures
            r@.well_formed(),
            r@.letters == letters,
            r@.rows.len() == rows@.len(),
            forall|state: int, letter: int|
                0 <= state < rows@.len() && 0 <= letter < letters ==> #[trigger] r@.rows[state][letter]
                    == rows@[state]@[letter],
            r@.accepting == accepting@,
    {
        let states = rows.len();
        let mut edges: Vec<(usize, usize, usize)> = Vec::new();
        let mut state: usize = 0;
        while state < states
            invariant
                state <= states,
                states == rows@.len(),
                forall|s: int| 0 <= s < rows@.len() ==> (#[trigger] rows@[s])@.len() == letters,
                forall|s: int, l: int|
                    0 <= s < rows@.len() && 0 <= l < letters ==> #[trigger] rows@[s]@[l]
                        < rows@.len(),
                edges@.len() == state * letters,
                forall|s: int, l: int|
                    0 <= s < state && 0 <= l < letters ==> #[trigger] edges@[slot(
                        s,
                        letters as int,
                        l,
                    )] == (s as usize, l as usize, rows@[s]@[l]),
            decreases states - state,
        {
            let row = &rows[state];
            let mut letter: usize = 0;
            while letter < letters
                invariant
                    letter <= letters,
                    state < states,
                    states == rows@.len(),
                    row@ == rows@[state as int]@,
                    row@.len() == letters,
                    forall|s: int, l: int|
                        0 <= s < rows@.len() && 0 <= l < letters ==> #[trigger] rows@[s]@[l]
                            < rows@.len(),
                    edges@.len() == state * letters + letter,
                    forall|s: int, l: int|
                        0 <= s < state && 0 <= l < letters ==> #[trigger] edges@[slot(
                            s,
                            letters as int,
                            l,
                        )] == (s as usize, l as usize, rows@[s]@[l]),
                    forall|l: int|
                        0 <= l < letter ==> #[trigger] edges@[slot(state as int, letters as int, l)]
                            == (state, l as usize, rows@[state as int]@[l]),
                decreases letters - letter,
            {
                let ghost before = edges@;
                edges.push((state, letter, row[letter]));
                proof {
                    assert forall|s: int, l: int|
                        0 <= s < state && 0 <= l < letters implies #[trigger] edges@[slot(
                        s,
                        letters as int,
                        l,
                    )] == (s as usize, l as usize, rows@[s]@[l]) by {
                        lemma_slot_order(s, state as int, letters as int, l, 0);
                        assert(edges@[slot(s, letters as int, l)] == before[slot(
                            s,
                            letters as int,
                            l,
                        )]);
                    }
                    assert forall|l: int| 0 <= l < letter + 1 implies #[trigger] edges@[slot(
                        state as int,
                        letters as int,
                        l,
                    )] == (state, l as usize, rows@[state as int]@[l]) by {
                        if l < letter {
                            assert(edges@[slot(state as int, letters as int, l)] == before[slot(
                                state as int,
                                letters as int,
                                l,
                            )]);
                        }
                    }
                }
                letter += 1;
            }
            proof {
                assert((state + 1) * letters == state * letters + letters) by (nonlinear_arith);
            }
            state += 1;
        }
        let mut finals: Vec<usize> = Vec::new();
        let mut above: usize = states;
        while above > 0
            invariant
                above <= states,
                states == accepting@.len(),
                descending(finals@),
                forall|i: int| 0 <= i < finals@.len() ==> above <= #[trigger] finals@[i] < states,
                forall|i: int| 0 <= i < finals@.len() ==> accepting@[#[trigger] finals@[i] as int],
                forall|s: int| above <= s < states && accepting@[s] ==> finals@.contains(s as usize),
            decreases above,
        {
            above -= 1;
            if accepting[above] {
                let ghost before = finals@;
                finals.push(above);
                proof {
                    assert forall|s: int|
                        above <= s < states && accepting@[s] implies finals@.contains(
                        s as usize,
                    ) by {
                        if s == above {
                            assert(finals@[finals@.len() - 1] == s as usize);
                        } else {
                            let i = choose|i: int| 0 <= i < before.len() && before[i] == s as usize;
                            assert(finals@[i] == s as usize);
                        }
                    }
                }
            }
        }
        let r = DfaData { letters, states, edges, finals };
        proof {
            assert(r@.accepting =~= accepting@);
        }
        r
    }
}

/// The edges of an earlier state stand before those of a later one.
pub proof fn lemma_slot_order(early: int, late: int, letters: int, letter: int, other: int)
    requires
        0 <= early < late,
        0 <= letter < letters,
        0 <= other,
    ensures
        0 <= slot(early, letters, letter) < slot(late, letters, other),
{
    assert(early * letters + letters <= late * letters) by (nonlinear_arith)
        requires
            early < late,
            0 <= letters,
    ;
    assert(0 <= early * letters) by (nonlinear_arith)
        requires
            0 <= early,
            0 <= letters,
    ;
}

} // verus!
