//! Whether two expressions denote the same language.

use crate::nfa::dfa::numbers_of;
use crate::nfa::semantics::word_over;
use crate::nfa::subset::spelled;
use crate::regex::alphabet::{lemma_letter_reads_back, Alphabet, ALPHABET_SIZE};
use crate::regex::automaton::lemma_automaton_size;
use crate::regex::correctness::lemma_automaton_language;
use crate::regex::language::{
    lemma_different_letters_different_languages, lemma_matched_letters_are_used,
};
use crate::regex::regex_tree::{Expression, RegexAst};
use vstd::prelude::*;

verus! {

impl Expression {
    /// The two expressions match the same words.
    pub open spec fn same_language(self, another: Expression) -> bool {
        forall|word: Seq<Alphabet>| #[trigger] self.denotes(word) == another.denotes(word)
    }

    /// How [`RegexAst::equivalent_to`] decides: the two expressions use
    /// the same letters, and their automata accept the same words over
    /// those letters.
    pub open spec fn equivalent_to(self, another: Expression) -> bool {
        &&& self.used_alphabets() == another.used_alphabets()
        &&& forall|word: Seq<Alphabet>|
            word_over(word, self.used_alphabets()) ==> #[trigger] self.automaton().accepts(word)
                == another.automaton().accepts(word)
    }
}

impl RegexAst {
    /// Decides whether two expressions denote the same language.
    ///
    /// Expressions that use different letters are never equivalent: a
    /// letter that occurs in an expression occurs in a word that it
    /// matches, since no expression denotes the empty language, and a
    /// letter that does not occur in it occurs in no such word. For
    /// expressions over the same letters, the automaton of each is made
    /// deterministic over those letters, and the pairs of states that the
    /// two reach together are searched for one of which exactly one
    /// accepts.
    ///
    /// Both trees have to be proper, and the states of their automata must
    /// be countable in a `usize`.
    pub fn equivalent_to(&self, another: &RegexAst) -> (r: bool)
        requires
            self@.proper(),
            another@.proper(),
            self@.state_count() <= usize::MAX,
            another@.state_count() <= usize::MAX,
        ensures
            r == self@.equivalent_to(another@),
            r == self@.same_language(another@),
    {
        proof {
            lemma_equivalence_is_language_equality(self@, another@);
        }
        let flags = self.letter_flags();
        let other_flags = another.letter_flags();
        if !same_flags(&flags, &other_flags) {
            proof {
                if self@.used_alphabets() == another@.used_alphabets() {
                    assert forall|k: int| 0 <= k < 10 implies flags@[k] == other_flags@[k] by {
                        assert(self@.used_alphabets().contains(Alphabet::at(k))
                            == another@.used_alphabets().contains(Alphabet::at(k)));
                    }
                }
            }
            return false;
        }
        proof {
            assert forall|x: Alphabet| self@.uses(x) == another@.uses(x) by {
                lemma_letter_reads_back(x);
                assert(flags@[x.ordinal()] == other_flags@[x.ordinal()]);
            }
            assert(self@.used_alphabets() =~= another@.used_alphabets());
        }
        let alphabet_extension = self.used_alphabets();
        let nfa_1 = self.compile_to_nfa_data();
        let nfa_2 = another.compile_to_nfa_data();
        proof {
            lemma_automaton_size(self@);
            lemma_automaton_size(another@);
        }
        let dfa_1 = nfa_1.into_dfa(&alphabet_extension);
        let dfa_2 = nfa_2.into_dfa(&alphabet_extension);
        let r = dfa_1.equivalent_to(&dfa_2);
        proof {
            let letters = alphabet_extension@;
            let used = self@.used_alphabets();
            if r {
                assert forall|word: Seq<Alphabet>| word_over(word, used) implies #[trigger] nfa_1@.accepts(
                    word,
                ) == nfa_2@.accepts(word) by {
                    let numbers = lemma_words_are_spelled(letters, word);
                    assert(dfa_1@.accepts(numbers) == dfa_2@.accepts(numbers));
                }
            } else {
                let numbers = choose|numbers: Seq<int>|
                    dfa_1@.reads(numbers) && #[trigger] dfa_1@.accepts(numbers) != dfa_2@.accepts(
                        numbers,
                    );
                let word = spelled(letters, numbers);
                assert(dfa_2@.reads(numbers));
                assert(word_over(word, used)) by {
                    assert forall|i: int| 0 <= i < word.len() implies used.contains(
                        #[trigger] word[i],
                    ) by {
                        assert(0 <= numbers[i] < letters.len());
                        assert(letters.to_set().contains(letters[numbers[i]]));
                    }
                }
                assert(nfa_1@.accepts(word) != nfa_2@.accepts(word));
            }
        }
        r
    }
}

impl RegexAst {
    /// Whether the expression matches the word, decided by its automaton:
    /// the automaton is made deterministic over the letters of the
    /// expression and run on the word. A word with another letter is not
    /// matched.
    ///
    /// The tree has to be proper, and the states of its automaton must be
    /// countable in a `usize`.
    pub fn accepts(&self, input: &[Alphabet]) -> (r: bool)
        requires
            self@.proper(),
            self@.state_count() <= usize::MAX,
        ensures
            r == self@.denotes(input@),
    {
        let letters = self.used_alphabets();
        let mut numbers: Vec<usize> = Vec::new();
        let mut i: usize = 0;
        while i < input.len()
            invariant
                i <= input@.len(),
                letters@.to_set() == self@.used_alphabets(),
                numbers@.len() == i,
                forall|k: int|
                    0 <= k < i ==> #[trigger] numbers@[k] < letters@.len() && letters@[numbers@[k] as int]
                        == input@[k],
            decreases input@.len() - i,
        {
            match place_of(&letters, input[i]) {
                Some(at) => {
                    numbers.push(at);
                },
                None => {
                    proof {
                        if self@.denotes(input@) {
                            lemma_matched_letters_are_used(self@, input@, i as int);
                            assert(letters@.to_set().contains(input@[i as int]));
                        }
                    }
                    return false;
                },
            }
            i += 1;
        }
        proof {
            lemma_automaton_size(self@);
            lemma_automaton_language(self@, input@);
            assert(spelled(letters@, numbers_of(numbers@)) =~= input@);
        }
        let dfa = self.compile_to_nfa_data().into_dfa(&letters);
        assert(dfa@.reads(numbers_of(numbers@)));
        dfa.accepts(numbers.as_slice())
    }
}

/// The place of a letter in a list, if it is there.
fn place_of(letters: &Vec<Alphabet>, letter: Alphabet) -> (r: Option<usize>)
    ensures
        match r {
            Some(at) => at < letters@.len() && letters@[at as int] == letter,
            None => !letters@.contains(letter),
        },
{
    let mut i: usize = 0;
    while i < letters.len()
        invariant
            i <= letters@.len(),
            forall|k: int| 0 <= k < i ==> letters@[k] != letter,
        decreases letters@.len() - i,
    {
        if letters[i] == letter {
            return Some(i);
        }
        i += 1;
    }
    None
}

/// Proper expressions are equivalent if and only if they match the same
/// words.
///
/// Expressions that match the same words use the same letters, since a
/// letter of an expression occurs in a word that it matches and in no word
/// that an expression without the letter matches. And expressions over the
/// same letters match the same words if their automata accept the same
/// words over those letters: an automaton accepts what its expression
/// matches, and neither matches a word with another letter.
pub proof fn lemma_equivalence_is_language_equality(e: Expression, another: Expression)
    requires
        e.proper(),
        another.proper(),
    ensures
        e.equivalent_to(another) == e.same_language(another),
{
    if e.equivalent_to(another) {
        assert forall|word: Seq<Alphabet>| #[trigger] e.denotes(word) == another.denotes(word) by {
            lemma_automaton_language(e, word);
            lemma_automaton_language(another, word);
            if !word_over(word, e.used_alphabets()) {
                let i = choose|i: int|
                    0 <= i < word.len() && !e.used_alphabets().contains(#[trigger] word[i]);
                if e.denotes(word) {
                    lemma_matched_letters_are_used(e, word, i);
                }
                if another.denotes(word) {
                    lemma_matched_letters_are_used(another, word, i);
                    assert(another.used_alphabets().contains(word[i]));
                }
            } else {
                assert(e.automaton().accepts(word) == another.automaton().accepts(word));
            }
        }
    }
    if e.same_language(another) {
        if e.used_alphabets() != another.used_alphabets() {
            let word = lemma_different_letters_different_languages(e, another);
            assert(e.denotes(word) == another.denotes(word));
        }
        assert forall|word: Seq<Alphabet>|
            word_over(word, e.used_alphabets()) implies #[trigger] e.automaton().accepts(word)
            == another.automaton().accepts(word) by {
            lemma_automaton_language(e, word);
            lemma_automaton_language(another, word);
            assert(e.denotes(word) == another.denotes(word));
        }
    }
}

/// Every word over the letters of a list is spelled by the places of its
/// letters in the list.
proof fn lemma_words_are_spelled(letters: Seq<Alphabet>, word: Seq<Alphabet>) -> (numbers: Seq<int>)
    requires
        word_over(word, letters.to_set()),
    ensures
        numbers.len() == word.len(),
        forall|i: int| 0 <= i < numbers.len() ==> 0 <= #[trigger] numbers[i] < letters.len(),
        spelled(letters, numbers) == word,
{
    let numbers = Seq::new(
        word.len(),
        |i: int| choose|j: int| 0 <= j < letters.len() && letters[j] == word[i],
    );
    assert forall|i: int| 0 <= i < numbers.len() implies 0 <= #[trigger] numbers[i] < letters.len()
        && letters[numbers[i]] == word[i] by {
        assert(letters.to_set().contains(word[i]));
        assert(letters.contains(word[i]));
    }
    assert(spelled(letters, numbers) =~= word);
    numbers
}

/// Every expression is equivalent to itself.
pub proof fn lemma_equivalence_reflexive(e: Expression)
    ensures
        e.equivalent_to(e),
{
}

/// Whether two expressions are equivalent does not depend on their order.
pub proof fn lemma_equivalence_symmetric(e: Expression, another: Expression)
    ensures
        e.equivalent_to(another) == another.equivalent_to(e),
{
    if e.equivalent_to(another) {
        assert(another.equivalent_to(e));
    }
    if another.equivalent_to(e) {
        assert(e.equivalent_to(another));
    }
}

/// Whether two lists of ten flags are the same.
fn same_flags(left: &Vec<bool>, right: &Vec<bool>) -> (r: bool)
    requires
        left@.len() == ALPHABET_SIZE,
        right@.len() == ALPHABET_SIZE,
    ensures
        r == forall|k: int| 0 <= k < 10 ==> left@[k] == right@[k],
{
    let mut i: usize = 0;
    while i < ALPHABET_SIZE
        invariant
            i <= ALPHABET_SIZE,
            left@.len() == ALPHABET_SIZE,
            right@.len() == ALPHABET_SIZE,
            forall|k: int| 0 <= k < i ==> left@[k] == right@[k],
        decreases ALPHABET_SIZE - i,
    {
        if left[i] != right[i] {
            return false;
        }
        i += 1;
    }
    true
}

} // verus!
