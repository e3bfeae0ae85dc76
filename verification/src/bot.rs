//! A quiz: a hidden expression, the questions asked about it so far and
//! the players who try to find it.

use crate::errors::{CommandError, ParseError};
use crate::ordered::{
    entries_of, map_entries, map_len, map_new, map_record, members_of, recorded, set_contains,
    set_insert, set_is_empty, set_new, set_remove,
};
use crate::parser::CustomId;
use crate::regex::alphabet::{
    first_invalid, invalid_input_of, leading_letters, lemma_letter_reads_back, symbols_of,
    word_text, Alphabet,
};
use crate::regex::automaton::{lemma_canonical_is_proper, lemma_state_count_bound};
use crate::regex::generate_quiz::{
    affordable, alphabets_used_with, generated_within, judged_good, randomly_generate, Difficulty,
    MAX_QUIZ_TREE_SIZE,
};
use crate::regex::grammar::{characters, parse};
use crate::regex::matcher::{anchored, pattern_compiles, pattern_matches};
use crate::regex::regex_tree::{Expression, RegexAst};
use indexmap::{IndexMap, IndexSet};
use vstd::prelude::*;

verus! {

/// A guessing game about one expression.
pub struct Quiz {
    size: u8,
    regex: RegexAst,
    history: IndexMap<String, String>,
    participants: IndexSet<u64>,
}

/// The mathematical value of a [`Quiz`].
pub struct QuizState {
    /// The difficulty: the number of letters in the domain.
    pub size: u8,
    /// The expression to be found.
    pub regex: Expression,
    /// The questions asked, each with its answer, in the order in which
    /// they were first asked.
    pub history: Seq<(Seq<char>, Seq<char>)>,
    /// The players, by their identifiers.
    pub participants: Set<u64>,
}

/// The verdict on a guess.
#[derive(Debug, PartialEq, Eq)]
pub enum InspectionAcceptance {
    Accepted(String),
    WrongAnswer(String),
}

/// The answer to a question.
#[derive(Debug, PartialEq, Eq)]
pub enum QueryMatch {
    Yes(String),
    No(String),
}

/// A line of the history of a quiz, as it is shown.
#[derive(Debug, PartialEq, Eq)]
pub struct HistoryField {
    pub name: String,
    pub value: String,
    pub inline: bool,
}

/// What follows when a player gives up.
#[derive(Debug, PartialEq, Eq)]
pub enum GiveUp {
    /// Other players go on: the message says who left.
    Removed(String),
    /// The last player left. The message reveals the answer, and the two
    /// identifiers are those of the buttons for a good and a bad opinion of
    /// the quiz.
    Over { message: String, good: CustomId, bad: CustomId },
}

/// The text of a question that stands for the empty word: two quotation
/// marks.
pub open spec fn empty_word_input() -> Seq<char> {
    seq!['"', '"']
}

/// The word that a question asks about, if it is one.
pub open spec fn queried_word(input: Seq<char>) -> Option<Seq<Alphabet>> {
    if input == empty_word_input() {
        Some(Seq::empty())
    } else {
        symbols_of(input)
    }
}

/// Whether a letter is one of the first `size` of the alphabet.
pub open spec fn in_domain(a: Alphabet, size: u8) -> bool {
    leading_letters(size as nat).contains(a)
}

/// The letters among the first `count` of a word that are outside the
/// domain, in their order and as often as they occur.
pub open spec fn offending_first(word: Seq<Alphabet>, size: u8, count: int) -> Seq<Alphabet>
    decreases count,
{
    if count <= 0 || count > word.len() {
        Seq::empty()
    } else if in_domain(word[count - 1], size) {
        offending_first(word, size, count - 1)
    } else {
        offending_first(word, size, count - 1).push(word[count - 1])
    }
}

/// The letters of a word that are outside the domain.
pub open spec fn offending(word: Seq<Alphabet>, size: u8) -> Seq<Alphabet> {
    offending_first(word, size, word.len() as int)
}

/// `e` is the domain error that names the letters `invalid`, in lower
/// case, and the domain of the first `size` letters.
pub open spec fn domain_error_of(e: CommandError, invalid: Seq<Alphabet>, size: u8) -> bool {
    &&& e matches CommandError::DomainError { invalid: names, domain }
    &&& domain@ == leading_letters(size as nat)
    &&& names@.len() == invalid.len()
    &&& forall|i: int| 0 <= i < invalid.len() ==> (#[trigger] names@[i])@ == seq![invalid[i].letter()]
}

/// A letter is in the domain if its position in the alphabet is below the
/// size.
pub proof fn lemma_in_domain(a: Alphabet, size: u8)
    ensures
        in_domain(a, size) == (a.ordinal() < size),
{
    lemma_letter_reads_back(a);
    let domain = leading_letters(size as nat);
    if a.ordinal() < size {
        assert(domain[a.ordinal()] == a);
    }
    if domain.contains(a) {
        let i = choose|i: int| 0 <= i < domain.len() && domain[i] == a;
        lemma_letter_reads_back(Alphabet::at(i));
        assert(Alphabet::at(i).ordinal() == i) by {
            if i == 0 {
            } else if i == 1 {
            } else if i == 2 {
            } else if i == 3 {
            } else if i == 4 {
            } else if i == 5 {
            } else if i == 6 {
            } else if i == 7 {
            } else if i == 8 {
            } else {
            }
        }
    }
}

impl InspectionAcceptance {
    /// The verdict as a line of text.
    pub fn to_string(&self) -> (s: String)
        ensures
            match self {
                InspectionAcceptance::Accepted(input) => s@ == input@ + " => AC"@,
                InspectionAcceptance::WrongAnswer(input) => s@ == input@ + " => WA"@,
            },
    {
        match self {
            InspectionAcceptance::Accepted(input) => with_suffix(input.as_str(), " => AC"),
            InspectionAcceptance::WrongAnswer(input) => with_suffix(input.as_str(), " => WA"),
        }
    }
}

impl QueryMatch {
    /// The answer as a line of text.
    pub fn to_string(&self) -> (s: String)
        ensures
            match self {
                QueryMatch::Yes(input) => s@ == input@ + " => Yes"@,
                QueryMatch::No(input) => s@ == input@ + " => No"@,
            },
    {
        match self {
            QueryMatch::Yes(input) => with_suffix(input.as_str(), " => Yes"),
            QueryMatch::No(input) => with_suffix(input.as_str(), " => No"),
        }
    }
}

/// A text followed by another.
fn with_suffix(text: &str, suffix: &str) -> (s: String)
    ensures
        s@ == text@ + suffix@,
{
    let mut s = String::new();
    s.append(text);
    s.append(suffix);
    assert(s@ =~= text@ + suffix@);
    s
}

impl View for Quiz {
    type V = QuizState;

    closed spec fn view(&self) -> QuizState {
        QuizState {
            size: self.size,
            regex: self.regex@,
            history: entries_of(self.history),
            participants: members_of(self.participants),
        }
    }
}

/// What a quiz asks of its expression: it is proper, its automaton has a
/// number of states that a `usize` holds, and its pattern compiles.
pub open spec fn fit_for_quiz(regex: Expression) -> bool {
    &&& regex.proper()
    &&& regex.state_count() <= usize::MAX
    &&& pattern_compiles(anchored(regex.pattern()))
}

/// The expression was generated for a quiz of the difficulty: it is a
/// tree of no more than `MAX_QUIZ_TREE_SIZE` nodes over the first letters
/// of the alphabet, as many as the difficulty says, and it was judged good
/// as a quiz problem on a sample of words over those letters.
pub open spec fn generated_for(regex: Expression, difficulty: u8) -> bool {
    &&& generated_within(regex, leading_letters(difficulty as nat), MAX_QUIZ_TREE_SIZE as int)
    &&& affordable(regex, MAX_QUIZ_TREE_SIZE as int)
    &&& judged_good(regex, leading_letters(difficulty as nat))
}

impl Quiz {
    #[verifier::type_invariant]
    closed spec fn answerable(self) -> bool {
        fit_for_quiz(self.regex@)
    }

    /// A new quiz of difficulty 3, about a randomly generated expression
    /// over the first three letters. `None` if no expression was found,
    /// which the draws can bring about at any time.
    pub fn new() -> (r: Option<Quiz>)
        ensures
            r matches Some(quiz) ==> quiz@.size == 3 && quiz@.history.len() == 0
                && quiz@.participants == Set::<u64>::empty() && fit_for_quiz(quiz@.regex)
                && generated_for(quiz@.regex, 3),
    {
        Quiz::new_with_difficulty(3)
    }

    /// A new quiz of the given difficulty, about a randomly generated
    /// expression. `None` if the difficulty is 0 or no expression was found,
    /// which the draws can bring about for every difficulty.
    pub fn new_with_difficulty(difficulty: u8) -> (r: Option<Quiz>)
        ensures
            difficulty == 0 ==> r is None,
            r matches Some(quiz) ==> quiz@.size == difficulty && quiz@.history.len() == 0
                && quiz@.participants == Set::<u64>::empty() && fit_for_quiz(quiz@.regex)
                && generated_for(quiz@.regex, difficulty),
    {
        match randomly_generate(&Difficulty(difficulty)) {
            Some(regex) => {
                proof {
                    // an expression that was generated makes a quiz
                    lemma_state_count_bound(regex@);
                    assert(fit_for_quiz(regex@));
                }
                Quiz::with_answer(difficulty, regex)
            },
            None => None,
        }
    }

    /// A new quiz of the given difficulty about the given expression.
    /// `None` if the expression is not fit for a quiz.
    pub fn with_answer(difficulty: u8, regex: RegexAst) -> (r: Option<Quiz>)
        ensures
            r is Some == fit_for_quiz(regex@),
            r matches Some(quiz) ==> quiz@ == (QuizState {
                size: difficulty,
                regex: regex@,
                history: Seq::empty(),
                participants: Set::empty(),
            }),
    {
        if !regex.is_proper() {
            return None;
        }
        if regex.state_count().is_none() {
            return None;
        }
        if !regex.compiles() {
            return None;
        }
        Some(Quiz { size: difficulty, regex, history: map_new(), participants: set_new() })
    }

    /// Asks whether the expression matches a word, and records the
    /// question with its answer unless it was asked before.
    ///
    /// The input is the word, letter by letter in either case; two
    /// quotation marks stand for the empty word. An input with a character
    /// that is no letter is invalid, and one with a letter outside the
    /// domain of the quiz is a domain error; neither is recorded.
    pub fn query(&mut self, input: &str) -> (r: Result<QueryMatch, CommandError>)
        ensures
            final(self)@.size == old(self)@.size,
            final(self)@.regex == old(self)@.regex,
            final(self)@.participants == old(self)@.participants,
            match r {
                Ok(answer) => {
                    &&& queried_word(input@) matches Some(word)
                    &&& offending(word, old(self)@.size).len() == 0
                    &&& if pattern_matches(
                        anchored(old(self)@.regex.pattern()),
                        word_text(word),
                    ) {
                        &&& answer matches QueryMatch::Yes(text)
                        &&& text@ == input@
                        &&& final(self)@.history == recorded(old(self)@.history, input@, "Yes"@)
                    } else {
                        &&& answer matches QueryMatch::No(text)
                        &&& text@ == input@
                        &&& final(self)@.history == recorded(old(self)@.history, input@, "No"@)
                    }
                },
                Err(e) => {
                    &&& final(self)@.history == old(self)@.history
                    &&& match queried_word(input@) {
                        None => 0 <= first_invalid(input@) < input@.len() && invalid_input_of(
                            e,
                            input@[first_invalid(input@)],
                        ),
                        Some(word) => offending(word, old(self)@.size).len() > 0
                            && domain_error_of(e, offending(word, old(self)@.size), old(self)@.size),
                    }
                },
            },
    {
        proof {
            use_type_invariant(&*self);
        }
        let alphabets = if is_empty_word_input(input) {
            Vec::new()
        } else {
            match Alphabet::vec_from_str(input) {
                Ok(word) => word,
                Err(e) => {
                    return Err(e);
                },
            }
        };
        match self.validate(alphabets.as_slice()) {
            Ok(()) => {},
            Err(e) => {
                return Err(e);
            },
        }
        let is_match = self.regex.matches(alphabets.as_slice());
        // The history is taken out of the quiz while it changes.
        let mut history = map_new();
        core::mem::swap(&mut self.history, &mut history);
        map_record(&mut history, input, if is_match { "Yes" } else { "No" });
        core::mem::swap(&mut self.history, &mut history);
        if is_match {
            Ok(QueryMatch::Yes(input.to_owned()))
        } else {
            Ok(QueryMatch::No(input.to_owned()))
        }
    }

    /// Judges a guess: the text of an expression, which is accepted if it
    /// matches the same words as the expression of the quiz.
    ///
    /// A text that is no expression is a syntax error, and an expression
    /// with a letter outside the domain of the quiz is a domain error.
    pub fn inspect(&self, input: &str) -> (r: Result<InspectionAcceptance, CommandError>)
        ensures
            match parse(input@) {
                Err(error) => r == Err::<InspectionAcceptance, CommandError>(
                    CommandError::Syntax { error },
                ),
                Ok(guess) => if offending(guess.used_letters(), self@.size).len() > 0 {
                    r matches Err(e) && domain_error_of(
                        e,
                        offending(guess.used_letters(), self@.size),
                        self@.size,
                    )
                } else if guess.state_count() > usize::MAX {
                    r == Err::<InspectionAcceptance, CommandError>(CommandError::TooLarge)
                } else if self@.regex.same_language(guess) {
                    r matches Ok(InspectionAcceptance::Accepted(text)) && text@ == input@
                        + " => AC"@
                } else {
                    r matches Ok(InspectionAcceptance::WrongAnswer(text)) && text@ == input@
                        + " => WA"@
                },
            },
    {
        proof {
            use_type_invariant(self);
        }
        let ast = match RegexAst::parse_str(input) {
            Ok(ast) => ast,
            Err(error) => {
                return Err(CommandError::Syntax { error });
            },
        };
        let alphabets = ast.used_alphabets();
        match self.validate(alphabets.as_slice()) {
            Ok(()) => {},
            Err(e) => {
                return Err(e);
            },
        }
        if ast.state_count().is_none() {
            return Err(CommandError::TooLarge);
        }
        proof {
            lemma_canonical_is_proper(ast@);
        }
        if self.regex.equivalent_to(&ast) {
            Ok(InspectionAcceptance::Accepted(with_suffix(input, " => AC")))
        } else {
            Ok(InspectionAcceptance::WrongAnswer(with_suffix(input, " => WA")))
        }
    }

    /// Lets a player join. A player who has joined before is turned down.
    pub fn register(&mut self, user: u64) -> (r: Result<(), CommandError>)
        ensures
            final(self)@.size == old(self)@.size,
            final(self)@.regex == old(self)@.regex,
            final(self)@.history == old(self)@.history,
            final(self)@.participants == old(self)@.participants.insert(user),
            r == if old(self)@.participants.contains(user) {
                Err::<(), CommandError>(CommandError::AlreadyRegistered)
            } else {
                Ok::<(), CommandError>(())
            },
    {
        proof {
            use_type_invariant(&*self);
        }
        // The set of players is taken out of the quiz while it changes.
        let mut participants = set_new();
        core::mem::swap(&mut self.participants, &mut participants);
        let joined = set_insert(&mut participants, user);
        core::mem::swap(&mut self.participants, &mut participants);
        if joined {
            Ok(())
        } else {
            Err(CommandError::AlreadyRegistered)
        }
    }

    /// Lets a player give up. When the last player has left, the quiz is
    /// over and the answer is revealed. Someone who is no player is turned
    /// down.
    pub fn accepts_give_up(&mut self, user: u64, name: &str) -> (r: Result<GiveUp, CommandError>)
        ensures
            final(self)@.size == old(self)@.size,
            final(self)@.regex == old(self)@.regex,
            final(self)@.history == old(self)@.history,
            final(self)@.participants == old(self)@.participants.remove(user),
            match r {
                Err(e) => !old(self)@.participants.contains(user) && e
                    == CommandError::NotRegistered,
                Ok(GiveUp::Removed(message)) => {
                    &&& old(self)@.participants.contains(user)
                    &&& final(self)@.participants != Set::<u64>::empty()
                    &&& message@ == name@ + " is removed."@
                },
                Ok(GiveUp::Over { message, good, bad }) => {
                    &&& old(self)@.participants.contains(user)
                    &&& final(self)@.participants == Set::<u64>::empty()
                    &&& message@ == farewell(old(self)@.regex.render())
                    &&& good matches CustomId::Feedback { label, regex }
                    &&& label@ == "good"@
                    &&& regex@ == old(self)@.regex.render()
                    &&& bad matches CustomId::Feedback { label: bad_label, regex: bad_regex }
                    &&& bad_label@ == "bad"@
                    &&& bad_regex@ == old(self)@.regex.render()
                },
            },
    {
        proof {
            use_type_invariant(&*self);
        }
        // The set of players is taken out of the quiz while it changes.
        let mut participants = set_new();
        core::mem::swap(&mut self.participants, &mut participants);
        let left = set_remove(&mut participants, user);
        core::mem::swap(&mut self.participants, &mut participants);
        if !left {
            return Err(CommandError::NotRegistered);
        }
        if set_is_empty(&self.participants) {
            let good = CustomId::Feedback {
                label: "good".to_owned(),
                regex: self.regex.to_string(),
            };
            let bad = CustomId::Feedback { label: "bad".to_owned(), regex: self.regex.to_string() };
            let mut message = String::new();
            message.append("There is no longer a challenger.\nThe answer is `");
            message.append(self.regex.to_string().as_str());
            message.append("`.\nWas the regular expression interesting as a problem?\n");
            assert(message@ =~= farewell(self@.regex.render()));
            Ok(GiveUp::Over { message, good, bad })
        } else {
            Ok(GiveUp::Removed(with_suffix(name, " is removed.")))
        }
    }

    /// The history of the quiz as lines to show: one for each question,
    /// with its answer, in the order in which they were first asked; a
    /// single line that says so where nothing was asked yet.
    pub fn get_query_history(&self) -> (fields: Vec<HistoryField>)
        ensures
            fields@.len() == shown_history(self@.history).len(),
            forall|i: int|
                0 <= i < fields@.len() ==> shown(#[trigger] fields@[i]) == shown_history(
                    self@.history,
                )[i],
    {
        let entries = map_entries(&self.history);
        let mut fields: Vec<HistoryField> = Vec::new();
        if entries.len() == 0 {
            fields.push(
                HistoryField { name: "Nothing to show".to_owned(), value: "-".to_owned(), inline: false },
            );
            return fields;
        }
        let mut i: usize = 0;
        while i < entries.len()
            invariant
                i <= entries.len(),
                fields@.len() == i,
                entries@.len() == self@.history.len(),
                forall|k: int|
                    0 <= k < entries@.len() ==> (#[trigger] entries@[k]).0@ == self@.history[k].0
                        && entries@[k].1@ == self@.history[k].1,
                forall|k: int|
                    0 <= k < i ==> shown(#[trigger] fields@[k]) == shown_history(self@.history)[k],
            decreases entries.len() - i,
        {
            let query = entries[i].0.as_str();
            let name = if query.unicode_len() == 0 {
                "ε".to_owned()
            } else {
                query.to_owned()
            };
            assert(query@.len() == 0 ==> query@ =~= Seq::<char>::empty());
            fields.push(HistoryField { name, value: entries[i].1.clone(), inline: true });
            i += 1;
        }
        fields
    }

    /// Whether the player takes part.
    pub fn is_participant(&self, id: u64) -> (r: bool)
        ensures
            r == self@.participants.contains(id),
    {
        set_contains(&self.participants, id)
    }

    /// Whether no player takes part.
    pub fn is_empty(&self) -> (r: bool)
        ensures
            r == (self@.participants == Set::<u64>::empty()),
    {
        set_is_empty(&self.participants)
    }

    /// The number of different questions asked so far.
    pub fn len(&self) -> (r: usize)
        ensures
            r == self@.history.len(),
    {
        map_len(&self.history)
    }

    /// The expression to be found.
    pub fn get_answer_regex(&self) -> (r: RegexAst)
        ensures
            r@ == self@.regex,
    {
        self.regex.clone()
    }

    /// Checks a word against the domain of the quiz: its letters have to
    /// be among the first letters of the alphabet, as many as the
    /// difficulty says. The error names the letters that are not, and the
    /// domain.
    pub fn validate(&self, input: &[Alphabet]) -> (r: Result<(), CommandError>)
        ensures
            match r {
                Ok(()) => offending(input@, self@.size).len() == 0,
                Err(e) => offending(input@, self@.size).len() > 0 && domain_error_of(
                    e,
                    offending(input@, self@.size),
                    self@.size,
                ),
            },
    {
        let domain = alphabets_used_with(&Difficulty(self.size)).0;
        let mut invalid: Vec<String> = Vec::new();
        let mut i: usize = 0;
        while i < input.len()
            invariant
                i <= input.len(),
                invalid@.len() == offending_first(input@, self.size, i as int).len(),
                forall|k: int|
                    0 <= k < invalid@.len() ==> (#[trigger] invalid@[k])@ == seq![
                        offending_first(input@, self.size, i as int)[k].letter(),
                    ],
            decreases input.len() - i,
        {
            proof {
                lemma_in_domain(input@[i as int], self.size);
            }
            if input[i].index() >= self.size as usize {
                invalid.push(input[i].to_string());
            }
            i += 1;
        }
        if invalid.len() == 0 {
            Ok(())
        } else {
            Err(CommandError::DomainError { invalid, domain })
        }
    }
}

/// The message that ends a quiz and reveals the answer.
pub open spec fn farewell(answer: Seq<char>) -> Seq<char> {
    "There is no longer a challenger.\nThe answer is `"@ + answer
        + "`.\nWas the regular expression interesting as a problem?\n"@
}

/// What a line shows: a name, a value, and whether it may share its row.
pub open spec fn shown(field: HistoryField) -> (Seq<char>, Seq<char>, bool) {
    (field.name@, field.value@, field.inline)
}

/// The lines that show a history.
pub open spec fn shown_history(history: Seq<(Seq<char>, Seq<char>)>) -> Seq<
    (Seq<char>, Seq<char>, bool),
> {
    if history.len() == 0 {
        seq![("Nothing to show"@, "-"@, false)]
    } else {
        Seq::new(
            history.len(),
            |i: int|
                (
                    if history[i].0.len() == 0 {
                        "ε"@
                    } else {
                        history[i].0
                    },
                    history[i].1,
                    true,
                ),
        )
    }
}

/// Whether the input is the text that stands for the empty word.
fn is_empty_word_input(input: &str) -> (r: bool)
    ensures
        r == (input@ == empty_word_input()),
{
    let text = characters(input);
    let r = text.len() == 2 && text[0] == '"' && text[1] == '"';
    assert(r ==> text@ =~= empty_word_input());
    r
}

} // verus!
