//! Errors reported to the players.

use crate::regex::alphabet::Alphabet;
use vstd::prelude::*;

verus! {

/// Why a text is not a regular expression. Positions count characters from
/// the start of the text.
#[derive(Clone, Copy, Debug, PartialEq, Eq, Structural)]
pub enum ParseError {
    /// The character at `position` stands where an expression has to begin
    /// and begins none, or it is an ASCII letter outside `a` to `j`.
    UnknownLiteral { position: usize },
    /// An opening parenthesis is not closed at `position`, or a closing one
    /// at `position` was never opened.
    UnbalancedParenthesis { position: usize },
    /// A complete expression ends at `position` and more text follows.
    TrailingInput { position: usize },
    /// The text ends at `position`, where an expression has to begin.
    IncompleteInput { position: usize },
}

/// Why a command of a player was turned down.
#[derive(Clone, Debug, PartialEq, Eq)]
pub enum CommandError {
    /// The input holds characters that are no letters of the alphabet.
    InvalidInputs { invalid: Vec<String> },
    /// The input holds letters outside the domain of the running quiz.
    DomainError { invalid: Vec<String>, domain: Vec<Alphabet> },
    /// A time limit ran out.
    Timeout { limit: String },
    /// The guess is not a regular expression.
    Syntax { error: ParseError },
    /// The automaton of the guess has more states than can be counted.
    TooLarge,
    /// The player has joined the quiz before.
    AlreadyRegistered,
    /// The player has not joined the quiz.
    NotRegistered,
}

} // verus!
