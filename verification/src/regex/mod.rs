//! Regular expressions over the alphabet `a` to `j`.

pub mod alphabet;
pub mod automaton;
pub mod correctness;

pub mod equivalence;
pub mod generate_quiz;
pub mod grammar;
pub mod language;
pub mod matcher;
pub mod random;
pub mod regex_tree;
pub mod round_trip;

pub use alphabet::Alphabet;
pub use generate_quiz::{randomly_generate, AlphabetSet, Difficulty};
pub use regex_tree::RegexAst;
