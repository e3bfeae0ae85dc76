//! A regular-expression engine over a ten-letter alphabet, and the guessing
//! game built on it: expressions are parsed, printed, matched against words,
//! compiled to automata, compared for language equivalence and generated at
//! random as quiz answers.


pub mod bot;
pub mod command_ext;
pub mod concepts;
pub mod errors;
pub mod nfa;
pub mod ordered;
pub mod parser;
pub mod regex;
pub mod response;
