//! Nondeterministic finite automata with ε-transitions, and the
//! deterministic automata made from them.

pub mod dfa;
pub mod nfa_manipulations;
pub mod pair;
pub mod runs;
pub mod semantics;
pub mod subset;
pub mod thompson;

pub use dfa::DfaData;
pub use nfa_manipulations::NfaData;
