//! Matching a word against an expression, by the `regex` crate.

use crate::regex::alphabet::{word_text, Alphabet};
use crate::regex::regex_tree::RegexAst;
use vstd::prelude::*;

verus! {

/// Whether `Regex::new` of the `regex` crate accepts the pattern. It
/// refuses a pattern that is malformed, nested too deeply or too large when
/// compiled.
pub uninterp spec fn pattern_compiles(pattern: Seq<char>) -> bool;

/// Whether the pattern, compiled by `Regex::new` of the `regex` crate, has
/// a match in the text: what `Regex::is_match` answers.
pub uninterp spec fn pattern_matches(pattern: Seq<char>, text: Seq<char>) -> bool;

/// A pattern made to match a whole text or nothing: `^(` and `)$` around it.
pub open spec fn anchored(pattern: Seq<char>) -> Seq<char> {
    seq!['^', '('] + pattern + seq![')', '$']
}

/// `Regex::new` and `Regex::is_match` of the `regex` crate: compiles the
/// pattern once and says of each text whether the pattern has a match in
/// it. `None` if the crate refuses the pattern.
#[verifier::external_body]
pub(crate) fn match_each(pattern: &str, texts: &Vec<String>) -> (r: Option<Vec<bool>>)
    ensures
        r is Some == pattern_compiles(pattern@),
        r matches Some(found) ==> found@.len() == texts@.len() && forall|i: int|
            0 <= i < texts@.len() ==> #[trigger] found@[i] == pattern_matches(
                pattern@,
                texts@[i]@,
            ),
{
    let compiled = ::regex::Regex::new(pattern).ok();
    compiled.map(|compiled| texts.iter().map(|text| compiled.is_match(text)).collect())
}

impl RegexAst {
    /// The pattern of the expression for the `regex` crate, made to match
    /// a whole text or nothing.
    pub fn anchored_pattern(&self) -> (s: String)
        ensures
            s@ == anchored(self@.pattern()),
    {
        proof {
            reveal_strlit("^(");
            reveal_strlit(")$");
        }
        let mut regex = String::new();
        regex.append("^(");
        regex.append(self.compile_to_epsilonless_regex().as_str());
        regex.append(")$");
        assert(regex@ =~= anchored(self@.pattern()));
        regex
    }

    /// Whether the `regex` crate compiles the pattern of the expression.
    pub fn compiles(&self) -> (r: bool)
        ensures
            r == pattern_compiles(anchored(self@.pattern())),
    {
        match_each(self.anchored_pattern().as_str(), &Vec::new()).is_some()
    }

    /// Whether the expression matches the word, all of it.
    ///
    /// The question is put to the `regex` crate, with the pattern of the
    /// expression and the word in lower case. The pattern has to be one
    /// that the crate compiles; [`RegexAst::try_matches`] asks for nothing.
    /// [`RegexAst::accepts`] decides the same question by the automaton of
    /// the expression.
    pub fn matches(&self, input: &[Alphabet]) -> (r: bool)
        requires
            pattern_compiles(anchored(self@.pattern())),
        ensures
            r == pattern_matches(anchored(self@.pattern()), word_text(input@)),
    {
        let mut texts: Vec<String> = Vec::new();
        texts.push(Alphabet::slice_to_plain_string(input));
        let found = match_each(self.anchored_pattern().as_str(), &texts).unwrap();
        found[0]
    }

    /// Whether the expression matches the word, all of it; `None` if the
    /// `regex` crate refuses the pattern of the expression.
    pub fn try_matches(&self, input: &[Alphabet]) -> (r: Option<bool>)
        ensures
            r == if pattern_compiles(anchored(self@.pattern())) {
                Some(pattern_matches(anchored(self@.pattern()), word_text(input@)))
            } else {
                None
            },
    {
        if self.compiles() {
            Some(self.matches(input))
        } else {
            None
        }
    }
}

} // verus!
