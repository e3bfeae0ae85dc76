//! The automaton of an expression.

use crate::nfa::nfa_manipulations::{
    automata_of, lemma_fold_sizes, states_of_first, Automaton, NfaData,
};
use crate::regex::alphabet::Alphabet;
use crate::regex::correctness::lemma_automaton_language;
use crate::regex::regex_tree::{node_count_first, views_of, Expression, RegexAst};
use vstd::prelude::*;

verus! {

impl Expression {
    /// Every concatenation and every alternation in the tree has at least
    /// one part.
    pub open spec fn proper(self) -> bool
        decreases self,
    {
        match self {
            Expression::Epsilon => true,
            Expression::Literal(_) => true,
            Expression::Star(inner) => inner.proper(),
            Expression::Concatenation(items) => items.len() >= 1 && forall|i: int|
                0 <= i < items.len() ==> (#[trigger] items[i]).proper(),
            Expression::Alternation(items) => items.len() >= 1 && forall|i: int|
                0 <= i < items.len() ==> (#[trigger] items[i]).proper(),
        }
    }

    /// The number of states of the automaton of the expression.
    pub open spec fn state_count(self) -> int
        decreases self,
    {
        match self {
            Expression::Epsilon => 1,
            Expression::Literal(_) => 2,
            Expression::Star(inner) => inner.state_count() + 1,
            Expression::Concatenation(items) => state_count_first(items, items.len() as int),
            Expression::Alternation(items) => 1 + state_count_first(items, items.len() as int),
        }
    }

    /// The automaton of the expression: that of `ε` or of a letter, the
    /// star of the automaton of the inner expression, the automata of the
    /// parts concatenated from the left, or their union.
    pub open spec fn automaton(self) -> Automaton
        decreases self,
    {
        match self {
            Expression::Epsilon => Automaton::epsilon(),
            Expression::Literal(a) => Automaton::literal(a),
            Expression::Star(inner) => inner.automaton().star(),
            Expression::Concatenation(items) => Automaton::concat_all(automata_for(items)),
            Expression::Alternation(items) => Automaton::union_all(automata_for(items)),
        }
    }
}

/// The numbers of states of the automata of the first `count` expressions,
/// added up.
pub open spec fn state_count_first(items: Seq<Expression>, count: int) -> int
    decreases items, count,
{
    if count <= 0 || count > items.len() {
        0
    } else {
        state_count_first(items, count - 1) + items[count - 1].state_count()
    }
}

/// The automata of a list of expressions.
pub open spec fn automata_for(items: Seq<Expression>) -> Seq<Automaton>
    decreases items,
{
    Seq::new(
        items.len(),
        |i: int|
            if 0 <= i < items.len() {
                items[i].automaton()
            } else {
                Automaton::empty()
            },
    )
}

/// The automaton of a proper expression has as many states as
/// `state_count` says, at least one.
pub proof fn lemma_automaton_size(e: Expression)
    requires
        e.proper(),
    ensures
        e.automaton().max_index + 1 == e.state_count(),
        e.state_count() >= 1,
    decreases e, 0int,
{
    match e {
        Expression::Epsilon => {},
        Expression::Literal(_) => {},
        Expression::Star(inner) => {
            lemma_automaton_size(*inner);
        },
        Expression::Concatenation(items) => {
            lemma_automata_sizes(items, items.len() as int);
            lemma_fold_sizes(automata_for(items), items.len() as int);
        },
        Expression::Alternation(items) => {
            lemma_automata_sizes(items, items.len() as int);
            lemma_fold_sizes(automata_for(items), items.len() as int);
        },
    }
}

/// The automata of proper expressions have, together, as many states as
/// `state_count_first` says, and each has at least one.
pub proof fn lemma_automata_sizes(items: Seq<Expression>, count: int)
    requires
        forall|i: int| 0 <= i < items.len() ==> (#[trigger] items[i]).proper(),
        0 <= count <= items.len(),
    ensures
        states_of_first(automata_for(items), count) == state_count_first(items, count),
        forall|i: int|
            0 <= i < items.len() ==> (#[trigger] automata_for(items)[i]).max_index + 1
                == items[i].state_count() && items[i].state_count() >= 1,
        forall|i: int|
            0 <= i < count ==> (#[trigger] items[i]).state_count() <= state_count_first(
                items,
                count,
            ),
        state_count_first(items, count) >= count,
    decreases items, count,
{
    assert forall|i: int| 0 <= i < items.len() implies (#[trigger] automata_for(
        items,
    )[i]).max_index + 1 == items[i].state_count() && items[i].state_count() >= 1 by {
        lemma_automaton_size(items[i]);
    }
    if count > 0 {
        lemma_automata_sizes(items, count - 1);
        assert(automata_for(items)[count - 1].max_index + 1 == items[count - 1].state_count());
    }
}

/// An expression in canonical form is proper.
pub proof fn lemma_canonical_is_proper(e: Expression)
    requires
        e.canonical(),
    ensures
        e.proper(),
    decreases e,
{
    match e {
        Expression::Epsilon => {},
        Expression::Literal(_) => {},
        Expression::Star(inner) => {
            lemma_canonical_is_proper(*inner);
        },
        Expression::Concatenation(items) => {
            assert forall|i: int| 0 <= i < items.len() implies (#[trigger] items[i]).proper() by {
                lemma_canonical_is_proper(items[i]);
            }
        },
        Expression::Alternation(items) => {
            assert forall|i: int| 0 <= i < items.len() implies (#[trigger] items[i]).proper() by {
                lemma_canonical_is_proper(items[i]);
            }
        },
    }
}

/// The automaton of an expression has no more than two states for each
/// node of the expression.
pub proof fn lemma_state_count_bound(e: Expression)
    ensures
        e.state_count() <= 2 * e.node_count(),
    decreases e, 0int,
{
    match e {
        Expression::Epsilon => {},
        Expression::Literal(_) => {},
        Expression::Star(inner) => {
            lemma_state_count_bound(*inner);
        },
        Expression::Concatenation(items) => {
            lemma_state_counts_bound(items, items.len() as int);
        },
        Expression::Alternation(items) => {
            lemma_state_counts_bound(items, items.len() as int);
        },
    }
}

/// The automata of expressions have, together, no more than two states
/// for each node of the expressions.
pub proof fn lemma_state_counts_bound(items: Seq<Expression>, count: int)
    requires
        0 <= count <= items.len(),
    ensures
        state_count_first(items, count) <= 2 * node_count_first(items, count),
    decreases items, count,
{
    if count > 0 {
        lemma_state_counts_bound(items, count - 1);
        lemma_state_count_bound(items[count - 1]);
    }
}

/// No automaton has a negative number of states.
pub proof fn lemma_state_count_natural(e: Expression)
    ensures
        e.state_count() >= 0,
    decreases e, 0int,
{
    match e {
        Expression::Epsilon => {},
        Expression::Literal(_) => {},
        Expression::Star(inner) => {
            lemma_state_count_natural(*inner);
        },
        Expression::Concatenation(items) => {
            lemma_state_counts_natural(items, items.len() as int);
            assert(0 <= state_count_first(items, items.len() as int));
        },
        Expression::Alternation(items) => {
            lemma_state_counts_natural(items, items.len() as int);
            assert(0 <= state_count_first(items, items.len() as int));
        },
    }
}

/// The states of more automata are more.
pub proof fn lemma_state_counts_natural(items: Seq<Expression>, count: int)
    requires
        0 <= count <= items.len(),
    ensures
        forall|k: int| 0 <= k <= count ==> 0 <= #[trigger] state_count_first(items, k)
            <= state_count_first(items, count),
    decreases items, count,
{
    if count > 0 {
        lemma_state_counts_natural(items, count - 1);
        lemma_state_count_natural(items[count - 1]);
        assert(state_count_first(items, count) == state_count_first(items, count - 1)
            + items[count - 1].state_count());
        assert(0 <= state_count_first(items, count - 1));
    }
    assert forall|k: int| 0 <= k <= count implies 0 <= #[trigger] state_count_first(items, k)
        <= state_count_first(items, count) by {
        if k < count {
            assert(state_count_first(items, k) <= state_count_first(items, count - 1));
        }
    }
}

impl RegexAst {
    /// Whether every concatenation and every alternation in the tree has
    /// at least one part.
    pub fn is_proper(&self) -> (r: bool)
        ensures
            r == self@.proper(),
        decreases self, 1int,
    {
        match self {
            RegexAst::Epsilon => true,
            RegexAst::Literal(_) => true,
            RegexAst::Star(ast) => ast.is_proper(),
            RegexAst::Concatenation(asts) => {
                assert(views_of(asts@).len() == asts@.len());
                asts.len() >= 1 && all_proper(asts)
            },
            RegexAst::Alternation(asts) => {
                assert(views_of(asts@).len() == asts@.len());
                asts.len() >= 1 && all_proper(asts)
            },
        }
    }

    /// The number of states of the automaton of the tree, if a `usize`
    /// can hold it.
    pub fn state_count(&self) -> (r: Option<usize>)
        ensures
            r == if self@.state_count() <= usize::MAX {
                Some(self@.state_count() as usize)
            } else {
                None
            },
        decreases self, 1int,
    {
        proof {
            lemma_state_count_natural(self@);
        }
        match self {
            RegexAst::Epsilon => Some(1),
            RegexAst::Literal(_) => Some(2),
            RegexAst::Star(ast) => {
                proof {
                    lemma_state_count_natural(ast@);
                }
                match ast.state_count() {
                    Some(inner) => inner.checked_add(1),
                    None => None,
                }
            },
            RegexAst::Concatenation(asts) => {
                assert(views_of(asts@).len() == asts@.len());
                state_count_of_all(asts)
            },
            RegexAst::Alternation(asts) => {
                assert(views_of(asts@).len() == asts@.len());
                proof {
                    lemma_state_counts_natural(views_of(asts@), asts@.len() as int);
                }
                match state_count_of_all(asts) {
                    Some(parts) => parts.checked_add(1),
                    None => None,
                }
            },
        }
    }

    /// Compiles the tree to its automaton, which accepts the words that
    /// the expression matches. The tree has to be proper, and the states of
    /// the automaton must be countable in a `usize`.
    pub fn compile_to_nfa_data(&self) -> (r: NfaData)
        requires
            self@.proper(),
            self@.state_count() <= usize::MAX,
        ensures
            r@ == self@.automaton(),
            r@.well_formed(),
            forall|word: Seq<Alphabet>| #[trigger] r@.accepts(word) == self@.denotes(word),
        decreases self, 1int,
    {
        let r = match self {
            RegexAst::Epsilon => NfaData::epsilon(),
            RegexAst::Literal(a) => NfaData::literal(*a),
            RegexAst::Star(ast) => {
                proof {
                    lemma_automaton_size(ast@);
                }
                NfaData::star(&ast.compile_to_nfa_data())
            },
            RegexAst::Concatenation(asts) => {
                proof {
                    assert(views_of(asts@).len() == asts@.len());
                    lemma_automata_sizes(views_of(asts@), asts@.len() as int);
                }
                let compiled_asts = compile_all(asts, Ghost(self@.state_count()));
                NfaData::concat_all(compiled_asts)
            },
            RegexAst::Alternation(asts) => {
                proof {
                    assert(views_of(asts@).len() == asts@.len());
                    lemma_automata_sizes(views_of(asts@), asts@.len() as int);
                }
                let compiled_asts = compile_all(asts, Ghost(self@.state_count()));
                NfaData::union_all(compiled_asts)
            },
        };
        proof {
            assert forall|word: Seq<Alphabet>| #[trigger] r@.accepts(word) == self@.denotes(
                word,
            ) by {
                lemma_automaton_language(self@, word);
            }
        }
        r
    }
}

/// Whether every tree of the list is proper.
fn all_proper(asts: &Vec<RegexAst>) -> (r: bool)
    ensures
        r == forall|k: int| 0 <= k < asts@.len() ==> (#[trigger] views_of(asts@)[k]).proper(),
    decreases asts, 0int,
{
    let mut i: usize = 0;
    while i < asts.len()
        invariant
            i <= asts.len(),
            forall|k: int| 0 <= k < i ==> (#[trigger] views_of(asts@)[k]).proper(),
        decreases asts.len() - i,
    {
        assert(views_of(asts@)[i as int] == asts@[i as int]@);
        if !asts[i].is_proper() {
            return false;
        }
        i += 1;
    }
    true
}

/// The numbers of states of the automata of the trees, added up, if a
/// `usize` can hold the sum.
fn state_count_of_all(asts: &Vec<RegexAst>) -> (r: Option<usize>)
    ensures
        r == if state_count_first(views_of(asts@), asts@.len() as int) <= usize::MAX {
            Some(state_count_first(views_of(asts@), asts@.len() as int) as usize)
        } else {
            None
        },
    decreases asts, 0int,
{
    let ghost all = views_of(asts@);
    let mut total: usize = 0;
    let mut i: usize = 0;
    proof {
        lemma_state_counts_natural(all, asts@.len() as int);
    }
    while i < asts.len()
        invariant
            i <= asts.len(),
            all == views_of(asts@),
            all.len() == asts@.len(),
            total == state_count_first(all, i as int),
            forall|k: int| 0 <= k <= asts@.len() ==> 0 <= #[trigger] state_count_first(all, k)
                <= state_count_first(all, asts@.len() as int),
        decreases asts.len() - i,
    {
        assert(all[i as int] == asts@[i as int]@);
        proof {
            lemma_state_count_natural(all[i as int]);
            assert(0 <= state_count_first(all, i + 1) <= state_count_first(
                all,
                asts@.len() as int,
            ));
        }
        let part = match asts[i].state_count() {
            Some(part) => part,
            None => {
                return None;
            },
        };
        total = match total.checked_add(part) {
            Some(sum) => sum,
            None => {
                return None;
            },
        };
        i += 1;
    }
    Some(total)
}

/// Compiles every tree of a list.
fn compile_all(asts: &Vec<RegexAst>, Ghost(limit): Ghost<int>) -> (r: Vec<NfaData>)
    requires
        limit <= usize::MAX,
        forall|i: int|
            0 <= i < asts@.len() ==> (#[trigger] views_of(asts@)[i]).proper() && views_of(
                asts@,
            )[i].state_count() <= limit,
    ensures
        r@.len() == asts@.len(),
        automata_of(r@) == automata_for(views_of(asts@)),
    decreases asts, 0int,
{
    let mut compiled: Vec<NfaData> = Vec::new();
    let mut i: usize = 0;
    while i < asts.len()
        invariant
            i <= asts.len(),
            limit <= usize::MAX,
            forall|k: int|
                0 <= k < asts@.len() ==> (#[trigger] views_of(asts@)[k]).proper() && views_of(
                    asts@,
                )[k].state_count() <= limit,
            compiled@.len() == i,
            forall|k: int| 0 <= k < i ==> (#[trigger] compiled@[k])@ == asts@[k]@.automaton(),
        decreases asts.len() - i,
    {
        assert(views_of(asts@)[i as int] == asts@[i as int]@);
        let nfa = asts[i].compile_to_nfa_data();
        compiled.push(nfa);
        i += 1;
    }
    assert(automata_of(compiled@) =~= automata_for(views_of(asts@)));
    compiled
}

} // verus!
