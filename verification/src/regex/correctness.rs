//! The automaton of an expression accepts the language of the expression.

use crate::nfa::nfa_manipulations::Automaton;
use crate::nfa::thompson::{
    accepted_in_row, accepted_repeatedly, all_well_formed, lemma_concat_first_accepts,
    lemma_epsilon_accepts, lemma_literal_accepts, lemma_star_accepts, lemma_union_all_accepts,
};
use crate::regex::alphabet::Alphabet;
use crate::regex::automaton::automata_for;
use crate::regex::language::denotes_first;
use crate::regex::regex_tree::Expression;
use vstd::prelude::*;

verus! {

/// The automaton of a proper expression is well formed, and it accepts the
/// words that the expression matches.
pub proof fn lemma_automaton_language(e: Expression, word: Seq<Alphabet>)
    requires
        e.proper(),
    ensures
        e.automaton().well_formed(),
        e.automaton().accepts(word) == e.denotes(word),
    decreases e, 1int, 0int,
{
    match e {
        Expression::Epsilon => {
            lemma_epsilon_accepts(word);
        },
        Expression::Literal(a) => {
            lemma_literal_accepts(a, word);
        },
        Expression::Star(inner) => {
            lemma_automaton_language(*inner, word);
            lemma_star_accepts(inner.automaton(), word);
            lemma_star_language(e, word);
        },
        Expression::Concatenation(items) => {
            let nfas = automata_for(items);
            lemma_automata_well_formed(items);
            lemma_concat_first_accepts(nfas, items.len() as int, word);
            lemma_row_language(items, items.len() as int, word);
        },
        Expression::Alternation(items) => {
            let nfas = automata_for(items);
            lemma_automata_well_formed(items);
            lemma_union_all_accepts(nfas, word);
            if exists|i: int| 0 <= i < nfas.len() && (#[trigger] nfas[i]).accepts(word) {
                let i = choose|i: int| 0 <= i < nfas.len() && (#[trigger] nfas[i]).accepts(word);
                lemma_automaton_language(items[i], word);
                assert(items[i].denotes(word));
            }
            if e.denotes(word) {
                let i = choose|i: int| 0 <= i < items.len() && (#[trigger] items[i]).denotes(word);
                lemma_automaton_language(items[i], word);
                assert(nfas[i].accepts(word));
            }
        },
    }
}

/// The automata of proper expressions are well formed.
proof fn lemma_automata_well_formed(items: Seq<Expression>)
    requires
        forall|i: int| 0 <= i < items.len() ==> (#[trigger] items[i]).proper(),
    ensures
        all_well_formed(automata_for(items)),
    decreases items, 0int, 0int,
{
    assert forall|i: int| 0 <= i < items.len() implies (#[trigger] automata_for(
        items,
    )[i]).well_formed() by {
        lemma_automaton_language(items[i], Seq::empty());
    }
}

/// The words made of words that the automaton of an expression accepts
/// are the words that the star of the expression matches.
proof fn lemma_star_language(e: Expression, word: Seq<Alphabet>)
    requires
        e is Star,
        e.proper(),
    ensures
        accepted_repeatedly(e->Star_0.automaton(), word) == e.denotes(word),
    decreases e, 0int, word.len(),
{
    let inner = *e->Star_0;
    let nfa = inner.automaton();
    if word.len() > 0 {
        if accepted_repeatedly(nfa, word) {
            let k = choose|k: int|
                0 <= k < word.len() && accepted_repeatedly(nfa, #[trigger] word.take(k))
                    && nfa.accepts(word.skip(k));
            lemma_star_language(e, word.take(k));
            lemma_automaton_language(inner, word.skip(k));
            assert(e.denotes(word.take(k)) && inner.denotes(word.skip(k)));
        }
        if e.denotes(word) {
            let k = choose|k: int|
                0 <= k < word.len() && e.denotes(#[trigger] word.take(k)) && inner.denotes(
                    word.skip(k),
                );
            lemma_star_language(e, word.take(k));
            lemma_automaton_language(inner, word.skip(k));
            assert(accepted_repeatedly(nfa, word.take(k)) && nfa.accepts(word.skip(k)));
        }
    }
}

/// The words made of one word for each of the automata of a row of
/// expressions are the words made of one word for each of the expressions.
proof fn lemma_row_language(items: Seq<Expression>, count: int, word: Seq<Alphabet>)
    requires
        forall|i: int| 0 <= i < items.len() ==> (#[trigger] items[i]).proper(),
        1 <= count <= items.len(),
    ensures
        accepted_in_row(automata_for(items), count, word) == denotes_first(items, count, word),
    decreases items, 0int, count,
{
    let nfas = automata_for(items);
    if count <= 1 {
        lemma_automaton_language(items[0], word);
        if items[0].denotes(word) {
            assert(word.take(0).len() == 0);
            assert(word.skip(0) =~= word);
            assert(denotes_first(items, 0, word.take(0)) && items[0].denotes(word.skip(0)));
        }
        if denotes_first(items, count, word) {
            let k = choose|k: int|
                0 <= k <= word.len() && denotes_first(items, count - 1, #[trigger] word.take(k))
                    && items[count - 1].denotes(word.skip(k));
            assert(k == 0);
            assert(word.skip(0) =~= word);
        }
    } else {
        if accepted_in_row(nfas, count, word) {
            let k = choose|k: int|
                0 <= k <= word.len() && accepted_in_row(nfas, count - 1, #[trigger] word.take(k))
                    && nfas[count - 1].accepts(word.skip(k));
            lemma_row_language(items, count - 1, word.take(k));
            lemma_automaton_language(items[count - 1], word.skip(k));
            assert(denotes_first(items, count - 1, word.take(k)) && items[count - 1].denotes(
                word.skip(k),
            ));
        }
        if denotes_first(items, count, word) {
            let k = choose|k: int|
                0 <= k <= word.len() && denotes_first(items, count - 1, #[trigger] word.take(k))
                    && items[count - 1].denotes(word.skip(k));
            lemma_row_language(items, count - 1, word.take(k));
            lemma_automaton_language(items[count - 1], word.skip(k));
            assert(accepted_in_row(nfas, count - 1, word.take(k)) && nfas[count - 1].accepts(
                word.skip(k),
            ));
        }
    }
}

} // verus!
