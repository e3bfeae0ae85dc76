//! The language of an expression: the words that it matches.

use crate::regex::alphabet::Alphabet;
use crate::regex::regex_tree::Expression;
use vstd::prelude::*;

verus! {

impl Expression {
    /// Whether the expression matches the word.
    ///
    /// `ε` matches the empty word and a letter the word of that letter. A
    /// star matches the empty word, and a word that it matches followed by
    /// a word, not empty, that the inner expression matches. A
    /// concatenation matches the words made of one word for each part, in
    /// order, and an alternation what one of its parts matches.
    pub open spec fn denotes(self, word: Seq<Alphabet>) -> bool
        decreases self, word.len(),
    {
        match self {
            Expression::Epsilon => word.len() == 0,
            Expression::Literal(a) => word == seq![a],
            Expression::Star(inner) => word.len() == 0 || exists|k: int|
                0 <= k < word.len() && self.denotes(#[trigger] word.take(k)) && inner.denotes(
                    word.skip(k),
                ),
            Expression::Concatenation(items) => denotes_first(items, items.len() as int, word),
            Expression::Alternation(items) => exists|i: int|
                0 <= i < items.len() && (#[trigger] items[i]).denotes(word),
        }
    }
}

/// Whether the word is made of one word for each of the first `count`
/// expressions, in order.
pub open spec fn denotes_first(items: Seq<Expression>, count: int, word: Seq<Alphabet>) -> bool
    decreases items, count,
{
    if count <= 0 || count > items.len() {
        word.len() == 0
    } else {
        exists|k: int|
            0 <= k <= word.len() && denotes_first(items, count - 1, #[trigger] word.take(k))
                && items[count - 1].denotes(word.skip(k))
    }
}

/// A word that an expression matches is made of letters of the expression.
pub proof fn lemma_matched_letters_are_used(e: Expression, word: Seq<Alphabet>, at: int)
    requires
        e.denotes(word),
        0 <= at < word.len(),
    ensures
        e.uses(word[at]),
    decreases e, word.len(),
{
    match e {
        Expression::Epsilon => {},
        Expression::Literal(a) => {},
        Expression::Star(inner) => {
            let k = choose|k: int|
                0 <= k < word.len() && e.denotes(#[trigger] word.take(k)) && inner.denotes(
                    word.skip(k),
                );
            if at < k {
                lemma_matched_letters_are_used(e, word.take(k), at);
            } else {
                lemma_matched_letters_are_used(*inner, word.skip(k), at - k);
            }
        },
        Expression::Concatenation(items) => {
            lemma_row_letters_are_used(items, items.len() as int, word, at);
        },
        Expression::Alternation(items) => {
            let i = choose|i: int| 0 <= i < items.len() && (#[trigger] items[i]).denotes(word);
            lemma_matched_letters_are_used(items[i], word, at);
        },
    }
}

/// A word made of words of the first `count` expressions is made of their
/// letters.
pub proof fn lemma_row_letters_are_used(
    items: Seq<Expression>,
    count: int,
    word: Seq<Alphabet>,
    at: int,
)
    requires
        0 <= count <= items.len(),
        denotes_first(items, count, word),
        0 <= at < word.len(),
    ensures
        exists|i: int| 0 <= i < count && (#[trigger] items[i]).uses(word[at]),
    decreases items, count,
{
    if count > 0 {
        let k = choose|k: int|
            0 <= k <= word.len() && denotes_first(items, count - 1, #[trigger] word.take(k))
                && items[count - 1].denotes(word.skip(k));
        if at < k {
            lemma_row_letters_are_used(items, count - 1, word.take(k), at);
            let i = choose|i: int| 0 <= i < count - 1 && (#[trigger] items[i]).uses(word.take(k)[at]);
            assert(items[i].uses(word[at]));
        } else {
            lemma_matched_letters_are_used(items[count - 1], word.skip(k), at - k);
            assert(items[count - 1].uses(word[at]));
        }
    }
}

/// No proper expression denotes the empty language, and a letter of a
/// proper expression occurs in a word that the expression matches.
pub proof fn lemma_used_letters_are_matched(e: Expression, x: Option<Alphabet>) -> (word: Seq<
    Alphabet,
>)
    requires
        e.proper(),
        x matches Some(a) ==> e.uses(a),
    ensures
        e.denotes(word),
        x matches Some(a) ==> word.contains(a),
    decreases e, 0int,
{
    match e {
        Expression::Epsilon => Seq::empty(),
        Expression::Literal(a) => {
            let word = seq![a];
            assert(word[0] == a);
            word
        },
        Expression::Star(inner) => {
            if x is Some {
                let word = lemma_used_letters_are_matched(*inner, x);
                if word.len() > 0 {
                    assert(e.denotes(word.take(0)));
                    assert(word.skip(0) =~= word);
                }
                word
            } else {
                Seq::empty()
            }
        },
        Expression::Concatenation(items) => {
            lemma_row_is_matched(items, items.len() as int, x)
        },
        Expression::Alternation(items) => {
            let i = if x is Some {
                choose|i: int| 0 <= i < items.len() && (#[trigger] items[i]).uses(x->0)
            } else {
                0
            };
            lemma_used_letters_are_matched(items[i], x)
        },
    }
}

/// Proper expressions in a row match a word, and one in which a given
/// letter of theirs occurs.
pub proof fn lemma_row_is_matched(items: Seq<Expression>, count: int, x: Option<Alphabet>) -> (word:
    Seq<Alphabet>)
    requires
        0 <= count <= items.len(),
        forall|i: int| 0 <= i < items.len() ==> (#[trigger] items[i]).proper(),
    ensures
        denotes_first(items, count, word),
        x matches Some(a) ==> (exists|i: int| 0 <= i < count && (#[trigger] items[i]).uses(a))
            ==> word.contains(a),
    decreases items, count,
{
    if count == 0 {
        Seq::empty()
    } else {
        let last = items[count - 1];
        let wanted = x is Some && last.uses(x->0);
        let front = lemma_row_is_matched(items, count - 1, x);
        let back = lemma_used_letters_are_matched(
            last,
            if wanted {
                x
            } else {
                None
            },
        );
        let word = front + back;
        assert(word.take(front.len() as int) =~= front);
        assert(word.skip(front.len() as int) =~= back);
        if x is Some {
            let a = x->0;
            if exists|i: int| 0 <= i < count && (#[trigger] items[i]).uses(a) {
                if wanted {
                    let p = choose|p: int| 0 <= p < back.len() && back[p] == a;
                    assert(word[front.len() + p] == a);
                } else {
                    let i = choose|i: int| 0 <= i < count && (#[trigger] items[i]).uses(a);
                    assert(0 <= i < count - 1);
                    let p = choose|p: int| 0 <= p < front.len() && front[p] == a;
                    assert(word[p] == a);
                }
            }
        }
        word
    }
}

/// Proper expressions that use different letters denote different
/// languages: a word that one of them matches holds a letter that the
/// other does not use and so does not match.
pub proof fn lemma_different_letters_different_languages(
    e: Expression,
    another: Expression,
) -> (word: Seq<Alphabet>)
    requires
        e.proper(),
        another.proper(),
        e.used_alphabets() != another.used_alphabets(),
    ensures
        e.denotes(word) != another.denotes(word),
{
    assert(!(e.used_alphabets() =~= another.used_alphabets()));
    let x = choose|x: Alphabet| e.used_alphabets().contains(x) != another.used_alphabets().contains(x);
    if e.uses(x) {
        let word = lemma_used_letters_are_matched(e, Some(x));
        let p = choose|p: int| 0 <= p < word.len() && word[p] == x;
        if another.denotes(word) {
            lemma_matched_letters_are_used(another, word, p);
        }
        word
    } else {
        let word = lemma_used_letters_are_matched(another, Some(x));
        let p = choose|p: int| 0 <= p < word.len() && word[p] == x;
        if e.denotes(word) {
            lemma_matched_letters_are_used(e, word, p);
        }
        word
    }
}

} // verus!
