//! The syntax tree of a regular expression, its printed forms and the
//! letters it uses.

use crate::regex::alphabet::{lemma_letter_reads_back, Alphabet, ALPHABET_SIZE};
use vstd::prelude::*;

verus! {

/// An abstract syntax tree of a regular expression which denotes a nonempty
/// language over [`Alphabet`].
///
/// There is no expression for the empty language: a quiz whose answer
/// matches nothing would be of no interest.
///
/// In text, `Epsilon` is the character `ε`, a literal is its letter in
/// either case, `Star` is the postfix operator `*`, alternation is the infix
/// operator `|` and concatenation has no symbol. `Star` binds tightest, then
/// concatenation, then alternation: `ab*|cd` reads `(a((b)*))|(cd)`.
#[derive(Debug, PartialEq, Eq)]
pub enum RegexAst {
    /// The expression that matches the empty word.
    Epsilon,
    /// An expression that matches the word of one letter.
    Literal(Alphabet),
    /// An expression that matches any repetition of words matching the inner
    /// expression.
    Star(Box<RegexAst>),
    /// An expression that matches if all expressions match successively.
    Concatenation(Vec<RegexAst>),
    /// An expression that matches if one of the expressions matches.
    Alternation(Vec<RegexAst>),
}

/// The mathematical value of a [`RegexAst`]: the same tree, with sequences
/// for its lists of children.
pub enum Expression {
    Epsilon,
    Literal(Alphabet),
    Star(Box<Expression>),
    Concatenation(Seq<Expression>),
    Alternation(Seq<Expression>),
}

impl View for RegexAst {
    type V = Expression;

    open spec fn view(&self) -> Expression {
        expression_of(*self)
    }
}

/// The value of a tree.
pub open spec fn expression_of(tree: RegexAst) -> Expression
    decreases tree,
{
    match tree {
        RegexAst::Epsilon => Expression::Epsilon,
        RegexAst::Literal(a) => Expression::Literal(a),
        RegexAst::Star(inner) => Expression::Star(Box::new(expression_of(*inner))),
        RegexAst::Concatenation(items) => Expression::Concatenation(views_of(items@)),
        RegexAst::Alternation(items) => Expression::Alternation(views_of(items@)),
    }
}

/// The values of a list of trees.
pub open spec fn views_of(items: Seq<RegexAst>) -> Seq<Expression>
    decreases items,
{
    Seq::new(
        items.len(),
        |i: int|
            if 0 <= i < items.len() {
                expression_of(items[i])
            } else {
                Expression::Epsilon
            },
    )
}

impl Expression {
    /// The children of a concatenation or an alternation; of a star, its one
    /// inner expression.
    pub open spec fn children(self) -> Seq<Expression> {
        match self {
            Expression::Epsilon => Seq::empty(),
            Expression::Literal(_) => Seq::empty(),
            Expression::Star(inner) => seq![*inner],
            Expression::Concatenation(items) => items,
            Expression::Alternation(items) => items,
        }
    }

    /// The number of nodes of the tree.
    pub open spec fn node_count(self) -> nat
        decreases self,
    {
        match self {
            Expression::Epsilon => 1,
            Expression::Literal(_) => 1,
            Expression::Star(inner) => 1 + inner.node_count(),
            Expression::Concatenation(items) => 1 + node_count_first(items, items.len() as int),
            Expression::Alternation(items) => 1 + node_count_first(items, items.len() as int),
        }
    }

    /// Canonical form: every concatenation and every alternation in the
    /// tree has at least two children.
    pub open spec fn canonical(self) -> bool
        decreases self,
    {
        match self {
            Expression::Epsilon => true,
            Expression::Literal(_) => true,
            Expression::Star(inner) => inner.canonical(),
            Expression::Concatenation(items) => items.len() >= 2 && forall|i: int|
                0 <= i < items.len() ==> (#[trigger] items[i]).canonical(),
            Expression::Alternation(items) => items.len() >= 2 && forall|i: int|
                0 <= i < items.len() ==> (#[trigger] items[i]).canonical(),
        }
    }

    /// Whether the letter `x` occurs in the tree.
    pub open spec fn uses(self, x: Alphabet) -> bool
        decreases self,
    {
        match self {
            Expression::Epsilon => false,
            Expression::Literal(a) => a == x,
            Expression::Star(inner) => inner.uses(x),
            Expression::Concatenation(items) => exists|i: int|
                0 <= i < items.len() && (#[trigger] items[i]).uses(x),
            Expression::Alternation(items) => exists|i: int|
                0 <= i < items.len() && (#[trigger] items[i]).uses(x),
        }
    }

    /// The set of the letters that occur in the tree.
    pub open spec fn used_alphabets(self) -> Set<Alphabet> {
        Set::new(|x: Alphabet| self.uses(x))
    }

    /// The letters that occur in the tree, in alphabetical order.
    pub open spec fn used_letters(self) -> Seq<Alphabet> {
        used_first(self, 10)
    }

    /// The canonical text of the expression, fully parenthesized: `ε`, a
    /// lower-case letter, `(x)*`, `(xyz)` or `(x|y|z)`.
    pub open spec fn render(self) -> Seq<char>
        decreases self,
    {
        match self {
            Expression::Epsilon => seq!['ε'],
            Expression::Literal(a) => seq![a.letter()],
            Expression::Star(inner) => seq!['('] + inner.render() + seq![')', '*'],
            Expression::Concatenation(items) => seq!['('] + render_from(
                items,
                Seq::empty(),
                0,
            ) + seq![')'],
            Expression::Alternation(items) => seq!['('] + render_from(items, seq!['|'], 0)
                + seq![')'],
        }
    }

    /// The expression as a pattern of a general-purpose regular-expression
    /// engine, which has no `ε`: the empty word is written `(.{0})`.
    pub open spec fn pattern(self) -> Seq<char>
        decreases self,
    {
        match self {
            Expression::Epsilon => seq!['(', '.', '{', '0', '}', ')'],
            Expression::Literal(a) => seq![a.letter()],
            Expression::Star(inner) => seq!['('] + inner.pattern() + seq![')', '*'],
            Expression::Concatenation(items) => seq!['('] + pattern_from(
                items,
                Seq::empty(),
                0,
            ) + seq![')'],
            Expression::Alternation(items) => seq!['('] + pattern_from(items, seq!['|'], 0)
                + seq![')'],
        }
    }
}

/// The number of nodes of the first `count` trees of `items`, added up.
pub open spec fn node_count_first(items: Seq<Expression>, count: int) -> nat
    decreases items, count,
{
    if count <= 0 || count > items.len() {
        0
    } else {
        node_count_first(items, count - 1) + items[count - 1].node_count()
    }
}

/// The texts of `items[from..]` in a row, with `separator` before each but
/// the first of `items`.
pub open spec fn render_from(items: Seq<Expression>, separator: Seq<char>, from: int) -> Seq<
    char,
>
    decreases items, items.len() - from,
{
    if 0 <= from < items.len() {
        (if from > 0 {
            separator
        } else {
            Seq::empty()
        }) + items[from].render() + render_from(items, separator, from + 1)
    } else {
        Seq::empty()
    }
}

/// The patterns of `items[from..]` in a row, with `separator` before each
/// but the first of `items`.
pub open spec fn pattern_from(items: Seq<Expression>, separator: Seq<char>, from: int) -> Seq<
    char,
>
    decreases items, items.len() - from,
{
    if 0 <= from < items.len() {
        (if from > 0 {
            separator
        } else {
            Seq::empty()
        }) + items[from].pattern() + pattern_from(items, separator, from + 1)
    } else {
        Seq::empty()
    }
}

/// The letters among the first `count` of the alphabet that occur in the
/// tree, in alphabetical order.
pub open spec fn used_first(e: Expression, count: int) -> Seq<Alphabet>
    decreases count,
{
    if count <= 0 {
        Seq::empty()
    } else if e.uses(Alphabet::at(count - 1)) {
        used_first(e, count - 1).push(Alphabet::at(count - 1))
    } else {
        used_first(e, count - 1)
    }
}

/// A list of letters in alphabetical order, none twice.
pub open spec fn ascending(letters: Seq<Alphabet>) -> bool {
    forall|i: int, j: int|
        0 <= i < j < letters.len() ==> (#[trigger] letters[i]).ordinal() < (
        #[trigger] letters[j]).ordinal()
}

impl Clone for RegexAst {
    fn clone(&self) -> (r: Self)
        ensures
            r@ == self@,
        decreases self,
    {
        match self {
            RegexAst::Epsilon => RegexAst::Epsilon,
            RegexAst::Literal(a) => RegexAst::Literal(*a),
            RegexAst::Star(inner) => RegexAst::Star(Box::new((&**inner).clone())),
            RegexAst::Concatenation(items) => RegexAst::Concatenation(clone_all(items)),
            RegexAst::Alternation(items) => RegexAst::Alternation(clone_all(items)),
        }
    }
}

/// Copies a list of trees.
fn clone_all(items: &Vec<RegexAst>) -> (r: Vec<RegexAst>)
    ensures
        views_of(r@) == views_of(items@),
    decreases items,
{
    let mut out: Vec<RegexAst> = Vec::new();
    let mut i: usize = 0;
    while i < items.len()
        invariant
            i <= items.len(),
            out@.len() == i,
            forall|k: int| 0 <= k < i ==> (#[trigger] out@[k])@ == items@[k]@,
        decreases items.len() - i,
    {
        let item = items[i].clone();
        out.push(item);
        i += 1;
    }
    assert(views_of(out@) =~= views_of(items@));
    out
}

impl RegexAst {
    /// The canonical text of the expression.
    pub fn to_string(&self) -> (s: String)
        ensures
            s@ == self@.render(),
    {
        let mut out = String::new();
        self.write_text(&mut out);
        assert(out@ =~= self@.render());
        out
    }

    /// Appends the canonical text of the expression to `out`.
    fn write_text(&self, out: &mut String)
        ensures
            final(out)@ == old(out)@ + self@.render(),
        decreases self, 1int,
    {
        proof {
            reveal_strlit("ε");
            reveal_strlit("(");
            reveal_strlit(")");
            reveal_strlit(")*");
            reveal_strlit("|");
            reveal_strlit("");
        }
        match self {
            RegexAst::Epsilon => {
                out.append("ε");
                assert("ε"@ =~= seq!['ε']);
            },
            RegexAst::Literal(a) => {
                out.append(a.as_str());
            },
            RegexAst::Star(inner) => {
                out.append("(");
                inner.write_text(out);
                out.append(")*");
                assert(out@ =~= old(out)@ + self@.render());
            },
            RegexAst::Concatenation(items) => {
                out.append("(");
                assert(""@ =~= Seq::<char>::empty());
                write_texts(items, "", out);
                out.append(")");
                assert(out@ =~= old(out)@ + self@.render());
            },
            RegexAst::Alternation(items) => {
                out.append("(");
                assert("|"@ =~= seq!['|']);
                write_texts(items, "|", out);
                out.append(")");
                assert(out@ =~= old(out)@ + self@.render());
            },
        }
    }

    /// Compiles the tree to a pattern that does not use an `ε`.
    pub fn compile_to_epsilonless_regex(&self) -> (s: String)
        ensures
            s@ == self@.pattern(),
    {
        let mut out = String::new();
        self.write_pattern(&mut out);
        assert(out@ =~= self@.pattern());
        out
    }

    /// Appends the pattern of the expression to `out`.
    fn write_pattern(&self, out: &mut String)
        ensures
            final(out)@ == old(out)@ + self@.pattern(),
        decreases self, 1int,
    {
        proof {
            reveal_strlit("(.{0})");
            reveal_strlit("(");
            reveal_strlit(")");
            reveal_strlit(")*");
            reveal_strlit("|");
            reveal_strlit("");
        }
        match self {
            RegexAst::Epsilon => {
                out.append("(.{0})");
                assert("(.{0})"@ =~= seq!['(', '.', '{', '0', '}', ')']);
            },
            RegexAst::Literal(a) => {
                out.append(a.as_str());
            },
            RegexAst::Star(inner) => {
                out.append("(");
                inner.write_pattern(out);
                out.append(")*");
                assert(out@ =~= old(out)@ + self@.pattern());
            },
            RegexAst::Concatenation(items) => {
                out.append("(");
                assert(""@ =~= Seq::<char>::empty());
                write_patterns(items, "", out);
                out.append(")");
                assert(out@ =~= old(out)@ + self@.pattern());
            },
            RegexAst::Alternation(items) => {
                out.append("(");
                assert("|"@ =~= seq!['|']);
                write_patterns(items, "|", out);
                out.append(")");
                assert(out@ =~= old(out)@ + self@.pattern());
            },
        }
    }

    /// For each letter, by its position in the alphabet, whether it occurs
    /// in the tree.
    pub fn letter_flags(&self) -> (seen: Vec<bool>)
        ensures
            seen@.len() == ALPHABET_SIZE,
            forall|k: int| 0 <= k < 10 ==> #[trigger] seen@[k] == self@.uses(Alphabet::at(k)),
    {
        let mut seen: Vec<bool> = Vec::new();
        let mut n: usize = 0;
        while n < ALPHABET_SIZE
            invariant
                n <= ALPHABET_SIZE,
                seen@.len() == n,
                forall|k: int| 0 <= k < n ==> !seen@[k],
            decreases ALPHABET_SIZE - n,
        {
            seen.push(false);
            n += 1;
        }
        self.mark_used(&mut seen);
        seen
    }

    /// The letters used within this tree, in alphabetical order, each once.
    pub fn used_alphabets(&self) -> (letters: Vec<Alphabet>)
        ensures
            letters@ == self@.used_letters(),
            ascending(letters@),
            letters@.to_set() == self@.used_alphabets(),
    {
        let seen = self.letter_flags();
        let mut letters: Vec<Alphabet> = Vec::new();
        let mut i: usize = 0;
        while i < ALPHABET_SIZE
            invariant
                i <= ALPHABET_SIZE,
                seen@.len() == ALPHABET_SIZE,
                forall|k: int| 0 <= k < 10 ==> #[trigger] seen@[k] == self@.uses(Alphabet::at(k)),
                letters@ == used_first(self@, i as int),
                ascending(letters@),
                forall|k: int| 0 <= k < letters@.len() ==> (#[trigger] letters@[k]).ordinal() < i,
                forall|k: int|
                    0 <= k < letters@.len() ==> self@.uses(#[trigger] letters@[k]),
                forall|k: int|
                    0 <= k < i && self@.uses(Alphabet::at(k)) ==> letters@.contains(
                        #[trigger] Alphabet::at(k),
                    ),
            decreases ALPHABET_SIZE - i,
        {
            if seen[i] {
                let ghost before = letters@;
                letters.push(Alphabet::from_index(i));
                assert forall|k: int|
                    0 <= k < i + 1 && self@.uses(Alphabet::at(k)) implies letters@.contains(
                    #[trigger] Alphabet::at(k),
                ) by {
                    if k < i {
                        let w = choose|w: int| 0 <= w < before.len() && before[w] == Alphabet::at(k);
                        assert(letters@[w] == Alphabet::at(k));
                    } else {
                        assert(letters@[letters@.len() - 1] == Alphabet::at(k));
                    }
                }
            }
            i += 1;
        }
        proof {
            assert forall|x: Alphabet| letters@.to_set().contains(x) == self@.uses(x) by {
                lemma_letter_reads_back(x);
                if self@.uses(x) {
                    assert(letters@.contains(Alphabet::at(x.ordinal())));
                }
            }
            assert(letters@.to_set() =~= self@.used_alphabets());
        }
        letters
    }

    /// Sets the flag of every letter that occurs in the tree.
    fn mark_used(&self, seen: &mut Vec<bool>)
        requires
            old(seen)@.len() == ALPHABET_SIZE,
        ensures
            final(seen)@.len() == ALPHABET_SIZE,
            forall|k: int|
                0 <= k < 10 ==> #[trigger] final(seen)@[k] == (old(seen)@[k] || self@.uses(
                    Alphabet::at(k),
                )),
        decreases self, 1int,
    {
        match self {
            RegexAst::Epsilon => {},
            RegexAst::Literal(a) => {
                let i = a.index();
                seen.set(i, true);
                proof {
                    lemma_letter_reads_back(*a);
                    assert forall|k: int| 0 <= k < 10 implies #[trigger] seen@[k] == (old(seen)@[k]
                        || self@.uses(Alphabet::at(k))) by {
                        lemma_letter_reads_back(Alphabet::at(k));
                    }
                }
            },
            RegexAst::Star(inner) => {
                inner.mark_used(seen);
            },
            RegexAst::Concatenation(items) => {
                mark_all_used(items, seen);
                proof {
                    let all = views_of(items@);
                    assert(all.len() == items@.len());
                    assert(self@.children() == all);
                    assert forall|k: int| 0 <= k < 10 implies #[trigger] seen@[k] == (old(seen)@[k]
                        || self@.uses(Alphabet::at(k))) by {
                        let x = Alphabet::at(k);
                        assert(self@.uses(x) == (exists|i: int|
                            0 <= i < all.len() && (#[trigger] all[i]).uses(x)));
                    }
                }
            },
            RegexAst::Alternation(items) => {
                mark_all_used(items, seen);
                proof {
                    let all = views_of(items@);
                    assert(all.len() == items@.len());
                    assert(self@.children() == all);
                    assert forall|k: int| 0 <= k < 10 implies #[trigger] seen@[k] == (old(seen)@[k]
                        || self@.uses(Alphabet::at(k))) by {
                        let x = Alphabet::at(k);
                        assert(self@.uses(x) == (exists|i: int|
                            0 <= i < all.len() && (#[trigger] all[i]).uses(x)));
                    }
                }
            },
        }
    }
}

/// Appends the texts of `items` to `out`, with `separator` between them.
fn write_texts(items: &Vec<RegexAst>, separator: &str, out: &mut String)
    ensures
        final(out)@ == old(out)@ + render_from(views_of(items@), separator@, 0),
    decreases items, 0int,
{
    let ghost all = views_of(items@);
    let mut i: usize = 0;
    while i < items.len()
        invariant
            i <= items.len(),
            all == views_of(items@),
            out@ + render_from(all, separator@, i as int) == old(out)@ + render_from(
                all,
                separator@,
                0,
            ),
        decreases items.len() - i,
    {
        let ghost before = out@;
        if i > 0 {
            out.append(separator);
        }
        items[i].write_text(out);
        assert(out@ + render_from(all, separator@, i + 1) =~= before + render_from(
            all,
            separator@,
            i as int,
        ));
        i += 1;
    }
    assert(out@ =~= out@ + render_from(all, separator@, i as int));
}

/// Appends the patterns of `items` to `out`, with `separator` between them.
fn write_patterns(items: &Vec<RegexAst>, separator: &str, out: &mut String)
    ensures
        final(out)@ == old(out)@ + pattern_from(views_of(items@), separator@, 0),
    decreases items, 0int,
{
    let ghost all = views_of(items@);
    let mut i: usize = 0;
    while i < items.len()
        invariant
            i <= items.len(),
            all == views_of(items@),
            out@ + pattern_from(all, separator@, i as int) == old(out)@ + pattern_from(
                all,
                separator@,
                0,
            ),
        decreases items.len() - i,
    {
        let ghost before = out@;
        if i > 0 {
            out.append(separator);
        }
        items[i].write_pattern(out);
        assert(out@ + pattern_from(all, separator@, i + 1) =~= before + pattern_from(
            all,
            separator@,
            i as int,
        ));
        i += 1;
    }
    assert(out@ =~= out@ + pattern_from(all, separator@, i as int));
}

/// Sets the flag of every letter that occurs in one of `items`.
fn mark_all_used(items: &Vec<RegexAst>, seen: &mut Vec<bool>)
    requires
        old(seen)@.len() == ALPHABET_SIZE,
    ensures
        final(seen)@.len() == ALPHABET_SIZE,
        forall|k: int|
            0 <= k < 10 ==> #[trigger] final(seen)@[k] == (old(seen)@[k] || exists|i: int|
                0 <= i < items@.len() && (#[trigger] views_of(items@)[i]).uses(Alphabet::at(k))),
    decreases items, 0int,
{
    let ghost all = views_of(items@);
    let mut i: usize = 0;
    while i < items.len()
        invariant
            i <= items.len(),
            all == views_of(items@),
            seen@.len() == ALPHABET_SIZE,
            forall|k: int|
                0 <= k < 10 ==> #[trigger] seen@[k] == (old(seen)@[k] || exists|j: int|
                    0 <= j < i && (#[trigger] all[j]).uses(Alphabet::at(k))),
        decreases items.len() - i,
    {
        let ghost before = seen@;
        items[i].mark_used(seen);
        proof {
            assert forall|k: int| 0 <= k < 10 implies #[trigger] seen@[k] == (old(seen)@[k]
                || exists|j: int| 0 <= j < i + 1 && (#[trigger] all[j]).uses(Alphabet::at(k))) by {
                assert(seen@[k] == (before[k] || all[i as int].uses(Alphabet::at(k))));
                if seen@[k] && !old(seen)@[k] {
                    if before[k] {
                        let j = choose|j: int| 0 <= j < i && (#[trigger] all[j]).uses(Alphabet::at(k));
                        assert(0 <= j < i + 1 && all[j].uses(Alphabet::at(k)));
                    } else {
                        assert(all[i as int].uses(Alphabet::at(k)));
                    }
                }
            }
        }
        i += 1;
    }
}

} // verus!
