//! The grammar of expressions and the parser for it.
//!
//! From tightest to loosest: an atom is `ε`, a letter or an expression in
//! parentheses; a repetition is an atom followed by any number of `*`; a
//! concatenation is one or more repetitions in a row; an expression is one
//! or more concatenations separated by `|`. A concatenation or alternation
//! of a single part is that part itself.

use crate::errors::ParseError;
use crate::regex::alphabet::{symbol_of, Alphabet};
use crate::regex::regex_tree::{views_of, Expression, RegexAst};
use vstd::prelude::*;

verus! {

/// What reading one construct of the grammar at a position of a text gives.
pub enum Parsed<T> {
    /// The construct stands there; `next` is the position behind it.
    Found { value: T, next: int },
    /// No such construct begins there; nothing was read.
    Absent,
    /// The text is malformed.
    Failed { error: ParseError },
}

/// An ASCII letter, of either case.
pub open spec fn is_ascii_letter(c: char) -> bool {
    (0x61 <= c as u32 && c as u32 <= 0x7a) || (0x41 <= c as u32 && c as u32 <= 0x5a)
}

/// A character with which an atom may begin, or an ASCII letter that is
/// refused there.
pub open spec fn starts_atom(c: char) -> bool {
    c == 'ε' || symbol_of(c) is Some || is_ascii_letter(c) || c == '('
}

/// The error for a position at which an expression has to begin and none
/// does.
pub open spec fn missing_expression(text: Seq<char>, at: int) -> ParseError {
    if at >= text.len() {
        ParseError::IncompleteInput { position: at as usize }
    } else {
        ParseError::UnknownLiteral { position: at as usize }
    }
}

/// Reads an atom at `at`.
pub open spec fn atom_at(text: Seq<char>, at: int) -> Parsed<Expression>
    decreases text.len() - at, 0int,
{
    if at < 0 || at >= text.len() {
        Parsed::Absent
    } else if text[at] == 'ε' {
        Parsed::Found { value: Expression::Epsilon, next: at + 1 }
    } else if symbol_of(text[at]) is Some {
        Parsed::Found { value: Expression::Literal(symbol_of(text[at])->0), next: at + 1 }
    } else if is_ascii_letter(text[at]) {
        Parsed::Failed { error: ParseError::UnknownLiteral { position: at as usize } }
    } else if text[at] == '(' {
        match expression_at(text, at + 1) {
            Parsed::Found { value, next } => if next < text.len() && text[next] == ')' {
                Parsed::Found { value, next: next + 1 }
            } else {
                Parsed::Failed {
                    error: ParseError::UnbalancedParenthesis { position: next as usize },
                }
            },
            Parsed::Absent => Parsed::Failed { error: missing_expression(text, at + 1) },
            Parsed::Failed { error } => Parsed::Failed { error },
        }
    } else {
        Parsed::Absent
    }
}

/// The number of `*` in a row from `at` on.
pub open spec fn stars_at(text: Seq<char>, at: int) -> int
    decreases text.len() - at,
{
    if 0 <= at < text.len() && text[at] == '*' {
        1 + stars_at(text, at + 1)
    } else {
        0
    }
}

/// Reads a repetition at `at`: an atom and the stars behind it, which
/// together wrap it in one `Star`.
pub open spec fn repetition_at(text: Seq<char>, at: int) -> Parsed<Expression>
    decreases text.len() - at, 1int,
{
    match atom_at(text, at) {
        Parsed::Found { value, next } => Parsed::Found {
            value: if stars_at(text, next) > 0 {
                Expression::Star(Box::new(value))
            } else {
                value
            },
            next: next + stars_at(text, next),
        },
        Parsed::Absent => Parsed::Absent,
        Parsed::Failed { error } => Parsed::Failed { error },
    }
}

/// Reads repetitions from `at` on for as long as one begins, and gives
/// `before` followed by them.
pub open spec fn repetitions_at(text: Seq<char>, at: int, before: Seq<Expression>) -> Parsed<
    Seq<Expression>,
>
    decreases text.len() - at, 2int,
{
    match repetition_at(text, at) {
        // A repetition holds at least one character.
        Parsed::Found { value, next } => if next <= at || next > text.len() {
            Parsed::Absent
        } else {
            repetitions_at(text, next, before.push(value))
        },
        Parsed::Absent => Parsed::Found { value: before, next: at },
        Parsed::Failed { error } => Parsed::Failed { error },
    }
}

/// One part stands for itself; several are joined.
pub open spec fn joined_concatenation(parts: Seq<Expression>) -> Expression {
    if parts.len() == 1 {
        parts[0]
    } else {
        Expression::Concatenation(parts)
    }
}

/// One part stands for itself; several are joined.
pub open spec fn joined_alternation(parts: Seq<Expression>) -> Expression {
    if parts.len() == 1 {
        parts[0]
    } else {
        Expression::Alternation(parts)
    }
}

/// Reads a concatenation at `at`.
pub open spec fn concatenation_at(text: Seq<char>, at: int) -> Parsed<Expression>
    decreases text.len() - at, 3int,
{
    match repetitions_at(text, at, Seq::empty()) {
        Parsed::Found { value, next } => if value.len() == 0 {
            Parsed::Absent
        } else {
            Parsed::Found { value: joined_concatenation(value), next }
        },
        Parsed::Absent => Parsed::Absent,
        Parsed::Failed { error } => Parsed::Failed { error },
    }
}

/// Reads `|` and a concatenation from `at` on for as long as a `|` stands
/// there, and gives `before` followed by the concatenations.
pub open spec fn alternatives_at(text: Seq<char>, at: int, before: Seq<Expression>) -> Parsed<
    Seq<Expression>,
>
    decreases text.len() - at, 4int,
{
    if 0 <= at < text.len() && text[at] == '|' {
        match concatenation_at(text, at + 1) {
            // A concatenation holds at least one character.
            Parsed::Found { value, next } => if next <= at || next > text.len() {
                Parsed::Absent
            } else {
                alternatives_at(text, next, before.push(value))
            },
            Parsed::Absent => Parsed::Failed { error: missing_expression(text, at + 1) },
            Parsed::Failed { error } => Parsed::Failed { error },
        }
    } else {
        Parsed::Found { value: before, next: at }
    }
}

/// Reads an expression at `at`.
pub open spec fn expression_at(text: Seq<char>, at: int) -> Parsed<Expression>
    decreases text.len() - at, 5int,
{
    match concatenation_at(text, at) {
        // A concatenation holds at least one character.
        Parsed::Found { value, next } => if next <= at || next > text.len() {
            Parsed::Absent
        } else {
            match alternatives_at(text, next, seq![value]) {
                Parsed::Found { value: parts, next: end } => Parsed::Found {
                    value: joined_alternation(parts),
                    next: end,
                },
                Parsed::Absent => Parsed::Absent,
                Parsed::Failed { error } => Parsed::Failed { error },
            }
        },
        Parsed::Absent => Parsed::Absent,
        Parsed::Failed { error } => Parsed::Failed { error },
    }
}

/// The expression that a whole text denotes, or why it denotes none.
pub open spec fn parse(text: Seq<char>) -> Result<Expression, ParseError> {
    match expression_at(text, 0) {
        Parsed::Found { value, next } => if next >= text.len() {
            Ok(value)
        } else if text[next] == ')' {
            Err(ParseError::UnbalancedParenthesis { position: next as usize })
        } else {
            Err(ParseError::TrailingInput { position: next as usize })
        },
        Parsed::Absent => Err(missing_expression(text, 0)),
        Parsed::Failed { error } => Err(error),
    }
}

/// The outcome `r` of a parsing function is what the grammar says.
pub open spec fn agrees(
    r: Result<Option<(RegexAst, usize)>, ParseError>,
    p: Parsed<Expression>,
) -> bool {
    match r {
        Ok(Some((tree, next))) => p == Parsed::Found { value: tree@, next: next as int },
        Ok(None) => p == Parsed::<Expression>::Absent,
        Err(e) => p == Parsed::<Expression>::Failed { error: e },
    }
}

/// Every tree of the list is in canonical form.
pub open spec fn all_canonical(parts: Seq<Expression>) -> bool {
    forall|i: int| 0 <= i < parts.len() ==> (#[trigger] parts[i]).canonical()
}

fn ascii_letter(c: char) -> (r: bool)
    ensures
        r == is_ascii_letter(c),
{
    let n: u32 = c as u32;
    (0x61 <= n && n <= 0x7a) || (0x41 <= n && n <= 0x5a)
}

fn missing(text: &Vec<char>, at: usize) -> (e: ParseError)
    ensures
        e == missing_expression(text@, at as int),
{
    if at >= text.len() {
        ParseError::IncompleteInput { position: at }
    } else {
        ParseError::UnknownLiteral { position: at }
    }
}

/// Reads `ε`, a letter or an expression in parentheses.
fn parse_epsilon_literal_or_parens(text: &Vec<char>, at: usize) -> (r: Result<
    Option<(RegexAst, usize)>,
    ParseError,
>)
    requires
        at <= text.len(),
    ensures
        agrees(r, atom_at(text@, at as int)),
        r matches Ok(Some((tree, next))) ==> at < next <= text.len() && tree@.canonical(),
    decreases text.len() - at, 0int,
{
    if at >= text.len() {
        return Ok(None);
    }
    let c = text[at];
    if c == 'ε' {
        return Ok(Some((RegexAst::Epsilon, at + 1)));
    }
    if let Some(a) = Alphabet::symbol(c) {
        return Ok(Some((RegexAst::Literal(a), at + 1)));
    }
    if ascii_letter(c) {
        return Err(ParseError::UnknownLiteral { position: at });
    }
    if c != '(' {
        return Ok(None);
    }
    match regex_parser(text, at + 1) {
        Ok(Some((tree, next))) => {
            if next < text.len() && text[next] == ')' {
                Ok(Some((tree, next + 1)))
            } else {
                Err(ParseError::UnbalancedParenthesis { position: next })
            }
        },
        Ok(None) => Err(missing(text, at + 1)),
        Err(e) => Err(e),
    }
}

/// Reads an atom and the stars behind it.
fn parse_repetitions(text: &Vec<char>, at: usize) -> (r: Result<
    Option<(RegexAst, usize)>,
    ParseError,
>)
    requires
        at <= text.len(),
    ensures
        agrees(r, repetition_at(text@, at as int)),
        r matches Ok(Some((tree, next))) ==> at < next <= text.len() && tree@.canonical(),
    decreases text.len() - at, 1int,
{
    match parse_epsilon_literal_or_parens(text, at) {
        Ok(Some((tree, next))) => {
            let mut end: usize = next;
            while end < text.len() && text[end] == '*'
                invariant
                    next <= end <= text.len(),
                    stars_at(text@, next as int) == (end - next) + stars_at(text@, end as int),
                decreases text.len() - end,
            {
                end += 1;
            }
            if end > next {
                Ok(Some((RegexAst::Star(Box::new(tree)), end)))
            } else {
                Ok(Some((tree, end)))
            }
        },
        Ok(None) => Ok(None),
        Err(e) => Err(e),
    }
}

/// Reads one or more repetitions in a row.
fn parse_concat(text: &Vec<char>, at: usize) -> (r: Result<Option<(RegexAst, usize)>, ParseError>)
    requires
        at <= text.len(),
    ensures
        agrees(r, concatenation_at(text@, at as int)),
        r matches Ok(Some((tree, next))) ==> at < next <= text.len() && tree@.canonical(),
    decreases text.len() - at, 3int,
{
    let mut asts: Vec<RegexAst> = Vec::new();
    let mut end: usize = at;
    assert(views_of(asts@) =~= Seq::<Expression>::empty());
    loop
        invariant
            at <= end <= text.len(),
            end == at <==> asts@.len() == 0,
            all_canonical(views_of(asts@)),
            repetitions_at(text@, at as int, Seq::empty()) == repetitions_at(
                text@,
                end as int,
                views_of(asts@),
            ),
        ensures
            repetition_at(text@, end as int) == Parsed::<Expression>::Absent,
        decreases text.len() - end,
    {
        match parse_repetitions(text, end) {
            Ok(Some((tree, next))) => {
                let ghost before = views_of(asts@);
                asts.push(tree);
                assert(views_of(asts@) =~= before.push(tree@));
                end = next;
            },
            Ok(None) => {
                break ;
            },
            Err(e) => {
                return Err(e);
            },
        }
    }
    if asts.len() == 0 {
        Ok(None)
    } else if asts.len() > 1 {
        Ok(Some((RegexAst::Concatenation(asts), end)))
    } else {
        let ghost parts = views_of(asts@);
        let first = asts.pop().unwrap();
        assert(first@ == parts[0]);
        Ok(Some((first, end)))
    }
}

/// Reads an expression: one or more concatenations separated by `|`.
fn regex_parser(text: &Vec<char>, at: usize) -> (r: Result<Option<(RegexAst, usize)>, ParseError>)
    requires
        at <= text.len(),
    ensures
        agrees(r, expression_at(text@, at as int)),
        r matches Ok(Some((tree, next))) ==> at < next <= text.len() && tree@.canonical(),
    decreases text.len() - at, 5int,
{
    let (first, start) = match parse_concat(text, at) {
        Ok(Some(found)) => found,
        Ok(None) => {
            return Ok(None);
        },
        Err(e) => {
            return Err(e);
        },
    };
    let mut asts: Vec<RegexAst> = Vec::new();
    let mut end: usize = start;
    asts.push(first);
    assert(views_of(asts@) =~= seq![first@]);
    while end < text.len() && text[end] == '|'
        invariant
            at < start <= end <= text.len(),
            asts@.len() >= 1,
            concatenation_at(text@, at as int) == (Parsed::Found {
                value: first@,
                next: start as int,
            }),
            all_canonical(views_of(asts@)),
            alternatives_at(text@, start as int, seq![first@]) == alternatives_at(
                text@,
                end as int,
                views_of(asts@),
            ),
        decreases text.len() - end,
    {
        match parse_concat(text, end + 1) {
            Ok(Some((tree, next))) => {
                let ghost before = views_of(asts@);
                asts.push(tree);
                assert(views_of(asts@) =~= before.push(tree@));
                end = next;
            },
            Ok(None) => {
                return Err(missing(text, end + 1));
            },
            Err(e) => {
                return Err(e);
            },
        }
    }
    if asts.len() > 1 {
        Ok(Some((RegexAst::Alternation(asts), end)))
    } else {
        let ghost parts = views_of(asts@);
        let only = asts.pop().unwrap();
        assert(only@ == parts[0]);
        Ok(Some((only, end)))
    }
}

/// The characters of a string slice, in order.
pub(crate) fn characters(string: &str) -> (text: Vec<char>)
    ensures
        text@ == string@,
{
    let mut text: Vec<char> = Vec::new();
    for c in it: string.chars()
        invariant
            it.seq() == string@,
            text@ == it.seq().take(it.index() as int),
    {
        text.push(c);
        assert(text@ =~= it.seq().take(it.index() + 1));
    }
    assert(text@ =~= string@);
    text
}

impl RegexAst {
    /// Parses an expression. A text that the grammar does not derive is
    /// refused, with the place at which it goes wrong.
    pub fn parse_str(string: &str) -> (r: Result<RegexAst, ParseError>)
        ensures
            match r {
                Ok(tree) => parse(string@) == Ok::<Expression, ParseError>(tree@)
                    && tree@.canonical(),
                Err(e) => parse(string@) == Err::<Expression, ParseError>(e),
            },
    {
        let text = characters(string);
        match regex_parser(&text, 0) {
            Ok(Some((tree, next))) => {
                if next >= text.len() {
                    Ok(tree)
                } else if text[next] == ')' {
                    Err(ParseError::UnbalancedParenthesis { position: next })
                } else {
                    Err(ParseError::TrailingInput { position: next })
                }
            },
            Ok(None) => Err(missing(&text, 0)),
            Err(e) => Err(e),
        }
    }
}

} // verus!
