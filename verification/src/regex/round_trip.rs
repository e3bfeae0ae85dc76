//! Printing an expression and parsing the text gives the expression back.

use crate::errors::ParseError;
use crate::regex::alphabet::lemma_letter_reads_back;
use crate::regex::grammar::{
    all_canonical, alternatives_at, atom_at, concatenation_at, expression_at, joined_alternation,
    joined_concatenation, parse, repetition_at, repetitions_at, stars_at, starts_atom, Parsed,
};
use crate::regex::regex_tree::{render_from, Expression};
use vstd::prelude::*;

verus! {

/// The characters of `piece` stand in `text` from position `at` on.
pub open spec fn holds_at(text: Seq<char>, at: int, piece: Seq<char>) -> bool {
    &&& 0 <= at
    &&& at + piece.len() <= text.len()
    &&& forall|i: int| 0 <= i < piece.len() ==> text[at + i] == #[trigger] piece[i]
}

/// No `*` stands at `at`.
pub open spec fn no_star(text: Seq<char>, at: int) -> bool {
    at >= text.len() || text[at] != '*'
}

/// Neither a `*` nor the beginning of an atom stands at `at`.
pub open spec fn ends_concatenation(text: Seq<char>, at: int) -> bool {
    at >= text.len() || (text[at] != '*' && !starts_atom(text[at]))
}

/// Neither a `*`, a `|` nor the beginning of an atom stands at `at`.
pub open spec fn ends_expression(text: Seq<char>, at: int) -> bool {
    at >= text.len() || (text[at] != '*' && text[at] != '|' && !starts_atom(text[at]))
}

proof fn lemma_holds_split(text: Seq<char>, at: int, x: Seq<char>, y: Seq<char>)
    requires
        holds_at(text, at, x + y),
    ensures
        holds_at(text, at, x),
        holds_at(text, at + x.len(), y),
{
    let piece = x + y;
    assert forall|i: int| 0 <= i < x.len() implies text[at + i] == #[trigger] x[i] by {
        assert(piece[i] == x[i]);
    }
    assert forall|i: int| 0 <= i < y.len() implies text[at + x.len() + i] == #[trigger] y[i] by {
        assert(piece[x.len() + i] == y[i]);
    }
}

proof fn lemma_holds_char(text: Seq<char>, at: int, piece: Seq<char>, i: int)
    requires
        holds_at(text, at, piece),
        0 <= i < piece.len(),
    ensures
        text[at + i] == piece[i],
{
    assert(piece[i] == piece[i]);
}

/// A printed expression is not empty and begins with `ε`, a letter or `(`.
proof fn lemma_render_head(e: Expression)
    ensures
        e.render().len() >= 1,
        starts_atom(e.render()[0]),
        e.render()[0] != '*',
        e.render()[0] != '|',
        e.render()[0] != ')',
{
    match e {
        Expression::Epsilon => {},
        Expression::Literal(a) => {
            lemma_letter_reads_back(a);
        },
        Expression::Star(inner) => {
            assert(e.render()[0] == '(');
        },
        Expression::Concatenation(items) => {
            assert(e.render()[0] == '(');
        },
        Expression::Alternation(items) => {
            assert(e.render()[0] == '(');
        },
    }
}

/// A printed row of expressions that is not at its end is not empty; it
/// begins with the separator where one is due, else as its first expression
/// does.
proof fn lemma_render_from_head(items: Seq<Expression>, separator: Seq<char>, from: int)
    requires
        0 <= from < items.len(),
        separator.len() <= 1,
    ensures
        render_from(items, separator, from).len() >= 1,
        render_from(items, separator, from)[0] == if from > 0 && separator.len() == 1 {
            separator[0]
        } else {
            items[from].render()[0]
        },
{
    lemma_render_head(items[from]);
}

/// Where nothing that begins an atom stands at `at`, no repetition is read.
proof fn lemma_nothing_to_repeat(text: Seq<char>, at: int)
    requires
        0 <= at,
        at >= text.len() || !starts_atom(text[at]),
    ensures
        repetition_at(text, at) == Parsed::<Expression>::Absent,
{
    assert(atom_at(text, at) == Parsed::<Expression>::Absent);
}

/// The text of a canonical expression, with no `*` behind it, is read as
/// one repetition: the expression itself.
proof fn lemma_reads_repetition(e: Expression, text: Seq<char>, at: int)
    requires
        e.canonical(),
        holds_at(text, at, e.render()),
        no_star(text, at + e.render().len()),
    ensures
        repetition_at(text, at) == (Parsed::Found { value: e, next: at + e.render().len() }),
    decreases e, 0int,
{
    let r = e.render();
    let end = at + r.len();
    assert(stars_at(text, end) == 0);
    match e {
        Expression::Epsilon => {
            lemma_holds_char(text, at, r, 0);
        },
        Expression::Literal(a) => {
            lemma_holds_char(text, at, r, 0);
            lemma_letter_reads_back(a);
        },
        Expression::Star(inner) => {
            let ri = inner.render();
            lemma_holds_split(text, at, seq!['('] + ri, seq![')', '*']);
            lemma_holds_split(text, at, seq!['('], ri);
            lemma_holds_char(text, at, seq!['('], 0);
            lemma_holds_char(text, at + 1 + ri.len(), seq![')', '*'], 0);
            lemma_holds_char(text, at + 1 + ri.len(), seq![')', '*'], 1);
            lemma_reads_expression(*inner, text, at + 1);
            assert(atom_at(text, at) == (Parsed::Found {
                value: *inner,
                next: at + 2 + ri.len(),
            }));
            assert(stars_at(text, at + 2 + ri.len()) == 1 + stars_at(text, at + 3 + ri.len()));
        },
        Expression::Concatenation(items) => {
            let row = render_from(items, Seq::empty(), 0);
            lemma_holds_split(text, at, seq!['('] + row, seq![')']);
            lemma_holds_split(text, at, seq!['('], row);
            lemma_holds_char(text, at, seq!['('], 0);
            lemma_holds_char(text, at + 1 + row.len(), seq![')'], 0);
            lemma_render_from_head(items, Seq::empty(), 0);
            lemma_reads_row(items, 0, text, at + 1, Seq::empty());
            assert(Seq::<Expression>::empty() + items.subrange(0, items.len() as int) =~= items);
            assert(concatenation_at(text, at + 1) == (Parsed::Found {
                value: e,
                next: at + 1 + row.len(),
            }));
            assert(alternatives_at(text, at + 1 + row.len(), seq![e]) == (Parsed::Found {
                value: seq![e],
                next: at + 1 + row.len(),
            }));
            assert(expression_at(text, at + 1) == (Parsed::Found {
                value: e,
                next: at + 1 + row.len(),
            }));
            assert(atom_at(text, at) == (Parsed::Found { value: e, next: end }));
        },
        Expression::Alternation(items) => {
            let bar = seq!['|'];
            let row = render_from(items, bar, 0);
            let first = items[0].render();
            let rest = render_from(items, bar, 1);
            lemma_holds_split(text, at, seq!['('] + row, seq![')']);
            lemma_holds_split(text, at, seq!['('], row);
            lemma_holds_char(text, at, seq!['('], 0);
            lemma_holds_char(text, at + 1 + row.len(), seq![')'], 0);
            assert(row =~= first + rest);
            lemma_holds_split(text, at + 1, first, rest);
            lemma_render_from_head(items, bar, 1);
            lemma_render_head(items[0]);
            lemma_holds_char(text, at + 1 + first.len(), rest, 0);
            lemma_reads_concatenation(items[0], text, at + 1);
            lemma_reads_alternatives(items, 1, text, at + 1 + first.len(), seq![items[0]]);
            assert(seq![items[0]] + items.subrange(1, items.len() as int) =~= items);
            assert(expression_at(text, at + 1) == (Parsed::Found {
                value: e,
                next: at + 1 + row.len(),
            }));
            assert(atom_at(text, at) == (Parsed::Found { value: e, next: end }));
        },
    }
}

/// The text of a canonical expression, with nothing behind it that
/// continues a concatenation, is read as a concatenation of one part.
proof fn lemma_reads_concatenation(e: Expression, text: Seq<char>, at: int)
    requires
        e.canonical(),
        holds_at(text, at, e.render()),
        ends_concatenation(text, at + e.render().len()),
    ensures
        concatenation_at(text, at) == (Parsed::Found { value: e, next: at + e.render().len() }),
    decreases e, 1int,
{
    let end = at + e.render().len();
    lemma_render_head(e);
    lemma_reads_repetition(e, text, at);
    lemma_nothing_to_repeat(text, end);
    assert(Seq::<Expression>::empty().push(e) =~= seq![e]);
    assert(repetitions_at(text, end, seq![e]) == (Parsed::Found { value: seq![e], next: end }));
    assert(repetitions_at(text, at, Seq::empty()) == repetitions_at(text, end, seq![e]));
    assert(joined_concatenation(seq![e]) == e);
}

/// The text of a canonical expression, with nothing behind it that
/// continues an expression, is read as that expression.
proof fn lemma_reads_expression(e: Expression, text: Seq<char>, at: int)
    requires
        e.canonical(),
        holds_at(text, at, e.render()),
        ends_expression(text, at + e.render().len()),
    ensures
        expression_at(text, at) == (Parsed::Found { value: e, next: at + e.render().len() }),
    decreases e, 2int,
{
    let end = at + e.render().len();
    lemma_render_head(e);
    lemma_reads_concatenation(e, text, at);
    assert(alternatives_at(text, end, seq![e]) == (Parsed::Found { value: seq![e], next: end }));
    assert(joined_alternation(seq![e]) == e);
}

/// The texts of canonical expressions in a row are read as repetitions, one
/// for one.
proof fn lemma_reads_row(
    items: Seq<Expression>,
    from: int,
    text: Seq<char>,
    at: int,
    before: Seq<Expression>,
)
    requires
        0 <= from <= items.len(),
        forall|i: int| 0 <= i < items.len() ==> (#[trigger] items[i]).canonical(),
        holds_at(text, at, render_from(items, Seq::empty(), from)),
        ends_concatenation(text, at + render_from(items, Seq::empty(), from).len()),
    ensures
        repetitions_at(text, at, before) == (Parsed::Found {
            value: before + items.subrange(from, items.len() as int),
            next: at + render_from(items, Seq::empty(), from).len(),
        }),
    decreases items, items.len() - from,
{
    let none = Seq::<char>::empty();
    let row = render_from(items, none, from);
    if from == items.len() {
        lemma_nothing_to_repeat(text, at);
        assert(before + items.subrange(from, items.len() as int) =~= before);
    } else {
        let first = items[from].render();
        let rest = render_from(items, none, from + 1);
        assert(row =~= first + rest);
        lemma_holds_split(text, at, first, rest);
        lemma_render_head(items[from]);
        if from + 1 < items.len() {
            lemma_render_from_head(items, none, from + 1);
            lemma_render_head(items[from + 1]);
            lemma_holds_char(text, at + first.len(), rest, 0);
        }
        lemma_reads_repetition(items[from], text, at);
        lemma_reads_row(items, from + 1, text, at + first.len(), before.push(items[from]));
        assert(before.push(items[from]) + items.subrange(from + 1, items.len() as int) =~= before
            + items.subrange(from, items.len() as int));
    }
}

/// The texts of canonical expressions, each behind a `|`, are read as
/// alternatives, one for one.
proof fn lemma_reads_alternatives(
    items: Seq<Expression>,
    from: int,
    text: Seq<char>,
    at: int,
    before: Seq<Expression>,
)
    requires
        1 <= from <= items.len(),
        forall|i: int| 0 <= i < items.len() ==> (#[trigger] items[i]).canonical(),
        holds_at(text, at, render_from(items, seq!['|'], from)),
        ends_expression(text, at + render_from(items, seq!['|'], from).len()),
    ensures
        alternatives_at(text, at, before) == (Parsed::Found {
            value: before + items.subrange(from, items.len() as int),
            next: at + render_from(items, seq!['|'], from).len(),
        }),
    decreases items, items.len() - from,
{
    let bar = seq!['|'];
    let row = render_from(items, bar, from);
    if from == items.len() {
        assert(before + items.subrange(from, items.len() as int) =~= before);
    } else {
        let first = items[from].render();
        let rest = render_from(items, bar, from + 1);
        assert(row =~= (bar + first) + rest);
        lemma_holds_split(text, at, bar + first, rest);
        lemma_holds_split(text, at, bar, first);
        lemma_holds_char(text, at, bar, 0);
        lemma_render_head(items[from]);
        if from + 1 < items.len() {
            lemma_render_from_head(items, bar, from + 1);
            lemma_holds_char(text, at + 1 + first.len(), rest, 0);
        }
        lemma_reads_concatenation(items[from], text, at + 1);
        lemma_reads_alternatives(
            items,
            from + 1,
            text,
            at + 1 + first.len(),
            before.push(items[from]),
        );
        assert(before.push(items[from]) + items.subrange(from + 1, items.len() as int) =~= before
            + items.subrange(from, items.len() as int));
    }
}

/// Round trip: the canonical text of an expression in canonical form
/// parses, and it parses to that expression. The parsed expression
/// therefore prints as the expression does.
pub proof fn lemma_parse_render(e: Expression)
    requires
        e.canonical(),
    ensures
        parse(e.render()) == Ok::<Expression, ParseError>(e),
{
    let text = e.render();
    assert(holds_at(text, 0, text));
    lemma_reads_expression(e, text, 0);
}

/// What holds of a construct that was read: it is in canonical form and
/// takes at least one character of the text.
pub open spec fn well_read(p: Parsed<Expression>, text: Seq<char>, at: int) -> bool {
    p matches Parsed::Found { value, next } ==> value.canonical() && at < next <= text.len()
}

/// What holds of a list that was read behind the list `before`: it begins
/// with `before`, and what follows is in canonical form.
pub open spec fn list_well_read(
    p: Parsed<Seq<Expression>>,
    before: Seq<Expression>,
    text: Seq<char>,
    at: int,
) -> bool {
    p matches Parsed::Found { value, next } ==> value.len() >= before.len() && at <= next
        <= text.len() && (all_canonical(before) ==> all_canonical(value))
}

/// An atom that was read is in canonical form.
proof fn lemma_atom_well_read(text: Seq<char>, at: int)
    ensures
        well_read(atom_at(text, at), text, at),
    decreases text.len() - at, 0int,
{
    if 0 <= at < text.len() && text[at] == '(' {
        lemma_expression_well_read(text, at + 1);
    }
}

/// The stars behind an atom stand within the text.
proof fn lemma_stars_within(text: Seq<char>, at: int)
    requires
        0 <= at <= text.len(),
    ensures
        0 <= stars_at(text, at) <= text.len() - at,
    decreases text.len() - at,
{
    if at < text.len() && text[at] == '*' {
        lemma_stars_within(text, at + 1);
    }
}

/// A repetition that was read is in canonical form.
proof fn lemma_repetition_well_read(text: Seq<char>, at: int)
    ensures
        well_read(repetition_at(text, at), text, at),
    decreases text.len() - at, 1int,
{
    lemma_atom_well_read(text, at);
    if atom_at(text, at) is Found {
        lemma_stars_within(text, atom_at(text, at)->next);
    }
}

/// Repetitions that were read are in canonical form.
proof fn lemma_repetitions_well_read(text: Seq<char>, at: int, before: Seq<Expression>)
    ensures
        list_well_read(repetitions_at(text, at, before), before, text, at) || at > text.len()
            || at < 0,
        repetitions_at(text, at, before) matches Parsed::Found { value, next } ==> (value.len()
            > before.len() ==> next > at),
    decreases text.len() - at, 2int,
{
    lemma_repetition_well_read(text, at);
    match repetition_at(text, at) {
        Parsed::Found { value, next } => {
            if !(next <= at || next > text.len()) {
                lemma_repetitions_well_read(text, next, before.push(value));
                if all_canonical(before) {
                    assert(all_canonical(before.push(value))) by {
                        assert forall|i: int| 0 <= i < before.push(value).len() implies (
                        #[trigger] before.push(value)[i]).canonical() by {
                            if i < before.len() {
                                assert(before.push(value)[i] == before[i]);
                            }
                        }
                    }
                }
            }
        },
        _ => {},
    }
}

/// A concatenation that was read is in canonical form.
proof fn lemma_concatenation_well_read(text: Seq<char>, at: int)
    ensures
        well_read(concatenation_at(text, at), text, at) || at > text.len() || at < 0,
    decreases text.len() - at, 3int,
{
    lemma_repetitions_well_read(text, at, Seq::empty());
    assert(all_canonical(Seq::<Expression>::empty()));
    match repetitions_at(text, at, Seq::empty()) {
        Parsed::Found { value, next } => {
            if value.len() >= 1 {
                assert(value[0].canonical());
                assert(joined_concatenation(value).canonical());
            }
        },
        _ => {},
    }
}

/// Alternatives that were read are in canonical form.
proof fn lemma_alternatives_well_read(text: Seq<char>, at: int, before: Seq<Expression>)
    ensures
        list_well_read(alternatives_at(text, at, before), before, text, at) || at > text.len()
            || at < 0,
    decreases text.len() - at, 4int,
{
    if 0 <= at < text.len() && text[at] == '|' {
        lemma_concatenation_well_read(text, at + 1);
        match concatenation_at(text, at + 1) {
            Parsed::Found { value, next } => {
                if !(next <= at || next > text.len()) {
                    lemma_alternatives_well_read(text, next, before.push(value));
                    if all_canonical(before) {
                        assert(all_canonical(before.push(value))) by {
                            assert forall|i: int| 0 <= i < before.push(value).len() implies (
                            #[trigger] before.push(value)[i]).canonical() by {
                                if i < before.len() {
                                    assert(before.push(value)[i] == before[i]);
                                }
                            }
                        }
                    }
                }
            },
            _ => {},
        }
    }
}

/// An expression that was read is in canonical form.
proof fn lemma_expression_well_read(text: Seq<char>, at: int)
    ensures
        well_read(expression_at(text, at), text, at) || at > text.len() || at < 0,
    decreases text.len() - at, 5int,
{
    lemma_concatenation_well_read(text, at);
    match concatenation_at(text, at) {
        Parsed::Found { value, next } => {
            if !(next <= at || next > text.len()) {
                lemma_alternatives_well_read(text, next, seq![value]);
                assert(value.canonical() ==> all_canonical(seq![value]));
            }
        },
        _ => {},
    }
}

/// The expression that a text denotes is in canonical form.
pub proof fn lemma_parsed_is_canonical(text: Seq<char>)
    ensures
        parse(text) matches Ok(e) ==> e.canonical(),
{
    lemma_expression_well_read(text, 0);
}

/// Round trip: the expression that a text denotes is denoted by its own
/// canonical text as well, so that parsing, printing and parsing again
/// changes nothing.
pub proof fn lemma_parse_render_parse(text: Seq<char>)
    ensures
        parse(text) matches Ok(e) ==> parse(e.render()) == Ok::<Expression, ParseError>(e),
{
    lemma_parsed_is_canonical(text);
    if parse(text) is Ok {
        lemma_parse_render(parse(text)->Ok_0);
    }
}

} // verus!
