//! The ten letters that expressions and words are made of.

use crate::errors::CommandError;
use vstd::prelude::*;

verus! {

/// A letter of the alphabet. The letters are ordered `A` first, `J` last.
#[derive(Copy, Clone, Debug, PartialEq, Eq, Hash, PartialOrd, Ord, Structural)]
pub enum Alphabet {
    A,
    B,
    C,
    D,
    E,
    F,
    G,
    H,
    I,
    J,
}

/// The number of letters.
pub const ALPHABET_SIZE: usize = 10;

/// The letter that a character stands for, in either case.
pub open spec fn symbol_of(c: char) -> Option<Alphabet> {
    if c == 'a' || c == 'A' {
        Some(Alphabet::A)
    } else if c == 'b' || c == 'B' {
        Some(Alphabet::B)
    } else if c == 'c' || c == 'C' {
        Some(Alphabet::C)
    } else if c == 'd' || c == 'D' {
        Some(Alphabet::D)
    } else if c == 'e' || c == 'E' {
        Some(Alphabet::E)
    } else if c == 'f' || c == 'F' {
        Some(Alphabet::F)
    } else if c == 'g' || c == 'G' {
        Some(Alphabet::G)
    } else if c == 'h' || c == 'H' {
        Some(Alphabet::H)
    } else if c == 'i' || c == 'I' {
        Some(Alphabet::I)
    } else if c == 'j' || c == 'J' {
        Some(Alphabet::J)
    } else {
        None
    }
}

/// The letters that a text spells, if every character of it is a letter.
pub open spec fn symbols_of(text: Seq<char>) -> Option<Seq<Alphabet>> {
    if forall|i: int| 0 <= i < text.len() ==> symbol_of(#[trigger] text[i]) is Some {
        Some(Seq::new(text.len(), |i: int| symbol_of(text[i])->0))
    } else {
        None
    }
}

/// The position of the first character of a text that is no letter.
pub open spec fn first_invalid(text: Seq<char>) -> int
    decreases text.len(),
{
    if text.len() == 0 || symbol_of(text[0]) is None {
        0
    } else {
        1 + first_invalid(text.drop_first())
    }
}

/// A word written out in lower case.
pub open spec fn word_text(word: Seq<Alphabet>) -> Seq<char> {
    Seq::new(word.len(), |i: int| word[i].letter())
}

/// The first `count` letters of the alphabet, in order.
pub open spec fn leading_letters(count: nat) -> Seq<Alphabet> {
    Seq::new(if count < 10 { count } else { 10 }, |i: int| Alphabet::at(i))
}

impl Alphabet {
    /// The position of the letter in the alphabet, from 0.
    pub open spec fn ordinal(self) -> int {
        match self {
            Alphabet::A => 0,
            Alphabet::B => 1,
            Alphabet::C => 2,
            Alphabet::D => 3,
            Alphabet::E => 4,
            Alphabet::F => 5,
            Alphabet::G => 6,
            Alphabet::H => 7,
            Alphabet::I => 8,
            Alphabet::J => 9,
        }
    }

    /// The letter at a position of the alphabet.
    pub open spec fn at(position: int) -> Alphabet {
        if position <= 0 {
            Alphabet::A
        } else if position == 1 {
            Alphabet::B
        } else if position == 2 {
            Alphabet::C
        } else if position == 3 {
            Alphabet::D
        } else if position == 4 {
            Alphabet::E
        } else if position == 5 {
            Alphabet::F
        } else if position == 6 {
            Alphabet::G
        } else if position == 7 {
            Alphabet::H
        } else if position == 8 {
            Alphabet::I
        } else {
            Alphabet::J
        }
    }

    /// The lower-case character of the letter.
    pub open spec fn letter(self) -> char {
        match self {
            Alphabet::A => 'a',
            Alphabet::B => 'b',
            Alphabet::C => 'c',
            Alphabet::D => 'd',
            Alphabet::E => 'e',
            Alphabet::F => 'f',
            Alphabet::G => 'g',
            Alphabet::H => 'h',
            Alphabet::I => 'i',
            Alphabet::J => 'j',
        }
    }

    /// The upper-case character of the letter.
    pub open spec fn capital(self) -> char {
        match self {
            Alphabet::A => 'A',
            Alphabet::B => 'B',
            Alphabet::C => 'C',
            Alphabet::D => 'D',
            Alphabet::E => 'E',
            Alphabet::F => 'F',
            Alphabet::G => 'G',
            Alphabet::H => 'H',
            Alphabet::I => 'I',
            Alphabet::J => 'J',
        }
    }

    /// The position of the letter in the alphabet.
    pub fn index(self) -> (r: usize)
        ensures
            r == self.ordinal(),
            r < ALPHABET_SIZE,
    {
        match self {
            Alphabet::A => 0,
            Alphabet::B => 1,
            Alphabet::C => 2,
            Alphabet::D => 3,
            Alphabet::E => 4,
            Alphabet::F => 5,
            Alphabet::G => 6,
            Alphabet::H => 7,
            Alphabet::I => 8,
            Alphabet::J => 9,
        }
    }

    /// The letter at `position`.
    pub fn from_index(position: usize) -> (r: Alphabet)
        requires
            position < ALPHABET_SIZE,
        ensures
            r == Alphabet::at(position as int),
            r.ordinal() == position,
    {
        if position == 0 {
            Alphabet::A
        } else if position == 1 {
            Alphabet::B
        } else if position == 2 {
            Alphabet::C
        } else if position == 3 {
            Alphabet::D
        } else if position == 4 {
            Alphabet::E
        } else if position == 5 {
            Alphabet::F
        } else if position == 6 {
            Alphabet::G
        } else if position == 7 {
            Alphabet::H
        } else if position == 8 {
            Alphabet::I
        } else {
            Alphabet::J
        }
    }

    /// The lower-case character of the letter.
    pub fn to_char(self) -> (c: char)
        ensures
            c == self.letter(),
    {
        match self {
            Alphabet::A => 'a',
            Alphabet::B => 'b',
            Alphabet::C => 'c',
            Alphabet::D => 'd',
            Alphabet::E => 'e',
            Alphabet::F => 'f',
            Alphabet::G => 'g',
            Alphabet::H => 'h',
            Alphabet::I => 'i',
            Alphabet::J => 'j',
        }
    }

    /// The letter as a lower-case string slice of one character.
    pub fn as_str(self) -> (s: &'static str)
        ensures
            s@ == seq![self.letter()],
    {
        proof {
            reveal_strlit("a");
            reveal_strlit("b");
            reveal_strlit("c");
            reveal_strlit("d");
            reveal_strlit("e");
            reveal_strlit("f");
            reveal_strlit("g");
            reveal_strlit("h");
            reveal_strlit("i");
            reveal_strlit("j");
        }
        let s = match self {
            Alphabet::A => "a",
            Alphabet::B => "b",
            Alphabet::C => "c",
            Alphabet::D => "d",
            Alphabet::E => "e",
            Alphabet::F => "f",
            Alphabet::G => "g",
            Alphabet::H => "h",
            Alphabet::I => "i",
            Alphabet::J => "j",
        };
        assert(s@ =~= seq![self.letter()]);
        s
    }

    /// The letter printed: its lower-case character.
    pub fn to_string(&self) -> (s: String)
        ensures
            s@ == seq![self.letter()],
    {
        self.as_str().to_owned()
    }

    /// The letter that a character stands for, in either case.
    pub fn symbol(c: char) -> (r: Option<Alphabet>)
        ensures
            r == symbol_of(c),
    {
        if c == 'a' || c == 'A' {
            Some(Alphabet::A)
        } else if c == 'b' || c == 'B' {
            Some(Alphabet::B)
        } else if c == 'c' || c == 'C' {
            Some(Alphabet::C)
        } else if c == 'd' || c == 'D' {
            Some(Alphabet::D)
        } else if c == 'e' || c == 'E' {
            Some(Alphabet::E)
        } else if c == 'f' || c == 'F' {
            Some(Alphabet::F)
        } else if c == 'g' || c == 'G' {
            Some(Alphabet::G)
        } else if c == 'h' || c == 'H' {
            Some(Alphabet::H)
        } else if c == 'i' || c == 'I' {
            Some(Alphabet::I)
        } else if c == 'j' || c == 'J' {
            Some(Alphabet::J)
        } else {
            None
        }
    }

    /// Reads a letter from a character of either case; any other character
    /// is reported as invalid input.
    pub fn from_char(input: &char) -> (r: Result<Alphabet, CommandError>)
        ensures
            match r {
                Ok(a) => symbol_of(*input) == Some(a),
                Err(e) => symbol_of(*input) is None && invalid_input_of(e, *input),
            },
    {
        match Alphabet::symbol(*input) {
            Some(a) => Ok(a),
            None => {
                let mut invalid: Vec<String> = Vec::new();
                invalid.push(char_to_string(*input));
                Err(CommandError::InvalidInputs { invalid })
            },
        }
    }

    /// Reads a word from a text, letter by letter. The first character that
    /// is no letter is reported, alone, as invalid input.
    pub fn vec_from_str(string: &str) -> (r: Result<Vec<Alphabet>, CommandError>)
        ensures
            match r {
                Ok(word) => symbols_of(string@) == Some(word@),
                Err(e) => symbols_of(string@) is None && 0 <= first_invalid(string@)
                    < string@.len() && invalid_input_of(
                    e,
                    string@[first_invalid(string@)],
                ),
            },
    {
        let mut word: Vec<Alphabet> = Vec::new();
        for c in it: string.chars()
            invariant
                it.seq() == string@,
                word@.len() == it.index(),
                forall|i: int|
                    0 <= i < it.index() ==> symbol_of(#[trigger] string@[i]) == Some(word@[i]),
        {
            match Alphabet::from_char(&c) {
                Ok(a) => {
                    word.push(a);
                },
                Err(e) => {
                    proof {
                        lemma_first_invalid(string@, it.index() as int);
                    }
                    return Err(e);
                },
            }
        }
        assert(word@ =~= symbols_of(string@)->0);
        Ok(word)
    }

    /// Writes a word out in lower case.
    pub fn slice_to_plain_string(word: &[Alphabet]) -> (s: String)
        ensures
            s@ == word_text(word@),
    {
        let mut s = String::new();
        let mut i: usize = 0;
        while i < word.len()
            invariant
                i <= word.len(),
                s@ == word_text(word@.take(i as int)),
            decreases word.len() - i,
        {
            s.append(word[i].as_str());
            assert(s@ =~= word_text(word@.take(i + 1)));
            i += 1;
        }
        assert(word@.take(word.len() as int) =~= word@);
        s
    }
}

/// `e` reports the single character `c` as invalid input.
pub open spec fn invalid_input_of(e: CommandError, c: char) -> bool {
    e matches CommandError::InvalidInputs { invalid } && invalid@.len() == 1 && invalid@[0]@
        == seq![c]
}

/// The string of one character, made by `char::to_string` of the standard
/// library: it holds that character and nothing else.
#[verifier::external_body]
fn char_to_string(c: char) -> (s: String)
    ensures
        s@ == seq![c],
{
    c.to_string()
}

/// Where every character before `k` is a letter and the one at `k` is not,
/// `k` is the first invalid position.
proof fn lemma_first_invalid(text: Seq<char>, k: int)
    requires
        0 <= k < text.len(),
        symbol_of(text[k]) is None,
        forall|i: int| 0 <= i < k ==> symbol_of(#[trigger] text[i]) is Some,
    ensures
        first_invalid(text) == k,
    decreases k,
{
    if k > 0 {
        let rest = text.drop_first();
        assert forall|i: int| 0 <= i < k - 1 implies symbol_of(#[trigger] rest[i]) is Some by {
            assert(rest[i] == text[i + 1]);
        }
        lemma_first_invalid(rest, k - 1);
    }
}

/// Reading a word back from its text, in lower case, in upper case or in
/// any mixture of the two, gives the word.
pub proof fn lemma_word_round_trip(word: Seq<Alphabet>, text: Seq<char>)
    requires
        text.len() == word.len(),
        forall|i: int|
            0 <= i < word.len() ==> #[trigger] text[i] == word[i].letter() || text[i]
                == word[i].capital(),
    ensures
        symbols_of(text) == Some(word),
{
    assert forall|i: int| 0 <= i < text.len() implies symbol_of(#[trigger] text[i]) == Some(
        word[i],
    ) by {
        lemma_letter_reads_back(word[i]);
    }
    assert(symbols_of(text)->0 =~= word);
}

/// Both characters of a letter read back as that letter.
pub proof fn lemma_letter_reads_back(a: Alphabet)
    ensures
        symbol_of(a.letter()) == Some(a),
        symbol_of(a.capital()) == Some(a),
        Alphabet::at(a.ordinal()) == a,
        0 <= a.ordinal() < 10,
{
}

} // verus!
