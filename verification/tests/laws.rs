use regexsoup::errors::{CommandError, ParseError};
use regexsoup::regex::generate_quiz::generate_ast_smaller_than;
use regexsoup::regex::{randomly_generate, Alphabet, AlphabetSet, Difficulty, RegexAst};

const TEXTS: [&str; 14] = [
    "ε",
    "a",
    "J",
    "abc",
    "ab|c",
    "ab*|cd",
    "a**",
    "(a*)*",
    "((a))",
    "(a|b)*",
    "a*(ba*)*",
    "ε|εεε*",
    "(agb|c*)g",
    "a(b|(cd|e)*f)*|g**h",
];

fn words_up_to(letters: &[Alphabet], length: usize) -> Vec<Vec<Alphabet>> {
    let mut all = vec![vec![]];
    let mut last = vec![vec![]];
    for _ in 0..length {
        let mut next = Vec::new();
        for word in &last {
            for letter in letters {
                let mut longer: Vec<Alphabet> = word.clone();
                longer.push(*letter);
                next.push(longer);
            }
        }
        all.extend(next.iter().cloned());
        last = next;
    }
    all
}

#[test]
fn printing_and_parsing_gives_the_expression_back() {
    for text in TEXTS {
        let ast = RegexAst::parse_str(text).unwrap();
        let printed = ast.to_string();
        let again = RegexAst::parse_str(&printed).unwrap();
        assert_eq!(again, ast, "{}", text);
        assert_eq!(again.to_string(), printed, "{}", text);
    }
}

#[test]
fn a_list_of_one_part_prints_with_parentheses_that_parsing_drops() {
    let single = RegexAst::Concatenation(vec![RegexAst::Literal(Alphabet::A)]);
    assert_eq!(single.to_string(), "(a)");
    assert_eq!(RegexAst::parse_str("(a)").unwrap(), RegexAst::Literal(Alphabet::A));
}

#[test]
fn stars_in_a_row_are_one_star() {
    let once = RegexAst::Star(Box::new(RegexAst::Literal(Alphabet::A)));
    assert_eq!(RegexAst::parse_str("a*").unwrap(), once);
    assert_eq!(RegexAst::parse_str("a***").unwrap(), once);
    assert_eq!(
        RegexAst::parse_str("(a*)*").unwrap(),
        RegexAst::Star(Box::new(RegexAst::Star(Box::new(RegexAst::Literal(Alphabet::A)))))
    );
}

#[test]
fn generated_expressions_parse_from_their_text() {
    for _ in 0..5 {
        let ast = randomly_generate(&Difficulty(3)).expect("an expression");
        let printed = ast.to_string();
        let parsed = RegexAst::parse_str(&printed).unwrap();
        assert!(parsed.equivalent_to(&ast), "{}", printed);
    }
}

#[test]
fn words_read_back_in_either_case() {
    let word = vec![Alphabet::A, Alphabet::J, Alphabet::E, Alphabet::A, Alphabet::I];
    let text = Alphabet::slice_to_plain_string(&word);
    assert_eq!(text, "ajeai");
    assert_eq!(Alphabet::vec_from_str(&text).unwrap(), word);
    assert_eq!(Alphabet::vec_from_str(&text.to_uppercase()).unwrap(), word);
    assert_eq!(Alphabet::vec_from_str("aJeAi").unwrap(), word);
    assert_eq!(Alphabet::vec_from_str("").unwrap(), vec![]);
    let all = "abcdefghij";
    let letters = Alphabet::vec_from_str(all).unwrap();
    assert_eq!(letters.len(), 10);
    assert_eq!(Alphabet::slice_to_plain_string(&letters), all);
    for (position, letter) in letters.iter().enumerate() {
        assert_eq!(letter.index(), position);
        assert_eq!(Alphabet::from_index(position), *letter);
        assert_eq!(letter.to_string(), all[position..position + 1]);
        assert_eq!(Some(letter.to_char()), all.chars().nth(position));
    }
}

#[test]
fn the_first_character_that_is_no_letter_is_reported() {
    assert_eq!(
        Alphabet::vec_from_str("abkz"),
        Err(CommandError::InvalidInputs { invalid: vec!["k".to_string()] })
    );
    assert_eq!(
        Alphabet::vec_from_str("ε"),
        Err(CommandError::InvalidInputs { invalid: vec!["ε".to_string()] })
    );
    assert_eq!(Alphabet::from_char(&'h'), Ok(Alphabet::H));
    assert_eq!(Alphabet::from_char(&'H'), Ok(Alphabet::H));
    assert_eq!(
        Alphabet::from_char(&'*'),
        Err(CommandError::InvalidInputs { invalid: vec!["*".to_string()] })
    );
    assert_eq!(Alphabet::symbol('j'), Some(Alphabet::J));
    assert_eq!(Alphabet::symbol('k'), None);
}

#[test]
fn malformed_expressions_are_refused() {
    let cases = vec![
        ("", ParseError::IncompleteInput { position: 0 }),
        ("a|", ParseError::IncompleteInput { position: 2 }),
        ("(", ParseError::IncompleteInput { position: 1 }),
        ("a(", ParseError::IncompleteInput { position: 2 }),
        ("*", ParseError::UnknownLiteral { position: 0 }),
        ("|a", ParseError::UnknownLiteral { position: 0 }),
        ("a||b", ParseError::UnknownLiteral { position: 2 }),
        ("()", ParseError::UnknownLiteral { position: 1 }),
        ("z", ParseError::UnknownLiteral { position: 0 }),
        ("az", ParseError::UnknownLiteral { position: 1 }),
        ("a|K", ParseError::UnknownLiteral { position: 2 }),
        ("(a", ParseError::UnbalancedParenthesis { position: 2 }),
        ("(a|b", ParseError::UnbalancedParenthesis { position: 4 }),
        ("((a)", ParseError::UnbalancedParenthesis { position: 4 }),
        ("(a1)", ParseError::UnbalancedParenthesis { position: 2 }),
        ("a)", ParseError::UnbalancedParenthesis { position: 1 }),
        ("(a))", ParseError::UnbalancedParenthesis { position: 3 }),
        ("a b", ParseError::TrailingInput { position: 1 }),
        ("a+", ParseError::TrailingInput { position: 1 }),
        ("aεé", ParseError::TrailingInput { position: 2 }),
    ];
    for (text, error) in cases {
        assert_eq!(RegexAst::parse_str(text), Err(error), "{:?}", text);
    }
}

#[test]
fn patterns_have_no_epsilon() {
    let cases = vec![
        ("ε", "(.{0})"),
        ("a", "a"),
        ("a*", "(a)*"),
        ("abε", "(ab(.{0}))"),
        ("a|b*|ε", "(a|(b)*|(.{0}))"),
    ];
    for (text, pattern) in cases {
        assert_eq!(
            RegexAst::parse_str(text).unwrap().compile_to_epsilonless_regex(),
            pattern
        );
    }
    assert_eq!(RegexAst::Concatenation(vec![]).compile_to_epsilonless_regex(), "()");
}

#[test]
fn matching_compiles_the_pattern() {
    let ast = RegexAst::parse_str("a(b|c)*").unwrap();
    assert_eq!(ast.anchored_pattern(), "^((a((b|c))*))$");
    assert!(ast.compiles());
    assert_eq!(ast.try_matches(&[Alphabet::A, Alphabet::C]), Some(true));
    assert_eq!(ast.try_matches(&[Alphabet::C]), Some(false));
    // the pattern matches the whole word, not a part of it
    assert_eq!(ast.try_matches(&[Alphabet::A, Alphabet::D]), Some(false));
    assert_eq!(ast.try_matches(&[Alphabet::D, Alphabet::A]), Some(false));
}

#[test]
fn a_pattern_nested_too_deeply_is_refused() {
    let mut ast = RegexAst::Literal(Alphabet::A);
    for _ in 0..400 {
        ast = RegexAst::Star(Box::new(ast));
    }
    assert!(!ast.compiles());
    assert_eq!(ast.try_matches(&[Alphabet::A]), None);
}

#[test]
fn equivalence_holds_of_an_expression_and_itself() {
    for text in TEXTS {
        let ast = RegexAst::parse_str(text).unwrap();
        assert!(ast.equivalent_to(&ast), "{}", text);
        assert!(ast.equivalent_to(&ast.clone()), "{}", text);
    }
}

#[test]
fn equivalence_does_not_depend_on_the_order() {
    for left in TEXTS {
        for right in TEXTS {
            let l = RegexAst::parse_str(left).unwrap();
            let r = RegexAst::parse_str(right).unwrap();
            assert_eq!(l.equivalent_to(&r), r.equivalent_to(&l), "{} and {}", left, right);
        }
    }
}

#[test]
fn equivalence_tells_the_empty_word() {
    let cases = vec![
        ("a*", "aa*", false),
        ("a*", "ε|aa*", true),
        ("a|ε", "a", false),
        ("(a|ε)(a|ε)", "ε|a|aa", true),
        ("(ab)*", "ε|a(ba)*b", true),
        ("(ab)*", "a(ba)*b", false),
        ("a|b", "b|a", true),
        ("a(b|c)", "ab|ac", true),
        ("(a*b*)*", "(a|b)*", true),
        ("(a*b*)*", "(a|b)*a", false),
        ("a", "b", false),
    ];
    for (left, right, expected) in cases {
        let l = RegexAst::parse_str(left).unwrap();
        let r = RegexAst::parse_str(right).unwrap();
        assert_eq!(l.equivalent_to(&r), expected, "{} and {}", left, right);
        assert_eq!(r.equivalent_to(&l), expected, "{} and {}", right, left);
    }
}

#[test]
fn the_automaton_accepts_what_the_matcher_matches() {
    for text in TEXTS {
        let ast = RegexAst::parse_str(text).unwrap();
        let letters = ast.used_alphabets();
        let data = ast.compile_to_nfa_data();
        let dfa = data.into_dfa(&letters);
        assert_eq!(dfa.letters(), letters.len());
        let length = if letters.len() > 3 { 4 } else { 6 };
        for word in words_up_to(&letters, length) {
            let numbers: Vec<usize> = word
                .iter()
                .map(|letter| letters.iter().position(|l| l == letter).unwrap())
                .collect();
            assert_eq!(dfa.accepts(&numbers), ast.matches(&word), "{} on {:?}", text, word);
        }
    }
}

#[test]
fn the_automaton_of_the_outside_crate_accepts_the_same() {
    for text in TEXTS {
        let ast = RegexAst::parse_str(text).unwrap();
        let letters = ast.used_alphabets();
        let data = ast.compile_to_nfa_data();
        let nfa = automata::nfa::Nfa::from_edges(data.edges().clone(), data.finals().clone());
        let length = if letters.len() > 3 { 4 } else { 6 };
        for word in words_up_to(&letters, length) {
            assert_eq!(
                nfa.contains(word.iter().copied()),
                ast.matches(&word),
                "{} on {:?}",
                text,
                word
            );
        }
    }
}

#[test]
fn the_automaton_matches_what_the_expression_denotes() {
    let cases = vec![
        ("ab|c", "ab", true),
        ("ab|c", "c", true),
        ("ab|c", "abc", false),
        ("ε|a", "", true),
        ("ε|aaa*", "a", false),
        ("ε|aaa*", "aaaa", true),
        ("a*bεcc*", "aabccc", true),
        ("a*bεcc*", "aac", false),
        ("(ab)*", "", true),
        ("(ab)*", "abab", true),
        ("(ab)*", "aba", false),
        ("a(b|c)*", "acbbc", true),
        // a letter that the expression does not use
        ("a(b|c)*", "ad", false),
        ("ε", "j", false),
    ];
    for (text, word, expected) in cases {
        let ast = RegexAst::parse_str(text).unwrap();
        let word = Alphabet::vec_from_str(word).unwrap();
        assert_eq!(ast.accepts(&word), expected, "{} on {:?}", text, word);
        assert_eq!(ast.matches(&word), expected, "{} on {:?}", text, word);
    }
    for text in TEXTS {
        let ast = RegexAst::parse_str(text).unwrap();
        let letters = ast.used_alphabets();
        for word in words_up_to(&letters, 4) {
            assert_eq!(ast.accepts(&word), ast.matches(&word), "{} on {:?}", text, word);
        }
    }
}

#[test]
fn deterministic_automata_are_tables() {
    // `a` over the letter `a`: the start, the state after `a`, and the
    // state of no return.
    let dfa = RegexAst::Literal(Alphabet::A).compile_to_nfa_data().into_dfa(&vec![Alphabet::A]);
    assert_eq!((dfa.states(), dfa.letters()), (3, 1));
    assert!(!dfa.accepts(&[]));
    assert!(dfa.accepts(&[0]));
    assert!(!dfa.accepts(&[0, 0]));
    assert!(!dfa.accepts(&[0, 0, 0]));
    // over no letter at all there is the start state only
    let dfa = RegexAst::Epsilon.compile_to_nfa_data().into_dfa(&vec![]);
    assert_eq!((dfa.states(), dfa.letters()), (1, 0));
    assert!(dfa.accepts(&[]));
    // a letter that the automaton does not know leads nowhere
    let dfa = RegexAst::parse_str("a*")
        .unwrap()
        .compile_to_nfa_data()
        .into_dfa(&vec![Alphabet::B, Alphabet::A]);
    assert_eq!(dfa.letters(), 2);
    assert!(dfa.accepts(&[]));
    assert!(dfa.accepts(&[1, 1, 1]));
    assert!(!dfa.accepts(&[1, 0, 1]));
    assert!(!dfa.accepts(&[0]));
}

#[test]
fn deterministic_automata_are_compared() {
    let letters = vec![Alphabet::A, Alphabet::B];
    let dfa = |text: &str| RegexAst::parse_str(text).unwrap().compile_to_nfa_data().into_dfa(&letters);
    assert!(dfa("(a|b)*").equivalent_to(&dfa("a*(ba*)*")));
    assert!(dfa("(a|b)*").equivalent_to(&dfa("(a|b)*")));
    assert!(!dfa("(a|b)*").equivalent_to(&dfa("(a|b)(a|b)*")));
    assert!(!dfa("a*").equivalent_to(&dfa("aa*")));
    assert!(!dfa("a*").equivalent_to(&dfa("b*")));
    assert!(dfa("a").equivalent_to(&dfa("a|a")));
    // accepting states out of order: `b|ab*` accepts in several states
    assert!(dfa("b|ab*").equivalent_to(&dfa("ab*|b")));
    assert!(!dfa("b|ab*").equivalent_to(&dfa("ab*")));
}

#[test]
fn equivalent_expressions_match_the_same_words() {
    let letters = [Alphabet::A, Alphabet::B];
    let texts = ["(a|b)*", "a*(ba*)*", "(a*b*)*", "a*b*", "(ab)*", "ε|a(ba)*b", "ab|ba", "ba|ab"];
    let words = words_up_to(&letters, 6);
    for left in texts {
        for right in texts {
            let l = RegexAst::parse_str(left).unwrap();
            let r = RegexAst::parse_str(right).unwrap();
            let same = words.iter().all(|w| l.matches(w) == r.matches(w));
            assert_eq!(l.equivalent_to(&r), same, "{} and {}", left, right);
        }
    }
}

#[test]
fn used_alphabets_are_in_order() {
    let ast = RegexAst::parse_str("j(c|a)*cε").unwrap();
    assert_eq!(ast.used_alphabets(), vec![Alphabet::A, Alphabet::C, Alphabet::J]);
    assert_eq!(RegexAst::parse_str("ε*").unwrap().used_alphabets(), vec![]);
    let flags = ast.letter_flags();
    assert_eq!(
        flags,
        vec![true, false, true, false, false, false, false, false, false, true]
    );
}

#[test]
fn equivalence_agrees_with_the_words_over_one_letter() {
    // Over one letter a word is its length. Automata of the sizes that
    // occur here are told apart, if at all, by a word shorter than 150.
    let alphabets = AlphabetSet(vec![Alphabet::A]);
    let mut trees = vec![RegexAst::Epsilon, RegexAst::Literal(Alphabet::A)];
    for _ in 0..30 {
        trees.push(generate_ast_smaller_than(&alphabets, 6));
    }
    let words: Vec<Vec<Alphabet>> = (0..150).map(|n| vec![Alphabet::A; n]).collect();
    for left in &trees {
        for right in &trees {
            let same = words.iter().all(|w| left.accepts(w) == right.accepts(w));
            assert_eq!(
                left.equivalent_to(right),
                same && left.used_alphabets() == right.used_alphabets(),
                "{} and {}",
                left.to_string(),
                right.to_string()
            );
        }
    }
}

#[test]
fn equivalent_random_expressions_match_the_same_words() {
    let letters = vec![Alphabet::A, Alphabet::B];
    let alphabets = AlphabetSet(letters.clone());
    let mut trees = Vec::new();
    for _ in 0..20 {
        trees.push(generate_ast_smaller_than(&alphabets, 7));
    }
    let words = words_up_to(&letters, 6);
    for left in &trees {
        for right in &trees {
            let same = words.iter().all(|w| left.accepts(w) == right.accepts(w));
            if left.equivalent_to(right) {
                assert!(same, "{} and {}", left.to_string(), right.to_string());
            }
        }
        for word in &words {
            assert_eq!(left.accepts(word), left.matches(word), "{}", left.to_string());
        }
    }
}
