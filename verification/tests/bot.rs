use regexsoup::bot::{GiveUp, HistoryField, InspectionAcceptance, QueryMatch, Quiz};
use regexsoup::errors::{CommandError, ParseError};
use regexsoup::parser::CustomId;
use regexsoup::regex::{Alphabet, RegexAst};

fn quiz(difficulty: u8, answer: &str) -> Quiz {
    Quiz::with_answer(difficulty, RegexAst::parse_str(answer).unwrap()).unwrap()
}

#[test]
fn query_outside_the_domain_is_a_domain_error() {
    let mut quiz = quiz(2, "a*b");
    assert_eq!(
        quiz.query("c"),
        Err(CommandError::DomainError {
            invalid: vec!["c".to_string()],
            domain: vec![Alphabet::A, Alphabet::B],
        })
    );
    assert_eq!(
        quiz.query("aCdc"),
        Err(CommandError::DomainError {
            invalid: vec!["c".to_string(), "d".to_string(), "c".to_string()],
            domain: vec![Alphabet::A, Alphabet::B],
        })
    );
    assert_eq!(quiz.len(), 0);
}

#[test]
fn query_with_other_characters_is_invalid() {
    let mut quiz = quiz(3, "a*b");
    assert_eq!(
        quiz.query("abz"),
        Err(CommandError::InvalidInputs { invalid: vec!["z".to_string()] })
    );
    assert_eq!(
        quiz.query("a b"),
        Err(CommandError::InvalidInputs { invalid: vec![" ".to_string()] })
    );
    assert_eq!(
        quiz.query("\""),
        Err(CommandError::InvalidInputs { invalid: vec!["\"".to_string()] })
    );
    assert_eq!(quiz.len(), 0);
}

#[test]
fn query_answers_and_records() {
    let mut quiz = quiz(3, "a*b");
    assert_eq!(quiz.query("aab"), Ok(QueryMatch::Yes("aab".to_string())));
    assert_eq!(quiz.query("AAB"), Ok(QueryMatch::Yes("AAB".to_string())));
    assert_eq!(quiz.query("ba"), Ok(QueryMatch::No("ba".to_string())));
    assert_eq!(quiz.query("\"\""), Ok(QueryMatch::No("\"\"".to_string())));
    assert_eq!(quiz.query("aab"), Ok(QueryMatch::Yes("aab".to_string())));
    assert_eq!(quiz.len(), 4);
    let fields = quiz.get_query_history();
    let shown: Vec<(String, String, bool)> =
        fields.into_iter().map(|f| (f.name, f.value, f.inline)).collect();
    assert_eq!(
        shown,
        vec![
            ("aab".to_string(), "Yes".to_string(), true),
            ("AAB".to_string(), "Yes".to_string(), true),
            ("ba".to_string(), "No".to_string(), true),
            ("\"\"".to_string(), "No".to_string(), true),
        ]
    );
}

#[test]
fn query_of_the_empty_word() {
    let mut quiz = quiz(1, "a*");
    assert_eq!(quiz.query("\"\""), Ok(QueryMatch::Yes("\"\"".to_string())));
    assert_eq!(quiz.query(""), Ok(QueryMatch::Yes("".to_string())));
    let fields = quiz.get_query_history();
    assert_eq!(fields.len(), 2);
    assert_eq!(
        fields[1],
        HistoryField { name: "ε".to_string(), value: "Yes".to_string(), inline: true }
    );
}

#[test]
fn empty_history_says_so() {
    let quiz = quiz(1, "a");
    assert_eq!(
        quiz.get_query_history(),
        vec![HistoryField {
            name: "Nothing to show".to_string(),
            value: "-".to_string(),
            inline: false
        }]
    );
    assert_eq!(quiz.len(), 0);
}

#[test]
fn answers_print_as_lines() {
    assert_eq!(QueryMatch::Yes("ab".to_string()).to_string(), "ab => Yes");
    assert_eq!(QueryMatch::No("ab".to_string()).to_string(), "ab => No");
    assert_eq!(InspectionAcceptance::Accepted("a*".to_string()).to_string(), "a* => AC");
    assert_eq!(InspectionAcceptance::WrongAnswer("a*".to_string()).to_string(), "a* => WA");
}

#[test]
fn inspect_judges_a_guess() {
    let quiz = quiz(2, "(a|b)*");
    assert_eq!(
        quiz.inspect("a*(ba*)*"),
        Ok(InspectionAcceptance::Accepted("a*(ba*)* => AC".to_string()))
    );
    assert_eq!(
        quiz.inspect("a*b*"),
        Ok(InspectionAcceptance::WrongAnswer("a*b* => WA".to_string()))
    );
    assert_eq!(
        quiz.inspect("(a|b)(a|b)*"),
        Ok(InspectionAcceptance::WrongAnswer("(a|b)(a|b)* => WA".to_string()))
    );
}

#[test]
fn inspect_refuses_what_is_no_expression() {
    let quiz = quiz(2, "(a|b)*");
    assert_eq!(
        quiz.inspect("(a|b"),
        Err(CommandError::Syntax { error: ParseError::UnbalancedParenthesis { position: 4 } })
    );
    assert_eq!(
        quiz.inspect("a|bz"),
        Err(CommandError::Syntax { error: ParseError::UnknownLiteral { position: 3 } })
    );
}

#[test]
fn inspect_outside_the_domain_is_a_domain_error() {
    let quiz = quiz(2, "(a|b)*");
    assert_eq!(
        quiz.inspect("(c|a|j|c)*"),
        Err(CommandError::DomainError {
            invalid: vec!["c".to_string(), "j".to_string()],
            domain: vec![Alphabet::A, Alphabet::B],
        })
    );
}

#[test]
fn validate_names_the_letters_outside_the_domain() {
    let quiz = quiz(3, "a");
    assert_eq!(quiz.validate(&[]), Ok(()));
    assert_eq!(quiz.validate(&[Alphabet::A, Alphabet::C, Alphabet::B]), Ok(()));
    assert_eq!(
        quiz.validate(&[Alphabet::D, Alphabet::A, Alphabet::J, Alphabet::D]),
        Err(CommandError::DomainError {
            invalid: vec!["d".to_string(), "j".to_string(), "d".to_string()],
            domain: vec![Alphabet::A, Alphabet::B, Alphabet::C],
        })
    );
}

#[test]
fn players_join_once() {
    let mut quiz = quiz(1, "a");
    assert!(quiz.is_empty());
    assert!(!quiz.is_participant(7));
    assert_eq!(quiz.register(7), Ok(()));
    assert!(quiz.is_participant(7));
    assert!(!quiz.is_empty());
    assert_eq!(quiz.register(7), Err(CommandError::AlreadyRegistered));
    assert_eq!(quiz.register(8), Ok(()));
    assert!(quiz.is_participant(7) && quiz.is_participant(8));
}

#[test]
fn the_last_player_to_give_up_ends_the_quiz() {
    let mut quiz = quiz(2, "a|b*");
    assert_eq!(quiz.accepts_give_up(1, "one"), Err(CommandError::NotRegistered));
    quiz.register(1).unwrap();
    quiz.register(2).unwrap();
    assert_eq!(
        quiz.accepts_give_up(1, "one"),
        Ok(GiveUp::Removed("one is removed.".to_string()))
    );
    assert!(!quiz.is_participant(1));
    assert_eq!(quiz.accepts_give_up(1, "one"), Err(CommandError::NotRegistered));
    assert_eq!(
        quiz.accepts_give_up(2, "two"),
        Ok(GiveUp::Over {
            message: "There is no longer a challenger.\nThe answer is `(a|(b)*)`.\nWas the regular expression interesting as a problem?\n"
                .to_string(),
            good: CustomId::Feedback { label: "good".to_string(), regex: "(a|(b)*)".to_string() },
            bad: CustomId::Feedback { label: "bad".to_string(), regex: "(a|(b)*)".to_string() },
        })
    );
    assert!(quiz.is_empty());
}

#[test]
fn a_quiz_keeps_its_answer() {
    let answer = RegexAst::parse_str("ab*").unwrap();
    let quiz = Quiz::with_answer(2, answer.clone()).unwrap();
    assert_eq!(quiz.get_answer_regex(), answer);
}

#[test]
fn a_quiz_needs_a_proper_answer() {
    assert!(Quiz::with_answer(2, RegexAst::Concatenation(vec![])).is_none());
    assert!(Quiz::with_answer(2, RegexAst::Concatenation(vec![RegexAst::Epsilon])).is_some());
}

#[test]
fn new_quizzes_are_generated() {
    assert!(Quiz::new_with_difficulty(0).is_none());
    let mut quiz = Quiz::new_with_difficulty(2).expect("a quiz");
    assert!(quiz.is_empty());
    assert_eq!(quiz.len(), 0);
    assert!(matches!(quiz.query("c"), Err(CommandError::DomainError { .. })));
    assert!(quiz.query("ab").is_ok());
    assert!(quiz.inspect(&quiz.get_answer_regex().to_string()).is_ok());
    let mut quiz = Quiz::new().expect("a quiz");
    assert!(quiz.query("abc").is_ok());
    assert!(matches!(quiz.query("d"), Err(CommandError::DomainError { .. })));
}
