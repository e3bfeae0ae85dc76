use regexsoup::nfa::NfaData;
use regexsoup::regex::{Alphabet, RegexAst};

fn parts(nfa: &NfaData) -> (usize, Vec<(usize, Option<Alphabet>, usize)>, Vec<usize>) {
    (nfa.max_index(), nfa.edges().clone(), nfa.finals().clone())
}

#[test]
fn nfa_of_nothing_of_epsilon_and_of_a_letter() {
    assert_eq!(parts(&NfaData::empty()), (0, vec![], vec![]));
    assert_eq!(parts(&NfaData::epsilon()), (0, vec![], vec![0]));
    assert_eq!(
        parts(&NfaData::literal(Alphabet::D)),
        (1, vec![(0, Some(Alphabet::D), 1)], vec![1])
    );
}

#[test]
fn nfa_concat_moves_the_right_automaton() {
    let a = NfaData::literal(Alphabet::A);
    let b = NfaData::literal(Alphabet::B);
    assert_eq!(
        parts(&a.concat(&b)),
        (
            3,
            vec![(0, Some(Alphabet::A), 1), (2, Some(Alphabet::B), 3), (1, None, 2)],
            vec![3]
        )
    );
    assert_eq!(parts(&NfaData::epsilon().concat(&NfaData::epsilon())), (1, vec![(0, None, 1)], vec![1]));
}

#[test]
fn nfa_concat_all_folds_from_the_left() {
    let nfas = vec![
        NfaData::literal(Alphabet::A),
        NfaData::epsilon(),
        NfaData::literal(Alphabet::B),
    ];
    let expected = NfaData::literal(Alphabet::A)
        .concat(&NfaData::epsilon())
        .concat(&NfaData::literal(Alphabet::B));
    let all = NfaData::concat_all(nfas);
    assert_eq!(parts(&all), parts(&expected));
    assert_eq!(
        parts(&all),
        (
            4,
            vec![
                (0, Some(Alphabet::A), 1),
                (1, None, 2),
                (3, Some(Alphabet::B), 4),
                (2, None, 3)
            ],
            vec![4]
        )
    );
    let single = NfaData::concat_all(vec![NfaData::literal(Alphabet::C)]);
    assert_eq!(parts(&single), parts(&NfaData::literal(Alphabet::C)));
}

#[test]
fn nfa_union_all_adds_a_start_state() {
    let nfas = vec![NfaData::literal(Alphabet::A), NfaData::literal(Alphabet::B)];
    assert_eq!(
        parts(&NfaData::union_all(nfas)),
        (
            4,
            vec![
                (1, Some(Alphabet::A), 2),
                (0, None, 1),
                (3, Some(Alphabet::B), 4),
                (0, None, 3)
            ],
            vec![2, 4]
        )
    );
    // a single automaton gets the fresh start state as well
    let single = NfaData::union_all(vec![NfaData::literal(Alphabet::C)]);
    assert_eq!(
        parts(&single),
        (2, vec![(1, Some(Alphabet::C), 2), (0, None, 1)], vec![2])
    );
    // three automata: blocks in the order of the list, one edge from the
    // start state to each
    let three = NfaData::union_all(vec![
        NfaData::epsilon(),
        NfaData::literal(Alphabet::A),
        NfaData::star(&NfaData::literal(Alphabet::B)),
    ]);
    assert_eq!(
        parts(&three),
        (
            6,
            vec![
                (0, None, 1),
                (2, Some(Alphabet::A), 3),
                (0, None, 2),
                (5, Some(Alphabet::B), 6),
                (4, None, 5),
                (6, None, 4),
                (0, None, 4)
            ],
            vec![1, 3, 4]
        )
    );
    assert!(three.edges().iter().all(|edge| edge.2 != 0));
}

#[test]
fn nfa_star_loops_back_to_the_start() {
    assert_eq!(
        parts(&NfaData::star(&NfaData::literal(Alphabet::A))),
        (2, vec![(1, Some(Alphabet::A), 2), (0, None, 1), (2, None, 0)], vec![0])
    );
    assert_eq!(
        parts(&NfaData::star(&NfaData::epsilon())),
        (1, vec![(0, None, 1), (1, None, 0)], vec![0])
    );
}

#[test]
fn nfa_clone_is_equal() {
    let nfa = NfaData::star(&NfaData::literal(Alphabet::A));
    assert_eq!(parts(&nfa.clone()), parts(&nfa));
}

#[test]
fn regex_compiles_to_nfa() {
    let ast = RegexAst::parse_str("a*|b").unwrap();
    let expected = NfaData::union_all(vec![
        NfaData::star(&NfaData::literal(Alphabet::A)),
        NfaData::literal(Alphabet::B),
    ]);
    assert_eq!(parts(&ast.compile_to_nfa_data()), parts(&expected));
    assert_eq!(ast.state_count(), Some(6));
    assert_eq!(ast.compile_to_nfa_data().max_index(), 5);

    let ast = RegexAst::parse_str("abε").unwrap();
    assert_eq!(ast.state_count(), Some(5));
    assert_eq!(ast.compile_to_nfa_data().max_index(), 4);
    assert_eq!(RegexAst::Epsilon.state_count(), Some(1));
    assert_eq!(RegexAst::Literal(Alphabet::A).state_count(), Some(2));
    // an alternation of one part has a start state of its own
    let single = RegexAst::Alternation(vec![RegexAst::Literal(Alphabet::A)]);
    assert_eq!(single.state_count(), Some(3));
    assert_eq!(
        parts(&single.compile_to_nfa_data()),
        parts(&NfaData::union_all(vec![NfaData::literal(Alphabet::A)]))
    );
    assert!(single.equivalent_to(&RegexAst::Literal(Alphabet::A)));
    assert!(single.accepts(&[Alphabet::A]));
    assert!(!single.accepts(&[]));
}

#[test]
fn regex_without_parts_is_not_proper() {
    assert!(RegexAst::parse_str("a(b|c)*").unwrap().is_proper());
    assert!(RegexAst::Concatenation(vec![RegexAst::Epsilon]).is_proper());
    assert!(!RegexAst::Concatenation(vec![]).is_proper());
    assert!(!RegexAst::Star(Box::new(RegexAst::Alternation(vec![]))).is_proper());
}
