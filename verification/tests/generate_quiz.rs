use regexsoup::regex::generate_quiz::{
    alphabets_used_with, case_weights, estimate_acceptance_probability,
    generate_ast_smaller_than, good_as_a_quiz_problem, in_acceptance_band, parts_between,
    MAX_QUIZ_TREE_SIZE, SAMPLE_SIZE,
};
use regexsoup::regex::{randomly_generate, Alphabet, AlphabetSet, Difficulty, RegexAst};
use std::convert::TryInto;

fn node_count(ast: &RegexAst) -> usize {
    match ast {
        RegexAst::Epsilon | RegexAst::Literal(_) => 1,
        RegexAst::Star(inner) => 1 + node_count(inner),
        RegexAst::Concatenation(items) | RegexAst::Alternation(items) => {
            1 + items.iter().map(node_count).sum::<usize>()
        }
    }
}

fn has_empty_list(ast: &RegexAst) -> bool {
    match ast {
        RegexAst::Epsilon | RegexAst::Literal(_) => false,
        RegexAst::Star(inner) => has_empty_list(inner),
        RegexAst::Concatenation(items) | RegexAst::Alternation(items) => {
            items.is_empty() || items.iter().any(has_empty_list)
        }
    }
}

#[test]
fn randomly_generate_returns() {
    println!(
        "{:?}",
        randomly_generate(&Difficulty(3u8.try_into().unwrap()))
    );
}

#[test]
fn randomly_generate_refuses_difficulty_zero() {
    assert!(randomly_generate(&Difficulty(0)).is_none());
}

#[test]
fn generated_quiz_is_small_and_within_its_domain() {
    for difficulty in 1u8..=4 {
        let ast = randomly_generate(&Difficulty(difficulty)).expect("an expression");
        assert!(node_count(&ast) <= MAX_QUIZ_TREE_SIZE as usize);
        assert!(!has_empty_list(&ast));
        assert!(ast.is_proper());
        let domain = alphabets_used_with(&Difficulty(difficulty)).0;
        for letter in ast.used_alphabets() {
            assert!(domain.contains(&letter));
        }
    }
}

#[test]
fn generated_quiz_lies_in_the_acceptance_band_again() {
    // A fresh estimate of an accepted expression seldom falls far outside
    // the band: 5 fresh samples of 1000 words are added up, and the band
    // is widened by a tenth of the sample at either end.
    let difficulty = Difficulty(2);
    let alphabets = alphabets_used_with(&difficulty);
    let ast = randomly_generate(&difficulty).expect("an expression");
    let mut matched = 0;
    for _ in 0..5 {
        matched += estimate_acceptance_probability(&alphabets, &ast).expect("a count");
    }
    let sampled = 5 * SAMPLE_SIZE;
    assert!(10 * matched > sampled, "{} of {}", matched, sampled);
    assert!(10 * matched < 9 * sampled, "{} of {}", matched, sampled);
}

#[test]
fn generation_succeeds_in_most_trials() {
    let mut found = 0;
    for _ in 0..10 {
        if randomly_generate(&Difficulty(2)).is_some() {
            found += 1;
        }
    }
    assert!(found >= 9);
}

#[test]
fn trees_are_generated_within_their_size() {
    let alphabets = AlphabetSet(vec![Alphabet::A, Alphabet::B]);
    for size in 0u8..=12 {
        for _ in 0..50 {
            let ast = generate_ast_smaller_than(&alphabets, size);
            assert!(node_count(&ast) <= std::cmp::max(size as usize, 1));
            assert!(!has_empty_list(&ast));
            for letter in ast.used_alphabets() {
                assert!(letter == Alphabet::A || letter == Alphabet::B);
            }
        }
    }
}

#[test]
fn small_sizes_give_leaves() {
    let alphabets = AlphabetSet(vec![Alphabet::C]);
    for _ in 0..50 {
        let ast = generate_ast_smaller_than(&alphabets, 1);
        assert!(ast == RegexAst::Epsilon || ast == RegexAst::Literal(Alphabet::C));
    }
}

#[test]
fn alphabets_of_a_difficulty() {
    assert_eq!(alphabets_used_with(&Difficulty(0)).0, vec![]);
    assert_eq!(
        alphabets_used_with(&Difficulty(3)).0,
        vec![Alphabet::A, Alphabet::B, Alphabet::C]
    );
    assert_eq!(alphabets_used_with(&Difficulty(10)).0.len(), 10);
    assert_eq!(alphabets_used_with(&Difficulty(200)).0.len(), 10);
    assert_eq!(alphabets_used_with(&Difficulty(10)).0[9], Alphabet::J);
}

#[test]
fn acceptance_band_is_open() {
    assert!(!in_acceptance_band(0, 1000));
    assert!(!in_acceptance_band(200, 1000));
    assert!(in_acceptance_band(201, 1000));
    assert!(in_acceptance_band(500, 1000));
    assert!(in_acceptance_band(799, 1000));
    assert!(!in_acceptance_band(800, 1000));
    assert!(!in_acceptance_band(1000, 1000));
    assert!(!in_acceptance_band(0, 0));
    assert!(in_acceptance_band(1, 2));
    assert!(!in_acceptance_band(usize::MAX, usize::MAX));
}

#[test]
fn estimates_count_matches() {
    let alphabets = AlphabetSet(vec![Alphabet::A]);
    // `a*` matches every word over `a`, `ε` only the empty one.
    let all = RegexAst::parse_str("a*").unwrap();
    assert_eq!(estimate_acceptance_probability(&alphabets, &all), Some(SAMPLE_SIZE));
    assert!(!good_as_a_quiz_problem(&alphabets, &all));
    let none = RegexAst::parse_str("b").unwrap();
    assert_eq!(estimate_acceptance_probability(&alphabets, &none), Some(0));
    assert!(!good_as_a_quiz_problem(&alphabets, &none));
    let some = RegexAst::parse_str("ε|a|aa|aaa|aaaa").unwrap();
    let matched = estimate_acceptance_probability(&alphabets, &some).unwrap();
    assert!(matched > 200 && matched < 800, "{}", matched);
}

#[test]
fn weights_of_the_kinds_that_a_size_affords() {
    assert_eq!(case_weights(0), vec![2, 10, 0, 0, 0]);
    assert_eq!(case_weights(1), vec![2, 10, 0, 0, 0]);
    assert_eq!(case_weights(2), vec![2, 10, 6, 0, 0]);
    assert_eq!(case_weights(3), vec![2, 10, 6, 4, 4]);
    assert_eq!(case_weights(12), vec![2, 10, 6, 4, 4]);
}

fn affordable(ast: &RegexAst, size: usize) -> bool {
    match ast {
        RegexAst::Epsilon | RegexAst::Literal(_) => true,
        RegexAst::Star(inner) => size >= 2 && affordable(inner, size - 1),
        RegexAst::Concatenation(items) | RegexAst::Alternation(items) => {
            // The parts of the rest are positive, so a tree has no more
            // parts than the rest allows, and each part is worth a node
            // at least.
            size >= 3
                && !items.is_empty()
                && items.len() <= size - 1
                && items.iter().all(|item| affordable(item, size - items.len()))
        }
    }
}

#[test]
fn a_size_of_two_affords_a_star_and_no_list() {
    let alphabets = AlphabetSet(vec![Alphabet::A]);
    let mut stars = 0;
    for _ in 0..200 {
        match generate_ast_smaller_than(&alphabets, 2) {
            RegexAst::Epsilon | RegexAst::Literal(_) => {}
            RegexAst::Star(inner) => {
                stars += 1;
                assert!(*inner == RegexAst::Epsilon || *inner == RegexAst::Literal(Alphabet::A));
            }
            other => panic!("{:?}", other),
        }
    }
    assert!(stars > 0);
}

#[test]
fn generated_trees_are_affordable() {
    let alphabets = AlphabetSet(vec![Alphabet::A, Alphabet::B, Alphabet::C]);
    let mut lists = 0;
    for size in 0u8..=12 {
        for _ in 0..100 {
            let ast = generate_ast_smaller_than(&alphabets, size);
            assert!(affordable(&ast, size as usize), "{:?} within {}", ast, size);
            if matches!(ast, RegexAst::Concatenation(_) | RegexAst::Alternation(_)) {
                lists += 1;
            }
        }
    }
    assert!(lists > 0);
}

#[test]
fn a_quiz_problem_is_judged_on_its_matches() {
    let alphabets = AlphabetSet(vec![Alphabet::A]);
    // a pattern that does not compile is no good
    let mut deep = RegexAst::Literal(Alphabet::A);
    for _ in 0..400 {
        deep = RegexAst::Star(Box::new(deep));
    }
    assert_eq!(estimate_acceptance_probability(&alphabets, &deep), None);
    assert!(!good_as_a_quiz_problem(&alphabets, &deep));
    // about half of the words over one letter have four letters or more
    let half = RegexAst::parse_str("aaaaa*").unwrap();
    let matched = estimate_acceptance_probability(&alphabets, &half).unwrap();
    assert!(matched > 550 && matched < 850, "{}", matched);
    let some = RegexAst::parse_str("aaaaaa*").unwrap();
    assert!(good_as_a_quiz_problem(&alphabets, &some));
}

#[test]
fn parts_are_the_distances_between_cuts() {
    assert_eq!(parts_between(&vec![true]), vec![]);
    assert_eq!(parts_between(&vec![true, true]), vec![1]);
    assert_eq!(parts_between(&vec![true, false, false, true]), vec![3]);
    assert_eq!(parts_between(&vec![true, false, true, true]), vec![2, 1]);
    assert_eq!(
        parts_between(&vec![true, true, false, false, true, false, true]),
        vec![1, 3, 2]
    );
    let mut longest = vec![false; 256];
    longest[0] = true;
    longest[255] = true;
    assert_eq!(parts_between(&longest), vec![255]);
    assert_eq!(parts_between(&vec![true; 256]), vec![1; 255]);
}
