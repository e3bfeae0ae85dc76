use regexsoup::regex::{Alphabet, RegexAst};

#[test]
fn str_to_alphabets() {
    assert_eq!(
        Alphabet::vec_from_str("ABCJ").unwrap(),
        vec![Alphabet::A, Alphabet::B, Alphabet::C, Alphabet::J]
    );

    assert_eq!(
        Alphabet::vec_from_str("abcj").unwrap(),
        vec![Alphabet::A, Alphabet::B, Alphabet::C, Alphabet::J]
    );

    assert_eq!(
        Alphabet::vec_from_str("abCg").unwrap(),
        vec![Alphabet::A, Alphabet::B, Alphabet::C, Alphabet::G]
    )
}

#[test]
#[should_panic]
fn str_to_alphabets_panic() {
    Alphabet::vec_from_str("Z").unwrap();
}

#[test]
fn str_to_regex_ast() {
    assert_eq!(
        RegexAst::parse_str("abc").unwrap(),
        RegexAst::Concatenation(vec![
            RegexAst::Literal(Alphabet::A),
            RegexAst::Literal(Alphabet::B),
            RegexAst::Literal(Alphabet::C),
        ])
    );

    assert_eq!(
        RegexAst::parse_str("ab|c").unwrap(),
        RegexAst::Alternation(vec![
            RegexAst::Concatenation(vec![
                RegexAst::Literal(Alphabet::A),
                RegexAst::Literal(Alphabet::B)
            ]),
            RegexAst::Literal(Alphabet::C)
        ])
    );

    assert_eq!(
        RegexAst::parse_str("ab*|cd").unwrap(),
        RegexAst::Alternation(vec![
            RegexAst::Concatenation(vec![
                RegexAst::Literal(Alphabet::A),
                RegexAst::Star(Box::new(RegexAst::Literal(Alphabet::B))),
            ]),
            RegexAst::Concatenation(vec![
                RegexAst::Literal(Alphabet::C),
                RegexAst::Literal(Alphabet::D)
            ])
        ])
    );
}

#[test]
fn regex_ast_matches() {
    let positives = vec![
        ("ab|c", "ab"),
        ("ab|c", "c"),
        ("ε|a", ""),
        ("ε|a", "a"),
        ("a*bεcc*", "bc"),
        ("a*bεcc*", "aabccc"),
        ("ε", ""),
        ("ε*", ""),
    ];
    let negatives = vec![("ε|a", "ab"), ("ε|aaa*", "a"), ("a*bεcc*", "aac")];

    for (regex_str, input_str) in positives {
        let ast = RegexAst::parse_str(regex_str).unwrap();
        let input = Alphabet::vec_from_str(input_str).unwrap();
        assert!(
            ast.matches(&input),
            "The expression \"{}\" should match \"{}\"",
            regex_str,
            input_str
        )
    }

    for (regex_str, input_str) in negatives {
        let ast = RegexAst::parse_str(regex_str).unwrap();
        let input = Alphabet::vec_from_str(input_str).unwrap();
        assert!(
            !ast.matches(&input),
            "The expression \"{}\" should not match \"{}\"",
            regex_str,
            input_str
        )
    }
}

#[test]
fn fmt_regex_ast() {
    assert_eq!(
        "(abε)",
        RegexAst::Concatenation(vec![
            RegexAst::Literal(Alphabet::A),
            RegexAst::Literal(Alphabet::B),
            RegexAst::Epsilon,
        ])
        .to_string()
    );

    assert_eq!(
        "(a|b|ε)",
        RegexAst::Alternation(vec![
            RegexAst::Literal(Alphabet::A),
            RegexAst::Literal(Alphabet::B),
            RegexAst::Epsilon,
        ])
        .to_string()
    );

    assert_eq!(
        "((a|g))*",
        RegexAst::Star(Box::new(RegexAst::Alternation(vec![
            RegexAst::Literal(Alphabet::A),
            RegexAst::Literal(Alphabet::G),
        ])))
        .to_string()
    );

    assert_eq!(
        "((a|(bc)))*",
        RegexAst::Star(Box::new(RegexAst::Alternation(vec![
            RegexAst::Literal(Alphabet::A),
            RegexAst::Concatenation(vec![
                RegexAst::Literal(Alphabet::B),
                RegexAst::Literal(Alphabet::C),
            ]),
        ])))
        .to_string()
    );

    assert_eq!(
        "(((a|c)|(bc)))*",
        RegexAst::Star(Box::new(RegexAst::Alternation(vec![
            RegexAst::Alternation(vec![
                RegexAst::Literal(Alphabet::A),
                RegexAst::Literal(Alphabet::C)
            ]),
            RegexAst::Concatenation(vec![
                RegexAst::Literal(Alphabet::B),
                RegexAst::Literal(Alphabet::C),
            ]),
        ])))
        .to_string()
    );
}

#[test]
fn regex_ast_used_alphabets() {
    let pairs = vec![("(agb|c*)g", "abcg"), ("agb|c*g", "abcg")];

    for (regex_str, alphabets_str) in pairs {
        let ast = RegexAst::parse_str(regex_str).unwrap();
        let alphabets = Alphabet::vec_from_str(alphabets_str).unwrap();

        assert_eq!(
            ast.used_alphabets(),
            alphabets,
            "Alphabets used in \"{}\" should be \"{:?}\"",
            ast.to_string(),
            alphabets
        )
    }
}

#[test]
fn regex_ast_equivalence() {
    fn compile_to_regex_ast(regex_str: &str) -> RegexAst {
        RegexAst::parse_str(regex_str).unwrap()
    }

    let positives = vec![
        ("abεc", "εabc"),
        ("ε|εεε*", "ε"),
        ("(a|b)*", "a*(ba*)*"),
    ];
    let negatives = vec![("abεc", "abbc"), ("ε", "a")];

    for (regex_str_1, regex_str_2) in positives {
        let ast_1 = compile_to_regex_ast(regex_str_1);
        let ast_2 = compile_to_regex_ast(regex_str_2);

        assert!(
            ast_1.equivalent_to(&ast_2),
            "The regular expression \"{}\" should be equivalent to \"{}\"",
            ast_1.to_string(),
            ast_2.to_string()
        )
    }

    for (regex_str_1, regex_str_2) in negatives {
        let ast_1 = compile_to_regex_ast(regex_str_1);
        let ast_2 = compile_to_regex_ast(regex_str_2);

        assert!(
            !ast_1.equivalent_to(&ast_2),
            "The regular expression \"{}\" should not be equivalent to \"{}\"",
            ast_1.to_string(),
            ast_2.to_string()
        )
    }

    // `+` is no operator of the grammar: within parentheses it leaves them
    // unbalanced.
    assert!(RegexAst::parse_str("(a|b|c)*(a|b)(a|b)(a|b)").is_ok());
    assert!(
        RegexAst::parse_str("((a|b|c)*c(a|b)(a|b)(a|b)+)|((a|b)(a|b)(a|b)+)").is_err()
    );
}
