use mini_grep::{
    MatchFailure, PatternAtom, PatternError, find_pattern_atom_at_start, match_pattern,
    match_string_exactly, parse_pattern, split_pattern, try_match_pattern,
};

fn no_groups() -> Vec<String> {
    vec![]
}

#[test]
fn parse_reports_unknown_escape() {
    assert_eq!(parse_pattern("\\x"), Err(PatternError::UnknownEscape));
    assert_eq!(parse_pattern("a\\"), Err(PatternError::UnknownEscape));
    assert_eq!(parse_pattern("\\."), Err(PatternError::UnknownEscape));
}

#[test]
fn parse_reports_backreference_too_large() {
    assert_eq!(
        parse_pattern("\\99999999999999999999999"),
        Err(PatternError::BackreferenceTooLarge)
    );
}

#[test]
fn parse_reports_unclosed_groups() {
    assert_eq!(parse_pattern("[abc"), Err(PatternError::UnclosedBracket));
    assert_eq!(parse_pattern("a(bc"), Err(PatternError::UnclosedParen));
}

#[test]
fn parse_reports_repetition_without_atom() {
    assert_eq!(parse_pattern("*a"), Err(PatternError::NothingToRepeat));
    assert_eq!(parse_pattern("?"), Err(PatternError::NothingToRepeat));
    assert_eq!(parse_pattern("+a"), Err(PatternError::PlusWithoutAtom));
    assert_eq!(parse_pattern("(a|*)"), Err(PatternError::NothingToRepeat));
    assert_eq!(parse_pattern("^*"), Err(PatternError::NothingToRepeat));
}

#[test]
fn parse_keeps_the_characters_that_stand_for_themselves() {
    assert_eq!(
        split_pattern("a$b"),
        vec![PatternAtom::Char('a'), PatternAtom::Char('$'), PatternAtom::Char('b')]
    );
    assert_eq!(split_pattern("\\\\"), vec![PatternAtom::Char('\\')]);
    assert_eq!(
        split_pattern("x|)"),
        vec![PatternAtom::Char('x'), PatternAtom::Char('|'), PatternAtom::Char(')')]
    );
    assert_eq!(split_pattern(""), vec![]);
}

#[test]
fn parse_empty_groups_and_alternatives() {
    assert_eq!(split_pattern("[]"), vec![PatternAtom::PositiveGroup(String::new())]);
    assert_eq!(split_pattern("[^]"), vec![PatternAtom::NegativeGroup(String::new())]);
    assert_eq!(
        split_pattern("(|a)"),
        vec![PatternAtom::Alternation(vec![vec![], vec![PatternAtom::Char('a')]])]
    );
}

#[test]
fn parse_caret_in_the_middle_anchors_from_the_start_of_the_text_given() {
    assert_eq!(
        split_pattern("a^b"),
        vec![
            PatternAtom::Char('a'),
            PatternAtom::Start(vec![PatternAtom::Start(vec![PatternAtom::Char('b')])])
        ]
    );
}

#[test]
fn parse_repetition_law_examples() {
    assert_eq!(
        split_pattern("ab+"),
        vec![
            PatternAtom::Char('a'),
            PatternAtom::Char('b'),
            PatternAtom::Star(Box::new(PatternAtom::Char('b')))
        ]
    );
    assert_eq!(
        split_pattern("ab*"),
        vec![PatternAtom::Char('a'), PatternAtom::Star(Box::new(PatternAtom::Char('b')))]
    );
    assert_eq!(
        split_pattern("ab?"),
        vec![PatternAtom::Char('a'), PatternAtom::Question(Box::new(PatternAtom::Char('b')))]
    );
}

#[test]
fn parse_literal_law_example() {
    assert_eq!(
        split_pattern("hello"),
        vec![
            PatternAtom::Char('h'),
            PatternAtom::Char('e'),
            PatternAtom::Char('l'),
            PatternAtom::Char('l'),
            PatternAtom::Char('o')
        ]
    );
}

#[test]
fn parse_reports_misaligned_positions() {
    // Past a two-byte character, the byte position runs ahead of the
    // character count and the read past the last character fails.
    assert_eq!(parse_pattern("é"), Err(PatternError::Misaligned));
    assert_eq!(parse_pattern("héllo"), Err(PatternError::Misaligned));
    assert_eq!(parse_pattern("é\\w+"), Err(PatternError::Misaligned));
    assert_eq!(parse_pattern("^é"), Err(PatternError::Misaligned));
    assert_eq!(parse_pattern("[é]x"), Err(PatternError::Misaligned));
    // The digits of a back-reference are looked for at a byte position that
    // holds the backslash.
    assert_eq!(parse_pattern("é\\1x"), Err(PatternError::Misaligned));
}

#[test]
fn parse_multibyte_characters_inside_brackets() {
    assert_eq!(
        split_pattern("[é]"),
        vec![PatternAtom::PositiveGroup("é".to_string())]
    );
    // The second group is cut at byte positions read as character positions.
    assert_eq!(
        split_pattern("[é]x[ab]"),
        vec![
            PatternAtom::PositiveGroup("é".to_string()),
            PatternAtom::PositiveGroup("[ab".to_string())
        ]
    );
    assert_eq!(match_pattern("café", "[é]"), true);
}

#[test]
fn parse_backreference_numbers() {
    assert_eq!(
        split_pattern("\\007a"),
        vec![PatternAtom::BackreferenceInt(7), PatternAtom::Char('a')]
    );
}

#[test]
fn unicode_classes() {
    assert_eq!(find_pattern_atom_at_start("٣", &PatternAtom::Digit), true);
    assert_eq!(find_pattern_atom_at_start("¾", &PatternAtom::Digit), true);
    assert_eq!(find_pattern_atom_at_start("x", &PatternAtom::Digit), false);
    assert_eq!(find_pattern_atom_at_start("é", &PatternAtom::Word), true);
    assert_eq!(find_pattern_atom_at_start("_", &PatternAtom::Word), true);
    assert_eq!(find_pattern_atom_at_start("-", &PatternAtom::Word), false);
}

#[test]
fn negated_group_law_examples() {
    let pos = PatternAtom::PositiveGroup("xyz".to_string());
    let neg = PatternAtom::NegativeGroup("xyz".to_string());
    for text in ["", "x", "a", "zebra"] {
        assert_eq!(
            find_pattern_atom_at_start(text, &neg),
            !find_pattern_atom_at_start(text, &pos)
        );
    }
    assert_eq!(find_pattern_atom_at_start("", &neg), true);
}

#[test]
fn wild_and_end_atoms() {
    assert_eq!(find_pattern_atom_at_start("é", &PatternAtom::Wild), true);
    assert_eq!(find_pattern_atom_at_start("", &PatternAtom::End), true);
    assert_eq!(find_pattern_atom_at_start("a", &PatternAtom::End), false);
}

#[test]
fn empty_pattern_matches_the_empty_prefix() {
    assert_eq!(match_string_exactly("abc", &vec![], &no_groups()), Some(String::new()));
}

#[test]
fn trailing_star_is_greedy_example() {
    assert_eq!(
        match_string_exactly(
            "aaab",
            &vec![PatternAtom::Star(Box::new(PatternAtom::Char('a')))],
            &no_groups()
        ),
        Some("aaa".to_string())
    );
    assert_eq!(
        match_string_exactly(
            "ééx",
            &vec![PatternAtom::Star(Box::new(PatternAtom::Wild))],
            &no_groups()
        ),
        Some("ééx".to_string())
    );
}

#[test]
fn trailing_question_example() {
    let pattern = vec![PatternAtom::Question(Box::new(PatternAtom::Char('a')))];
    assert_eq!(match_string_exactly("ab", &pattern, &no_groups()), Some("a".to_string()));
    assert_eq!(match_string_exactly("b", &pattern, &no_groups()), Some(String::new()));
}

#[test]
fn star_before_more_pattern_takes_the_shortest_run() {
    let pattern = vec![
        PatternAtom::Star(Box::new(PatternAtom::Wild)),
        PatternAtom::Char('a'),
    ];
    assert_eq!(match_string_exactly("xaya", &pattern, &no_groups()), Some("xa".to_string()));
}

#[test]
fn backreference_repeats_literal_example() {
    let groups = vec!["cat".to_string()];
    let pattern = vec![PatternAtom::BackreferenceInt(1)];
    assert_eq!(match_string_exactly("catdog", &pattern, &groups), Some("cat".to_string()));
    assert_eq!(match_string_exactly("dog", &pattern, &groups), None);
    assert_eq!(
        match_string_exactly("dog", &vec![PatternAtom::BackreferenceInt(2)], &groups),
        None
    );
}

#[test]
fn match_is_a_prefix_of_the_text() {
    let pattern = vec![
        PatternAtom::Char('é'),
        PatternAtom::Word,
        PatternAtom::Star(Box::new(PatternAtom::Word)),
    ];
    let text = "éte x";
    let m = match_string_exactly(text, &pattern, &no_groups()).unwrap();
    assert_eq!(m, "éte");
    assert!(text.starts_with(&m));
}

#[test]
fn literal_match_law_examples() {
    let pattern = split_pattern("cat");
    assert_eq!(match_string_exactly("cathedral", &pattern, &no_groups()), Some("cat".to_string()));
    assert_eq!(match_string_exactly("ca", &pattern, &no_groups()), None);
    assert_eq!(match_string_exactly("dog", &pattern, &no_groups()), None);
}

#[test]
fn literal_search_law_examples() {
    assert_eq!(match_pattern("hello world", "lo w"), true);
    assert_eq!(match_pattern("hello world", "low"), false);
    assert_eq!(match_pattern("naïve café", "ve c"), true);
}

#[test]
fn end_anchored_literal_law_examples() {
    assert_eq!(match_pattern("hotdog", "dog$"), true);
    assert_eq!(match_pattern("hotdogs", "dog$"), false);
    assert_eq!(match_pattern("abc", "$"), false);
}

#[test]
fn anchored_search_law_examples() {
    assert_eq!(match_pattern("abc", "^abc"), true);
    assert_eq!(match_pattern("xabc", "^abc"), false);
    assert_eq!(match_pattern("", "^$"), true);
}

#[test]
fn empty_text_law_examples() {
    assert_eq!(match_pattern("", "a*"), false);
    assert_eq!(match_pattern("", ""), false);
    assert_eq!(match_pattern("x", ""), true);
}

#[test]
fn unanchored_search_tries_every_position() {
    assert_eq!(match_pattern("xxabab", "(ab)\\1"), true);
    assert_eq!(match_pattern("xxabac", "(ab)\\1"), false);
}

#[test]
fn try_match_reports_invalid_patterns() {
    assert_eq!(
        try_match_pattern("abc", "[abc", u64::MAX),
        Err(MatchFailure::InvalidPattern(PatternError::UnclosedBracket))
    );
}

#[test]
fn try_match_reports_faults() {
    // A negated group accepting the end of the text leaves a position past its end.
    assert_eq!(try_match_pattern("ba", "a[^x]", u64::MAX), Err(MatchFailure::Fault));
    // Back-reference number 0.
    assert_eq!(try_match_pattern("a", "a\\0", u64::MAX), Err(MatchFailure::Fault));
    // An anchor that is not the whole pattern.
    assert_eq!(try_match_pattern("ab", "a^b", u64::MAX), Err(MatchFailure::Fault));
    // A repeated group.
    assert_eq!(try_match_pattern("abab", "(ab)*", u64::MAX), Err(MatchFailure::Fault));
    // A captured text that is not a well-formed pattern.
    assert_eq!(try_match_pattern("* *", "(.) \\1", u64::MAX), Err(MatchFailure::Fault));
    assert_eq!(try_match_pattern("[ [", "(.) \\1", u64::MAX), Err(MatchFailure::Fault));
    // A captured text with a two-byte character cannot be read back.
    assert_eq!(try_match_pattern("café café", "(\\w+) \\1", u64::MAX), Err(MatchFailure::Fault));
    // A literal text in the group is read back as a pattern.
    assert_eq!(try_match_pattern("a a", "(.) \\1", u64::MAX), Ok(true));
}

#[test]
fn try_match_reports_exhausted_budget() {
    assert_eq!(
        try_match_pattern("\\1\\1", "(\\\\1)\\1", 8),
        Err(MatchFailure::OutOfBudget)
    );
}

#[test]
fn budget_monotone_examples() {
    for budget in [1u64, 2, 100, u64::MAX] {
        assert_eq!(try_match_pattern("cat and cat", "(cat) and \\1", budget), Ok(true));
        assert_eq!(try_match_pattern("cat and dog", "(cat) and \\1", budget), Ok(false));
    }
    assert_eq!(try_match_pattern("cat and cat", "(cat) and \\1", 0), Err(MatchFailure::OutOfBudget));
}

#[test]
fn alternation_first_alternative_wins() {
    let pattern = split_pattern("(a|ab)c");
    assert_eq!(match_string_exactly("abc", &pattern, &no_groups()), Some("abc".to_string()));
    let pattern = split_pattern("(a|ab)");
    assert_eq!(match_string_exactly("abc", &pattern, &no_groups()), Some("a".to_string()));
}

#[test]
fn ascii_patterns_are_never_misaligned() {
    for pattern in ["", "a", "[^]", "\\1", "a^b", "(|)", "x$y$", "[a(]b)", "\\12a\\3", "^(a|b)+c?$"] {
        assert_ne!(parse_pattern(pattern), Err(PatternError::Misaligned));
    }
}

#[test]
fn atoms_clone_to_equal_atoms() {
    let atom = PatternAtom::Alternation(vec![
        vec![PatternAtom::Star(Box::new(PatternAtom::Digit))],
        vec![PatternAtom::NegativeGroup("xy".to_string()), PatternAtom::End],
    ]);
    assert_eq!(atom.clone(), atom);
    let atoms = split_pattern("^(a|b)+[^c]\\1$");
    assert_eq!(atoms.clone(), atoms);
}

#[test]
fn search_is_anchored_search_somewhere_examples() {
    for text in ["xxabc", "abc", "ab", "", "zabcab"] {
        for pattern in ["abc", "b.", "\\d", "(a|z)b", "c$"] {
            let anywhere = text
                .char_indices()
                .any(|(k, _)| match_pattern(&text[k..], &format!("^{}", pattern)));
            assert_eq!(match_pattern(text, pattern), anywhere);
        }
    }
}

#[test]
fn anchored_pattern_that_cannot_be_parsed() {
    assert_eq!(
        try_match_pattern("abc", "^[ab", u64::MAX),
        Err(MatchFailure::InvalidPattern(PatternError::UnclosedBracket))
    );
    assert_eq!(
        try_match_pattern("abc", "^+a", u64::MAX),
        Err(MatchFailure::InvalidPattern(PatternError::PlusWithoutAtom))
    );
}

#[test]
fn end_anchor_matches_whole_text_examples() {
    let pattern = split_pattern("a.*c$");
    assert_eq!(match_string_exactly("abcc", &pattern, &no_groups()), Some("abcc".to_string()));
    assert_eq!(match_string_exactly("abcd", &pattern, &no_groups()), None);
    let pattern = split_pattern("(ab|a)$");
    assert_eq!(match_string_exactly("ab", &pattern, &no_groups()), Some("ab".to_string()));
}

#[test]
fn end_anchor_is_last_exactly_when_pattern_ends_in_dollar() {
    assert_eq!(split_pattern("ab$").last(), Some(&PatternAtom::End));
    assert_eq!(split_pattern("\\1$").last(), Some(&PatternAtom::End));
    assert_eq!(split_pattern("[x]$").last(), Some(&PatternAtom::End));
    assert_eq!(split_pattern("a$b").last(), Some(&PatternAtom::Char('b')));
    assert_eq!(split_pattern("a$*").last(), Some(&PatternAtom::Star(Box::new(PatternAtom::Char('$')))));
    // With `^` the end anchor sits inside the anchored atoms.
    assert_eq!(
        split_pattern("^a$"),
        vec![PatternAtom::Start(vec![PatternAtom::Char('a'), PatternAtom::End])]
    );
}

#[test]
fn ascii_classes() {
    for c in ['0', '5', '9'] {
        assert!(find_pattern_atom_at_start(&c.to_string(), &PatternAtom::Digit));
        assert!(find_pattern_atom_at_start(&c.to_string(), &PatternAtom::Word));
    }
    for c in ['a', 'Z', '_'] {
        assert!(!find_pattern_atom_at_start(&c.to_string(), &PatternAtom::Digit));
        assert!(find_pattern_atom_at_start(&c.to_string(), &PatternAtom::Word));
    }
    for c in [' ', '-', '$', '\n'] {
        assert!(!find_pattern_atom_at_start(&c.to_string(), &PatternAtom::Digit));
        assert!(!find_pattern_atom_at_start(&c.to_string(), &PatternAtom::Word));
    }
}
