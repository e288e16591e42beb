use mini_grep::{PatternAtom, find_pattern_atom_at_start, match_pattern, match_string_exactly, split_pattern};

#[test]
fn test_start_anchor() {
    assert_eq!(
        split_pattern("^\\d"),
        vec![PatternAtom::Start(vec![PatternAtom::Digit])]
    );
}

#[test]
fn test_end_anchor() {
    assert_eq!(
        split_pattern("^\\d$"),
        vec![PatternAtom::Start(vec![
            PatternAtom::Digit,
            PatternAtom::End
        ])]
    );
    assert_eq!(
        split_pattern("\\d$"),
        vec![PatternAtom::Digit, PatternAtom::End]
    );
}

#[test]
fn test_single_digit() {
    assert_eq!(split_pattern("\\d"), vec![PatternAtom::Digit]);
}

#[test]
fn test_two_digits() {
    assert_eq!(
        split_pattern("\\d\\d"),
        vec![PatternAtom::Digit, PatternAtom::Digit]
    );
}

#[test]
fn test_two_digits_and_char() {
    assert_eq!(
        split_pattern("\\d\\dd"),
        vec![
            PatternAtom::Digit,
            PatternAtom::Digit,
            PatternAtom::Char('d')
        ]
    );
}

#[test]
fn test_two_words() {
    assert_eq!(
        split_pattern("\\w\\w"),
        vec![PatternAtom::Word, PatternAtom::Word]
    );
}

#[test]
fn test_two_words_and_char() {
    assert_eq!(
        split_pattern("\\w\\ww"),
        vec![PatternAtom::Word, PatternAtom::Word, PatternAtom::Char('w')]
    );
}

#[test]
fn test_positive_group() {
    assert_eq!(
        split_pattern("[abc]"),
        vec![PatternAtom::PositiveGroup("abc".to_string())]
    );
}

#[test]
fn test_alternation() {
    assert_eq!(
        split_pattern("(abc|ekg\\d)"),
        vec![PatternAtom::Alternation(vec![
            vec![
                PatternAtom::Char('a'),
                PatternAtom::Char('b'),
                PatternAtom::Char('c')
            ],
            vec![
                PatternAtom::Char('e'),
                PatternAtom::Char('k'),
                PatternAtom::Char('g'),
                PatternAtom::Digit
            ]
        ])]
    );
}

#[test]
fn test_backreference_group() {
    assert_eq!(
        split_pattern("(abc)"),
        vec![PatternAtom::BackreferenceGroup(vec![
            PatternAtom::Char('a'),
            PatternAtom::Char('b'),
            PatternAtom::Char('c')
        ],)]
    );

    assert_eq!(
        split_pattern("(abc)\\d\\w"),
        vec![
            PatternAtom::BackreferenceGroup(vec![
                PatternAtom::Char('a'),
                PatternAtom::Char('b'),
                PatternAtom::Char('c')
            ],),
            PatternAtom::Digit,
            PatternAtom::Word,
        ]
    );

    assert_eq!(
        split_pattern("\\d(abc)\\w"),
        vec![
            PatternAtom::Digit,
            PatternAtom::BackreferenceGroup(vec![
                PatternAtom::Char('a'),
                PatternAtom::Char('b'),
                PatternAtom::Char('c')
            ],),
            PatternAtom::Word,
        ]
    );
}

#[test]
fn test_backreference_int() {
    assert_eq!(
        split_pattern("\\1\\2\\10003"),
        vec![
            PatternAtom::BackreferenceInt(1),
            PatternAtom::BackreferenceInt(2),
            PatternAtom::BackreferenceInt(10003),
        ]
    );

    assert_eq!(
        split_pattern("\\w\\1\\2\\d"),
        vec![
            PatternAtom::Word,
            PatternAtom::BackreferenceInt(1),
            PatternAtom::BackreferenceInt(2),
            PatternAtom::Digit,
        ]
    );
}

#[test]
fn test_positive_group_and_char() {
    assert_eq!(
        split_pattern("[abc]a"),
        vec![
            PatternAtom::PositiveGroup("abc".to_string()),
            PatternAtom::Char('a')
        ]
    );
}
#[test]
fn test_plus() {
    assert_eq!(
        split_pattern("a+"),
        vec![
            PatternAtom::Char('a'),
            PatternAtom::Star(Box::new(PatternAtom::Char('a')))
        ]
    );

    assert_eq!(
        split_pattern("ba+"),
        vec![
            PatternAtom::Char('b'),
            PatternAtom::Char('a'),
            PatternAtom::Star(Box::new(PatternAtom::Char('a')))
        ]
    );
}

#[test]
fn test_star() {
    assert_eq!(
        split_pattern("a*"),
        vec![PatternAtom::Star(Box::new(PatternAtom::Char('a')))]
    );

    assert_eq!(
        split_pattern("ba*"),
        vec![
            PatternAtom::Char('b'),
            PatternAtom::Star(Box::new(PatternAtom::Char('a')))
        ]
    );

    assert_eq!(
        split_pattern("ca?g"),
        vec![
            PatternAtom::Char('c'),
            PatternAtom::Question(Box::new(PatternAtom::Char('a'))),
            PatternAtom::Char('g'),
        ]
    );
}

#[test]
fn test_wild() {
    assert_eq!(split_pattern("."), vec![PatternAtom::Wild]);

    assert_eq!(
        split_pattern("g.+g"),
        vec![
            PatternAtom::Char('g'),
            PatternAtom::Wild,
            PatternAtom::Star(Box::new(PatternAtom::Wild)),
            PatternAtom::Char('g'),
        ]
    );
}
#[test]
fn test_recognizes_digit_at_start() {
    assert_eq!(find_pattern_atom_at_start("1", &PatternAtom::Digit), true);
    assert_eq!(find_pattern_atom_at_start("a", &PatternAtom::Digit), false);

    assert_eq!(
        find_pattern_atom_at_start("1 dsf", &PatternAtom::Digit),
        true
    );
    assert_eq!(
        find_pattern_atom_at_start("a dsf", &PatternAtom::Digit),
        false
    );
}

#[test]
fn test_recognizes_word_at_start() {
    assert_eq!(find_pattern_atom_at_start("&", &PatternAtom::Word), false);
    assert_eq!(find_pattern_atom_at_start("a", &PatternAtom::Word), true);

    assert_eq!(
        find_pattern_atom_at_start("& dsf", &PatternAtom::Word),
        false
    );
    assert_eq!(
        find_pattern_atom_at_start("a dsf", &PatternAtom::Word),
        true
    );
}

#[test]
fn test_recognizes_positive_group_at_start() {
    assert_eq!(
        find_pattern_atom_at_start("1", &PatternAtom::PositiveGroup("abc".to_string())),
        false
    );
    assert_eq!(
        find_pattern_atom_at_start("a", &PatternAtom::PositiveGroup("abc".to_string())),
        true
    );
    assert_eq!(
        find_pattern_atom_at_start("aft", &PatternAtom::PositiveGroup("abc".to_string())),
        true
    );
    assert_eq!(
        find_pattern_atom_at_start("123", &PatternAtom::PositiveGroup("abc".to_string())),
        false
    );
}

#[test]
fn test_recognizes_negative_group_at_start() {
    assert_eq!(
        find_pattern_atom_at_start("1", &PatternAtom::NegativeGroup("abc".to_string())),
        true
    );
    assert_eq!(
        find_pattern_atom_at_start("a", &PatternAtom::NegativeGroup("abc".to_string())),
        false
    );
    assert_eq!(
        find_pattern_atom_at_start("aft", &PatternAtom::NegativeGroup("abc".to_string())),
        false
    );
    assert_eq!(
        find_pattern_atom_at_start("123", &PatternAtom::NegativeGroup("abc".to_string())),
        true
    );
}
#[test]
fn test_recognizes_char_at_start() {
    assert_eq!(
        find_pattern_atom_at_start("ffe", &PatternAtom::Char('c')),
        false
    );
    assert_eq!(
        find_pattern_atom_at_start("ffe", &PatternAtom::Char('f')),
        true
    );
}

#[test]
fn test_recognizes_wild_at_start() {
    assert_eq!(find_pattern_atom_at_start("ffe", &PatternAtom::Wild), true);
    assert_eq!(find_pattern_atom_at_start("", &PatternAtom::Wild), false);
}

#[test]
fn test_recognizes_start_anchor() {
    assert_eq!(
        match_pattern("ffe", "^\\d"),
        false
    );
    assert_eq!(find_pattern_atom_at_start("1", &PatternAtom::Digit), true);

    assert_eq!(
        match_pattern("1", "^\\d"),
       true
    );
}

#[test]
fn test_recognizes_end_anchor() {
    assert_eq!(find_pattern_atom_at_start("", &PatternAtom::End), true);
}


#[test]
fn test_recognizes_star_with_word() {
    assert_eq!(
        match_string_exactly(
            "abc",
            &vec![PatternAtom::Star(Box::new(PatternAtom::Word))],
            &vec![]
        ),
        Some("abc".to_string())
    );

    assert_eq!(match_string_exactly("12 12", &split_pattern( "(\\w+)" ),
            &vec![]
    ), Some( "12".to_string() ));
    assert_eq!(
        match_string_exactly(
            "abc ",
            &vec![ PatternAtom::BackreferenceGroup( vec![PatternAtom::Star(Box::new(PatternAtom::Word))] ) ],
            &vec![]
        ),
        Some("abc".to_string())
    );

}

#[test]
fn test_recognizes_star() {
    assert_eq!(
        match_string_exactly(
            "",
            &vec![PatternAtom::Star(Box::new(PatternAtom::Digit))],
            &vec![]
        ),
        Some("".to_string())
    );
    assert_eq!(
        match_string_exactly(
            "1",
            &vec![PatternAtom::Star(Box::new(PatternAtom::Digit))],
            &vec![]
        ),
        Some("1".to_string())
    );
    assert_eq!(
        match_string_exactly(
            "1234",
            &vec![PatternAtom::Star(Box::new(PatternAtom::Digit))],
            &vec![]
        ),
        Some("1234".to_string())
    );
    assert_eq!(
        match_string_exactly(
            "abc",
            &vec![
                PatternAtom::Digit,
                PatternAtom::Star(Box::new(PatternAtom::Digit))
            ],
            &vec![]
        ),
        None
    );
}

#[test]
fn test_regression_chars() {
    assert_eq!(match_pattern("ffe", "ffe"), true);
    assert_eq!(match_pattern("1e", "\\d\\w"), true);
    assert_eq!(match_pattern("e1", "\\d\\w"), false);
    assert_eq!(match_pattern("1e", "^\\d\\w"), true);
    assert_eq!(match_pattern("e1e", "^\\d\\w"), false);
}

#[test]
fn test_regression_star() {
    assert_eq!(match_pattern("ffe", "ffe+"), true);
    assert_eq!(match_pattern("ff", "ffe+"), false);
    assert_eq!(match_pattern("caaats", "ca+at"), true);
    assert_eq!(match_pattern("caaats", "ca+bt"), false);
    assert_eq!(match_pattern("cag", "ca?t"), false);
    assert_eq!(match_pattern("gol", "g.l"), true);
    assert_eq!(match_pattern("gol", "g.+l"), true);
    assert_eq!(match_pattern("gol", "g.+gl"), false);
    assert_eq!(match_pattern("gol", "golll"), false);
}

#[test]
fn test_regression_alternation() {
    assert_eq!(match_pattern("abc", "(abc|bdf|hello)"), true);
    assert_eq!(match_pattern("abt", "(abc|bdf|hello)"), false);
    assert_eq!(match_pattern("ab1", "(ab|bdf|hello)\\d"), true);
    assert_eq!(match_pattern("a1", "(ab*|bdf|hello)\\d"), true);
}

#[test]
fn test_regression_backreference() {
    assert_eq!(match_pattern("cat and cat", "(cat) and \\1"), true);
    assert_eq!(match_pattern("cat and dog", "(cat) and \\1"), false);
    assert_eq!(match_pattern("cat and cat and cat", "(cat) and \\1 and \\1"), true);
    assert_eq!(match_pattern("cat and cat and cat", "(cat) (and) \\1 \\2 \\1"), true);
    assert_eq!(match_pattern("1 and 1 and 1", "(\\d) (and) \\1 \\2 \\1"), true);
    assert_eq!(match_pattern("1 and 1 and 1", "(\\w) (and) \\1 \\2 \\1"), true);
    assert_eq!(match_pattern("12 12", "(\\w+) \\1"), true);
    assert_eq!(match_pattern("12 and 12 and 12", "(\\w+) (and) \\1 \\2 \\1"), true);
}

#[test]
fn test_regression_backreference2() {
    // assert_eq!(match_pattern("cat is cat, not dog", "^([act]+) is \\1, not [^xyz]+$"), true);
    // assert_eq!(match_pattern("I see 1 cat", "^I see \\d+ (cat|dog)s?$"), true);
    assert_eq!(match_pattern("I see 2 dog3", "^I see \\d+ (cat|dog)s?$"), false);
}
#[test]
fn test_regression_multiple_backrefernece(){
    assert_eq!(match_pattern("3 red squares and 3 red circles", "(\\d+) (\\w+) squares and \\1 \\2 circles"), true);
    assert_eq!(match_pattern("abc-def is abc-def, not efg", "([abc]+)-([def]+) is \\1-\\2, not [^xyz]+"), true);
    assert_eq!(match_pattern("howwdy heeey there, howwdy heeey", "(how+dy) (he?y) there, \\1 \\2"), false);
    assert_eq!(match_pattern("cat and fish, cat with fish", "(c.t|d.g) and (f..h|b..d), \\1 with \\2"), true);
    assert_eq!(match_pattern("a cog", "a (cat|dog)"), false);
    assert_eq!(match_pattern("apple pie, apple and pie", "^(\\w+) (\\w+), \\1 and \\2$"), true);
}

