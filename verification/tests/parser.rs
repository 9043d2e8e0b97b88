use codecrafters_grep::parser::{parse_patterns, ParseError};
use codecrafters_grep::patterns::{Pattern, Program};

fn lit(c: char) -> Pattern {
    Pattern::single_character(c)
}

fn program(nodes: Vec<Pattern>, groups: usize) -> Program {
    Program { nodes, anchored_start: false, anchored_end: false, groups }
}

#[test]
fn empty_pattern_is_an_empty_program() {
    assert_eq!(parse_patterns(""), Ok(program(vec![], 0)));
}

#[test]
fn literals_in_order() {
    assert_eq!(parse_patterns("abc"), Ok(program(vec![lit('a'), lit('b'), lit('c')], 0)));
}

#[test]
fn escapes_for_classes_of_code_points() {
    assert_eq!(
        parse_patterns("\\d\\w."),
        Ok(program(vec![Pattern::digit(), Pattern::word_like(), Pattern::wildcard()], 0))
    );
}

#[test]
fn escaped_punctuation_is_literal() {
    assert_eq!(
        parse_patterns("\\\\\\.\\(\\+\\?\\$\\^\\[\\|\\)"),
        Ok(program(
            vec![
                lit('\\'),
                lit('.'),
                lit('('),
                lit('+'),
                lit('?'),
                lit('$'),
                lit('^'),
                lit('['),
                lit('|'),
                lit(')')
            ],
            0
        ))
    );
}

#[test]
fn escaped_zero_and_letters_are_literal() {
    assert_eq!(parse_patterns("\\0\\a"), Ok(program(vec![lit('0'), lit('a')], 0)));
}

#[test]
fn anchors_only_at_the_ends() {
    assert_eq!(
        parse_patterns("^a$"),
        Ok(Program { nodes: vec![lit('a')], anchored_start: true, anchored_end: true, groups: 0 })
    );
    assert_eq!(
        parse_patterns("a^b$c"),
        Ok(program(vec![lit('a'), lit('^'), lit('b'), lit('$'), lit('c')], 0))
    );
}

#[test]
fn second_caret_is_literal() {
    assert_eq!(
        parse_patterns("^^a"),
        Ok(Program {
            nodes: vec![lit('^'), lit('a')],
            anchored_start: true,
            anchored_end: false,
            groups: 0
        })
    );
}

#[test]
fn only_the_last_dollar_is_an_anchor() {
    assert_eq!(
        parse_patterns("a$$"),
        Ok(Program {
            nodes: vec![lit('a'), lit('$')],
            anchored_start: false,
            anchored_end: true,
            groups: 0
        })
    );
}

#[test]
fn escaped_dollar_at_the_end_is_literal() {
    assert_eq!(parse_patterns("a\\$"), Ok(program(vec![lit('a'), lit('$')], 0)));
    assert_eq!(
        parse_patterns("a\\\\$"),
        Ok(Program {
            nodes: vec![lit('a'), lit('\\')],
            anchored_start: false,
            anchored_end: true,
            groups: 0
        })
    );
}

#[test]
fn anchors_alone() {
    assert_eq!(
        parse_patterns("^"),
        Ok(Program { nodes: vec![], anchored_start: true, anchored_end: false, groups: 0 })
    );
    assert_eq!(
        parse_patterns("$"),
        Ok(Program { nodes: vec![], anchored_start: false, anchored_end: true, groups: 0 })
    );
    assert_eq!(
        parse_patterns("^$"),
        Ok(Program { nodes: vec![], anchored_start: true, anchored_end: true, groups: 0 })
    );
}

#[test]
fn positive_and_negated_classes() {
    assert_eq!(
        parse_patterns("[abc]"),
        Ok(program(vec![Pattern::Any(vec![lit('a'), lit('b'), lit('c')], false)], 0))
    );
    assert_eq!(
        parse_patterns("[^ab]"),
        Ok(program(vec![Pattern::Any(vec![lit('a'), lit('b')], true)], 0))
    );
}

#[test]
fn caret_after_the_first_place_of_a_class_is_literal() {
    assert_eq!(
        parse_patterns("[a^]"),
        Ok(program(vec![Pattern::Any(vec![lit('a'), lit('^')], false)], 0))
    );
    assert_eq!(
        parse_patterns("[^^]"),
        Ok(program(vec![Pattern::Any(vec![lit('^')], true)], 0))
    );
    assert_eq!(
        parse_patterns("[\\^a]"),
        Ok(program(vec![Pattern::Any(vec![lit('^'), lit('a')], false)], 0))
    );
}

#[test]
fn class_members_are_literal_but_for_digit_and_word_escapes() {
    assert_eq!(
        parse_patterns("[.+?(|)$[\\d\\w\\.\\1]"),
        Ok(program(
            vec![Pattern::Any(
                vec![
                    lit('.'),
                    lit('+'),
                    lit('?'),
                    lit('('),
                    lit('|'),
                    lit(')'),
                    lit('$'),
                    lit('['),
                    Pattern::digit(),
                    Pattern::word_like(),
                    lit('.'),
                    lit('1')
                ],
                false
            )],
            0
        ))
    );
}

#[test]
fn closing_bracket_always_closes_a_class() {
    assert_eq!(
        parse_patterns("[a\\]b"),
        Ok(program(vec![Pattern::Any(vec![lit('a')], false), lit('b')], 0))
    );
}

#[test]
fn bracket_and_parenthesis_without_opening_are_literal() {
    assert_eq!(parse_patterns("a]"), Ok(program(vec![lit('a'), lit(']')], 0)));
    assert_eq!(parse_patterns("a)"), Ok(program(vec![lit('a'), lit(')')], 0)));
    assert_eq!(parse_patterns("a|b"), Ok(program(vec![lit('a'), lit('|'), lit('b')], 0)));
}

#[test]
fn quantifiers_wrap_the_last_node() {
    assert_eq!(
        parse_patterns("ab+c?"),
        Ok(program(
            vec![lit('a'), Pattern::repeating(lit('b')), Pattern::optional(lit('c'))],
            0
        ))
    );
}

#[test]
fn operator_after_a_quantifier_is_literal() {
    assert_eq!(
        parse_patterns("a++"),
        Ok(program(vec![Pattern::repeating(lit('a')), lit('+')], 0))
    );
    assert_eq!(
        parse_patterns("a??"),
        Ok(program(vec![Pattern::optional(lit('a')), lit('?')], 0))
    );
    assert_eq!(
        parse_patterns("a+?"),
        Ok(program(vec![Pattern::repeating(lit('a')), lit('?')], 0))
    );
    assert_eq!(
        parse_patterns("a?+"),
        Ok(program(vec![Pattern::optional(lit('a')), lit('+')], 0))
    );
    assert_eq!(
        parse_patterns("a+++"),
        Ok(program(vec![Pattern::repeating(lit('a')), Pattern::repeating(lit('+'))], 0))
    );
}

#[test]
fn quantifier_on_class_and_group() {
    assert_eq!(
        parse_patterns("[ab]+(c)?"),
        Ok(program(
            vec![
                Pattern::repeating(Pattern::Any(vec![lit('a'), lit('b')], false)),
                Pattern::optional(Pattern::choice(0, vec![vec![lit('c')]]))
            ],
            1
        ))
    );
}

#[test]
fn group_with_alternatives() {
    assert_eq!(
        parse_patterns("(cat|dog|)"),
        Ok(program(
            vec![Pattern::choice(
                0,
                vec![
                    vec![lit('c'), lit('a'), lit('t')],
                    vec![lit('d'), lit('o'), lit('g')],
                    vec![]
                ]
            )],
            1
        ))
    );
    assert_eq!(parse_patterns("()"), Ok(program(vec![Pattern::choice(0, vec![vec![]])], 1)));
}

#[test]
fn groups_are_numbered_by_their_opening_parenthesis() {
    assert_eq!(
        parse_patterns("((a)(b))(c)"),
        Ok(program(
            vec![
                Pattern::choice(
                    0,
                    vec![vec![
                        Pattern::choice(1, vec![vec![lit('a')]]),
                        Pattern::choice(2, vec![vec![lit('b')]])
                    ]]
                ),
                Pattern::choice(3, vec![vec![lit('c')]])
            ],
            4
        ))
    );
}

#[test]
fn back_reference_counts_from_one() {
    assert_eq!(
        parse_patterns("(a)(b)\\2\\1"),
        Ok(program(
            vec![
                Pattern::choice(0, vec![vec![lit('a')]]),
                Pattern::choice(1, vec![vec![lit('b')]]),
                Pattern::backreference(1),
                Pattern::backreference(0)
            ],
            2
        ))
    );
}

#[test]
fn error_unbalanced_parenthesis() {
    assert_eq!(parse_patterns("(ab"), Err(ParseError::UnbalancedParenthesis));
    assert_eq!(parse_patterns("((a)"), Err(ParseError::UnbalancedParenthesis));
    assert_eq!(parse_patterns("(a$"), Err(ParseError::UnbalancedParenthesis));
}

#[test]
fn error_unbalanced_bracket() {
    assert_eq!(parse_patterns("[ab"), Err(ParseError::UnbalancedBracket));
    assert_eq!(parse_patterns("a[b)c"), Err(ParseError::UnbalancedBracket));
}

#[test]
fn error_bad_back_reference() {
    assert_eq!(parse_patterns("\\1"), Err(ParseError::BadBackReference));
    assert_eq!(parse_patterns("(a)\\2"), Err(ParseError::BadBackReference));
    assert_eq!(parse_patterns("\\1(a)"), Err(ParseError::BadBackReference));
}

#[test]
fn error_dangling_escape() {
    assert_eq!(parse_patterns("a\\"), Err(ParseError::DanglingEscape));
    assert_eq!(parse_patterns("\\"), Err(ParseError::DanglingEscape));
    assert_eq!(parse_patterns("[a\\"), Err(ParseError::DanglingEscape));
}

#[test]
fn error_nothing_to_quantify() {
    assert_eq!(parse_patterns("+a"), Err(ParseError::NothingToQuantify));
    assert_eq!(parse_patterns("?"), Err(ParseError::NothingToQuantify));
    assert_eq!(parse_patterns("(+a)"), Err(ParseError::NothingToQuantify));
    assert_eq!(parse_patterns("(a|?)"), Err(ParseError::NothingToQuantify));
    assert_eq!(parse_patterns("^+"), Err(ParseError::NothingToQuantify));
}

#[test]
fn error_empty_class() {
    assert_eq!(parse_patterns("[]"), Err(ParseError::EmptyClass));
    assert_eq!(parse_patterns("[^]"), Err(ParseError::EmptyClass));
    assert_eq!(parse_patterns("a[\\]"), Err(ParseError::EmptyClass));
}

#[test]
fn the_first_error_is_reported() {
    assert_eq!(parse_patterns("+[]"), Err(ParseError::NothingToQuantify));
    assert_eq!(parse_patterns("[]+"), Err(ParseError::EmptyClass));
    assert_eq!(parse_patterns("(\\2"), Err(ParseError::BadBackReference));
}

#[test]
fn back_reference_inside_its_own_group_is_accepted() {
    assert_eq!(
        parse_patterns("(a\\1)"),
        Ok(program(
            vec![Pattern::choice(0, vec![vec![lit('a'), Pattern::backreference(0)]])],
            1
        ))
    );
}
