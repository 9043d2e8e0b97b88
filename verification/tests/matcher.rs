use codecrafters_grep::captures::Captures;
use codecrafters_grep::parser::parse_patterns;
use codecrafters_grep::parser::parse_chars;
use codecrafters_grep::patterns::{
    find_match, is_digit_char, is_word_char, match_any, match_none, match_pattern, match_patterns,
    member_matches, resume, search, Continuation, Pattern,
};
use codecrafters_grep::text::chars_of;

fn span(subject: &str, pattern: &str) -> Option<(usize, usize)> {
    let program = parse_patterns(pattern).unwrap();
    match_patterns(&chars_of(subject), &program)
}

fn captured(subject: &str, pattern: &str) -> Vec<Option<String>> {
    let program = parse_patterns(pattern).unwrap();
    let found = search(&chars_of(subject), &program).unwrap();
    let mut texts = Vec::new();
    for id in 0..found.captures.len() {
        texts.push(found.captures.get(id).map(|t| t.into_iter().collect::<String>()));
    }
    texts
}

#[test]
fn chars_of_counts_code_points() {
    assert_eq!(chars_of("aø0"), vec!['a', 'ø', '0']);
    assert_eq!(chars_of(""), Vec::<char>::new());
}

#[test]
fn leftmost_match_wins() {
    assert_eq!(span("xxabcabc", "abc"), Some((2, 5)));
    assert_eq!(span("abab", "b"), Some((1, 2)));
}

#[test]
fn empty_pattern_matches_at_the_start() {
    assert_eq!(span("abc", ""), Some((0, 0)));
    assert_eq!(span("", ""), Some((0, 0)));
}

#[test]
fn match_may_start_at_the_end_of_the_subject() {
    assert_eq!(span("abc", "x?$"), Some((3, 3)));
    assert_eq!(span("abc", "$"), Some((3, 3)));
}

#[test]
fn repetition_is_greedy() {
    assert_eq!(span("baaac", "a+"), Some((1, 4)));
    assert_eq!(span("baaac", "a+c"), Some((1, 5)));
}

#[test]
fn repetition_backs_off_one_at_a_time() {
    assert_eq!(span("aaab", "a+ab"), Some((0, 4)));
    assert_eq!(span("aaa", "a+aa"), Some((0, 3)));
    assert_eq!(span("aa", "a+aa"), None);
}

#[test]
fn optional_prefers_to_match() {
    assert_eq!(span("ab", "ab?"), Some((0, 2)));
    assert_eq!(span("ac", "ab?"), Some((0, 1)));
    assert_eq!(span("abb", "ab?b"), Some((0, 3)));
    assert_eq!(span("ab", "ab?b"), Some((0, 2)));
}

#[test]
fn earlier_alternative_is_preferred() {
    assert_eq!(span("abc", "(a|ab)"), Some((0, 1)));
    assert_eq!(span("abc", "(ab|a)"), Some((0, 2)));
}

#[test]
fn later_alternative_is_taken_if_the_rest_needs_it() {
    assert_eq!(span("abc", "(a|ab)c"), Some((0, 3)));
    assert_eq!(captured("abc", "(a|ab)c"), vec![Some("ab".to_string())]);
}

#[test]
fn group_backs_off_inside_an_alternative() {
    assert_eq!(span("aaab", "(a+)ab"), Some((0, 4)));
    assert_eq!(captured("aaab", "(a+)ab"), vec![Some("aa".to_string())]);
}

#[test]
fn repeated_group_keeps_its_last_capture() {
    assert_eq!(span("abcd", "(a|b|c)+"), Some((0, 3)));
    assert_eq!(captured("abcd", "(a|b|c)+"), vec![Some("c".to_string())]);
}

#[test]
fn group_on_a_branch_not_taken_holds_nothing() {
    assert_eq!(
        captured("b", "((a)|b)"),
        vec![Some("b".to_string()), None]
    );
}

#[test]
fn capture_of_a_failed_alternative_is_undone() {
    assert_eq!(
        captured("ab", "((a)c|ab)"),
        vec![Some("ab".to_string()), None]
    );
}

#[test]
fn nested_groups_capture() {
    assert_eq!(
        captured("xaby", "((a)(b))"),
        vec![Some("ab".to_string()), Some("a".to_string()), Some("b".to_string())]
    );
}

#[test]
fn back_reference_to_unset_group_fails() {
    assert_eq!(span("b", "((a)|b)\\2"), None);
    assert_eq!(span("aa", "((a)|b)\\2"), Some((0, 2)));
    assert_eq!(span("a", "(a\\1)"), None);
}

#[test]
fn back_reference_to_empty_capture_matches_nothing_more() {
    assert_eq!(span("ab", "(x?)a\\1b"), Some((0, 2)));
}

#[test]
fn back_reference_counts_code_points() {
    assert_eq!(span("øö-øö", "(..)-\\1"), Some((0, 5)));
}

#[test]
fn repetition_of_what_may_be_empty_ends() {
    assert_eq!(span("aab", "(a?)+b"), Some((0, 3)));
    assert_eq!(span("b", "(a?)+b"), Some((0, 1)));
    assert_eq!(span("", "(a?)+"), Some((0, 0)));
}

#[test]
fn wildcard_does_not_match_a_line_feed() {
    assert_eq!(span("a\nb", "a.b"), None);
    assert_eq!(span("a\nb", "a[^x]b"), Some((0, 3)));
    assert_eq!(span("\n", "."), None);
}

#[test]
fn digit_and_word_classes_are_ascii() {
    assert_eq!(span("x٣7", "\\d"), Some((2, 3)));
    assert_eq!(span("é_", "\\w"), Some((1, 2)));
    assert_eq!(span("é-", "\\w"), None);
    assert_eq!(span("-Az09_", "\\w+"), Some((1, 6)));
}

#[test]
fn class_with_escapes() {
    assert_eq!(span("--7", "[\\da]"), Some((2, 3)));
    assert_eq!(span("a7", "[^\\d]"), Some((0, 1)));
    assert_eq!(span("77", "[^\\d]"), None);
    assert_eq!(span("7_", "[^\\w]"), None);
}

#[test]
fn start_anchor_tries_position_zero_only() {
    assert_eq!(span("ab", "^b"), None);
    assert_eq!(span("ab", "^a"), Some((0, 1)));
}

#[test]
fn end_anchor_needs_the_end_of_the_subject() {
    assert_eq!(span("abab", "ab$"), Some((2, 4)));
    assert_eq!(span("aba", "ab$"), None);
    assert_eq!(span("aaa", "a+$"), Some((0, 3)));
    assert_eq!(span("aab", "^a+$"), None);
}

#[test]
fn end_anchor_makes_the_matcher_back_off() {
    assert_eq!(span("ab", "^(a|ab)$"), Some((0, 2)));
    assert_eq!(span("aa", "^a?a?a$"), Some((0, 2)));
}

#[test]
fn line_feed_at_the_end_of_the_line_is_not_part_of_the_subject() {
    assert!(match_pattern("cat\n", "cat$"));
    assert!(match_pattern("cat\n", "^cat$"));
    assert!(!match_pattern("cat\n\n", "cat$"));
    assert!(!match_pattern("cat\n", "cat[^x]"));
    assert!(match_pattern("\n", "^$"));
    assert!(match_pattern("", "^$"));
}

#[test]
fn refused_pattern_matches_nothing() {
    assert!(!match_pattern("(a", "(a"));
    assert!(!match_pattern("a+", "+"));
    assert!(!match_pattern("[]", "[]"));
    assert!(!match_pattern("\\", "\\"));
    assert!(!match_pattern("a", "\\1"));
}

#[test]
fn class_membership() {
    let members = vec![Pattern::single_character('a'), Pattern::digit(), Pattern::word_like()];
    assert!(match_any(&members, 'a'));
    assert!(match_any(&members, '5'));
    assert!(match_any(&members, '_'));
    assert!(!match_any(&members, '-'));
    assert!(match_none(&members, '-'));
    assert!(!match_none(&members, 'z'));
    assert!(!match_any(&vec![], 'a'));
    assert!(match_none(&vec![], 'a'));
    assert!(!match_any(&vec![Pattern::wildcard()], 'a'));
}

#[test]
fn empty_class_from_the_builder_accepts_nothing() {
    assert!(!Pattern::any().accepts('a'));
    assert_eq!(Pattern::any(), Pattern::Any(vec![], false));
}

#[test]
fn builders_make_the_variants() {
    assert_eq!(Pattern::single_character('x'), Pattern::SingleCharacter('x'));
    assert_eq!(
        Pattern::repeating(Pattern::digit()),
        Pattern::Repeating(Box::new(Pattern::Digit))
    );
    assert_eq!(
        Pattern::optional(Pattern::word_like()),
        Pattern::Optional(Box::new(Pattern::WordLike))
    );
    assert_eq!(Pattern::wildcard(), Pattern::Wildcard);
    assert_eq!(Pattern::backreference(3), Pattern::BackReference(3));
    assert_eq!(
        Pattern::choice(2, vec![vec![Pattern::digit()]]),
        Pattern::Choice(2, vec![vec![Pattern::Digit]])
    );
}

#[test]
fn node_matches_then_the_rest() {
    let subject = chars_of("aaab");
    let mut captures = Captures::new(0);
    let accept = Continuation::Accept { at_end: false };
    let at_end = Continuation::Accept { at_end: true };
    let a = Pattern::single_character('a');
    assert_eq!(a.matches(&subject, 0, &mut captures, &accept), Some(1));
    assert_eq!(a.matches(&subject, 3, &mut captures, &accept), None);
    assert_eq!(a.matches(&subject, 4, &mut captures, &accept), None);
    assert_eq!(a.matches(&subject, 0, &mut captures, &at_end), None);
    let many = Pattern::repeating(Pattern::single_character('a'));
    assert_eq!(many.matches(&subject, 0, &mut captures, &accept), Some(3));
    assert_eq!(many.matches(&subject, 1, &mut captures, &accept), Some(3));
    let tail = vec![Pattern::single_character('a'), Pattern::single_character('b')];
    let then = Continuation::Sequence { nodes: &tail, from: 0, then: &at_end };
    assert_eq!(many.matches(&subject, 0, &mut captures, &then), Some(4));
    let skip = Continuation::Sequence { nodes: &tail, from: 1, then: &at_end };
    assert_eq!(many.matches(&subject, 0, &mut captures, &skip), Some(4));
    let none = Continuation::Sequence { nodes: &tail, from: 2, then: &accept };
    assert_eq!(many.matches(&subject, 0, &mut captures, &none), Some(3));
    let beyond = Continuation::Sequence { nodes: &tail, from: 7, then: &accept };
    assert_eq!(many.matches(&subject, 0, &mut captures, &beyond), Some(3));
}

#[test]
fn sequence_matches_from_an_index() {
    let subject = chars_of("abc");
    let nodes = vec![
        Pattern::single_character('a'),
        Pattern::single_character('b'),
        Pattern::single_character('c'),
    ];
    let mut captures = Captures::new(0);
    let accept = Continuation::Accept { at_end: false };
    assert_eq!(find_match(&nodes, 0, &subject, 0, &mut captures, &accept), Some(3));
    assert_eq!(find_match(&nodes, 1, &subject, 1, &mut captures, &accept), Some(3));
    assert_eq!(find_match(&nodes, 1, &subject, 0, &mut captures, &accept), None);
    assert_eq!(find_match(&nodes, 3, &subject, 1, &mut captures, &accept), Some(1));
    assert_eq!(find_match(&nodes, 9, &subject, 2, &mut captures, &accept), Some(2));
}

#[test]
fn closing_a_group_records_and_failure_restores() {
    let subject = chars_of("abc");
    let mut captures = Captures::new(2);
    let accept = Continuation::Accept { at_end: false };
    let close = Continuation::CloseGroup { id: 1, start: 1, then: &accept };
    assert_eq!(resume(&close, &subject, 3, &mut captures), Some(3));
    assert_eq!(captures.get(0), None);
    assert_eq!(captures.get(1), Some(vec!['b', 'c']));
    let at_end = Continuation::Accept { at_end: true };
    let fails = Continuation::CloseGroup { id: 1, start: 0, then: &at_end };
    assert_eq!(resume(&fails, &subject, 1, &mut captures), None);
    assert_eq!(captures.get(1), Some(vec!['b', 'c']));
    let beyond = Continuation::CloseGroup { id: 5, start: 0, then: &accept };
    assert_eq!(resume(&beyond, &subject, 2, &mut captures), Some(2));
    assert_eq!(captures.len(), 2);
    let backwards = Continuation::CloseGroup { id: 0, start: 2, then: &accept };
    assert_eq!(resume(&backwards, &subject, 1, &mut captures), Some(1));
    assert_eq!(captures.get(0), Some(vec![]));
}

#[test]
fn back_reference_node_reads_the_captures() {
    let subject = chars_of("abab");
    let mut captures = Captures::new(1);
    let accept = Continuation::Accept { at_end: false };
    let back = Pattern::backreference(0);
    assert_eq!(back.matches(&subject, 2, &mut captures, &accept), None);
    let close = Continuation::CloseGroup { id: 0, start: 0, then: &accept };
    assert_eq!(resume(&close, &subject, 2, &mut captures), Some(2));
    assert_eq!(back.matches(&subject, 2, &mut captures, &accept), Some(4));
    assert_eq!(back.matches(&subject, 1, &mut captures, &accept), None);
    assert_eq!(back.matches(&subject, 3, &mut captures, &accept), None);
    assert_eq!(Pattern::backreference(4).matches(&subject, 0, &mut captures, &accept), None);
    assert_eq!(captures.length_if_here(0, &subject, 0), Some(2));
    assert_eq!(captures.length_if_here(0, &subject, 9), None);
}

#[test]
fn fresh_captures_hold_nothing() {
    let captures = Captures::new(3);
    assert_eq!(captures.len(), 3);
    assert_eq!(captures.get(0), None);
    assert_eq!(captures.get(2), None);
    assert_eq!(captures.get(3), None);
}

#[test]
fn copies_are_equal() {
    let program = parse_patterns("^(a|[b\\d]+)?\\1.$").unwrap();
    assert_eq!(program.clone(), program);
    let node = Pattern::choice(0, vec![vec![Pattern::repeating(Pattern::any())], vec![]]);
    assert_eq!(node.clone(), node);
}

#[test]
fn single_code_point_patterns() {
    assert!(Pattern::single_character('a').accepts('a'));
    assert!(!Pattern::single_character('a').accepts('b'));
    assert!(Pattern::digit().accepts('0'));
    assert!(Pattern::digit().accepts('9'));
    assert!(!Pattern::digit().accepts('a'));
    assert!(Pattern::word_like().accepts('_'));
    assert!(!Pattern::word_like().accepts(' '));
    assert!(Pattern::wildcard().accepts(' '));
    assert!(!Pattern::wildcard().accepts('\n'));
    let class = Pattern::Any(vec![Pattern::single_character('x'), Pattern::digit()], false);
    assert!(class.accepts('x'));
    assert!(class.accepts('4'));
    assert!(!class.accepts('y'));
    let negated = Pattern::Any(vec![Pattern::single_character('x'), Pattern::digit()], true);
    assert!(!negated.accepts('x'));
    assert!(negated.accepts('y'));
    assert!(negated.accepts('\n'));
    assert!(!Pattern::backreference(0).accepts('a'));
    assert!(!Pattern::optional(Pattern::digit()).accepts('1'));
}

#[test]
fn ranges_of_digits_and_word_code_points() {
    assert!(is_digit_char('0') && is_digit_char('9'));
    assert!(!is_digit_char('/') && !is_digit_char(':'));
    assert!(is_word_char('a') && is_word_char('z') && is_word_char('A') && is_word_char('Z'));
    assert!(is_word_char('0') && is_word_char('_'));
    assert!(!is_word_char('`') && !is_word_char('{') && !is_word_char('@') && !is_word_char('['));
    assert!(member_matches(&Pattern::word_like(), 'q'));
    assert!(!member_matches(&Pattern::wildcard(), 'q'));
    assert!(!member_matches(&Pattern::any(), 'q'));
}

#[test]
fn parsing_code_points_is_parsing_the_pattern() {
    assert_eq!(parse_chars(&chars_of("^(a|b)+\\1$")), parse_patterns("^(a|b)+\\1$"));
    assert_eq!(parse_chars(&chars_of("(a")), parse_patterns("(a"));
}
