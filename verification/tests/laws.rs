use codecrafters_grep::matchers::{match_char, match_digit, match_positive_group, match_wordlike};
use codecrafters_grep::parser::parse_patterns;
use codecrafters_grep::patterns::{match_pattern, search};
use codecrafters_grep::text::chars_of;

#[test]
fn single_literal_matches_where_it_occurs() {
    assert!(match_pattern("dog", "d"));
    assert!(match_pattern("dog", "g"));
    assert!(!match_pattern("dog", "f"));
    assert!(!match_pattern("", "f"));
    assert!(match_pattern("a|b", "|"));
    assert!(match_pattern("a)b", ")"));
    assert!(match_pattern("a]b", "]"));
    assert_eq!(match_pattern("dog", "o"), match_char("dog", "o"));
}

#[test]
fn match_survives_a_longer_subject() {
    assert!(match_pattern("abc", "a.c"));
    assert!(match_pattern("abcdef", "a.c"));
    assert!(match_pattern("abc and more", "^a.c"));
    assert!(match_pattern("xx", "(x)\\1"));
    assert!(match_pattern("xxy", "(x)\\1"));
}

#[test]
fn longer_subject_may_break_an_end_anchor() {
    assert!(match_pattern("abc", "c$"));
    assert!(!match_pattern("abcd", "c$"));
}

#[test]
fn anchored_match_is_an_unanchored_match() {
    assert!(match_pattern("log in", "^log"));
    assert!(match_pattern("log in", "log"));
    assert!(match_pattern("aab", "^a+b$"));
    assert!(match_pattern("aab", "a+b$"));
}

#[test]
fn caret_behind_a_caret_is_a_literal() {
    assert!(match_pattern("^log", "^^log"));
    assert!(!match_pattern("^log", "^log"));
}

#[test]
fn match_is_an_anchored_match_of_a_piece() {
    assert!(match_pattern("xx ab12 yy", "[ab]+\\d"));
    assert!(match_pattern("ab1", "^[ab]+\\d$"));
    assert!(!match_pattern("xx ab yy", "[ab]+\\d"));
    assert!(!match_pattern("ab", "^[ab]+\\d$"));
    assert!(!match_pattern("b", "^[ab]+\\d$"));
    assert!(!match_pattern(" ab", "^[ab]+\\d$"));
}

#[test]
fn dollar_behind_a_dollar_is_a_literal() {
    assert!(match_pattern("a", "a$"));
    assert!(!match_pattern("a", "^a$$"));
    assert!(match_pattern("a$", "^a$$"));
}

#[test]
fn backslash_at_the_end_escapes_an_added_dollar() {
    assert!(!match_pattern("a$", "a\\"));
    assert!(match_pattern("a$", "^a\\$"));
}

#[test]
fn back_reference_repeats_the_capture() {
    let program = parse_patterns("(\\w+) \\1").unwrap();
    let subject = chars_of("say hello hello world");
    let found = search(&subject, &program).unwrap();
    assert_eq!((found.start, found.end), (4, 15));
    let capture = found.captures.get(0).unwrap();
    assert_eq!(capture, chars_of("hello"));
    let text: String = capture.iter().collect();
    assert!(match_pattern(&text, "\\w+"));
    assert!(match_char("say hello hello world", "hello hello"));
}

#[test]
fn text_search() {
    assert!(match_char("banana", "nan"));
    assert!(match_char("banana", ""));
    assert!(match_char("", ""));
    assert!(!match_char("banana", "nab"));
    assert!(!match_char("ban", "banana"));
    assert!(match_char("banana", "banana"));
    assert!(match_char("goøö", "øö"));
}

#[test]
fn digit_search() {
    assert!(match_digit("abc1"));
    assert!(!match_digit("abc"));
    assert!(!match_digit(""));
    assert!(!match_digit("٣"));
}

#[test]
fn word_search() {
    assert!(match_wordlike("--a--"));
    assert!(match_wordlike("--_--"));
    assert!(match_wordlike("--Z9--"));
    assert!(!match_wordlike("-- --"));
    assert!(!match_wordlike("é"));
    assert!(!match_wordlike(""));
}

#[test]
fn search_for_one_of_several_code_points() {
    assert!(match_positive_group("apple", "xyzp"));
    assert!(!match_positive_group("apple", "xyz"));
    assert!(!match_positive_group("apple", ""));
    assert!(!match_positive_group("", "abc"));
}

#[test]
fn back_reference_to_a_group_with_groups_inside() {
    let program = parse_patterns("((a|b)+c) \\1").unwrap();
    let subject = chars_of("xabc abc!");
    let found = search(&subject, &program).unwrap();
    assert_eq!((found.start, found.end), (1, 8));
    assert_eq!(found.captures.get(0), Some(chars_of("abc")));
    assert_eq!(found.captures.get(1), Some(chars_of("b")));
    assert!(match_pattern("abc", "(a|b)+c"));
    assert!(match_char("xabc abc!", "abc abc"));
}

#[test]
fn bar_outside_a_group_is_a_literal() {
    assert!(match_pattern("a a", "(a|b) \\1"));
    assert!(!match_pattern("a", "a|b"));
    assert!(match_pattern("a|b", "a|b"));
}
