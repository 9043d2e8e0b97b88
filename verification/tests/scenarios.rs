use codecrafters_grep::patterns::match_pattern;

#[test]
fn digit_then_literal_text() {
    assert!(match_pattern("sally has 3 apples", "\\d apple"));
    assert!(!match_pattern("sally has 1 orange", "\\d apple"));
}

#[test]
fn start_anchor() {
    assert!(match_pattern("log", "^log"));
    assert!(!match_pattern("slog", "^log"));
    assert!(match_pattern("^log", "^^log"));
}

#[test]
fn end_anchor() {
    assert!(match_pattern("cat", "cat$"));
    assert!(!match_pattern("cats", "cat$"));
}

#[test]
fn one_or_more() {
    assert!(match_pattern("caaats", "ca+t"));
    assert!(!match_pattern("ct", "ca+t"));
}

#[test]
fn zero_or_one() {
    assert!(match_pattern("act", "ca?t"));
    assert!(!match_pattern("cag", "ca?t"));
}

#[test]
fn wildcard_counts_code_points() {
    assert!(match_pattern("goøö0Ogol", "g.+gol"));
    assert!(!match_pattern("gol", "g.+gol"));
}

#[test]
fn alternation_in_two_groups() {
    assert!(match_pattern("a dog and cats", "a (cat|dog) and (cat|dog)s"));
}

#[test]
fn single_back_reference() {
    assert!(match_pattern("cat and cat", "(cat) and \\1"));
    assert!(!match_pattern("cat and dog", "(cat) and \\1"));
}

#[test]
fn anchored_back_reference() {
    assert!(match_pattern(
        "this starts and ends with this",
        "^(\\w+) starts and ends with \\1$"
    ));
    assert!(!match_pattern(
        "that starts and ends with this",
        "^(\\w+) starts and ends with \\1$"
    ));
}

#[test]
fn two_back_references() {
    assert!(match_pattern(
        "3 red squares and 3 red circles",
        "(\\d+) (\\w+) squares and \\1 \\2 circles"
    ));
    assert!(!match_pattern(
        "3 red squares and 4 red circles",
        "(\\d+) (\\w+) squares and \\1 \\2 circles"
    ));
}

#[test]
fn back_references_to_quantified_groups() {
    assert!(match_pattern(
        "howwdy hey there, howwdy hey",
        "(how+dy) (he?y) there, \\1 \\2"
    ));
    assert!(!match_pattern(
        "hody hey there, howwdy hey",
        "(how+dy) (he?y) there, \\1 \\2"
    ));
}

#[test]
fn negated_class() {
    assert!(!match_pattern("banana", "[^anb]"));
    assert!(match_pattern("apple", "[^xyz]"));
}
