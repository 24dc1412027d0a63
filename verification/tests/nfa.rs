use regexrel::ast::{Expr, ExprKind, Span};
use regexrel::config::{Alphabet, Config};
use regexrel::nfa::Nfa;
use regexrel::parser::parse;


fn compile(pattern: &str) -> Nfa {
    Nfa::from_expr(&parse(pattern, &Config::default()).unwrap())
}

fn compile_with(pattern: &str, config: &Config) -> Nfa {
    Nfa::from_expr(&parse(pattern, config).unwrap())
}

#[test]
fn concatenation_requires_every_part() {
    let nfa = compile("abc");
    assert!(nfa.matches("abc"));
    assert!(!nfa.matches("ab"));
    assert!(!nfa.matches("abcd"));
}

#[test]
fn alternation_accepts_either_branch() {
    let nfa = compile("ab|cd");
    assert!(nfa.matches("ab"));
    assert!(nfa.matches("cd"));
    assert!(!nfa.matches("ad"));
}

#[test]
fn repeat_matches_expected_language() {
    let nfa = compile("ab{2,3}");
    assert!(nfa.matches("abb"));
    assert!(nfa.matches("abbb"));
    assert!(!nfa.matches("ab"));
    assert!(!nfa.matches("abbbb"));
}

#[test]
fn exact_zero_repeat_accepts_only_empty() {
    let nfa = compile("a{0}");
    assert!(nfa.matches(""));
    assert!(!nfa.matches("a"));
}

#[test]
fn star_accepts_empty_and_multiple_copies() {
    let nfa = compile("(ab)*");
    assert!(nfa.matches(""));
    assert!(nfa.matches("ab"));
    assert!(nfa.matches("abab"));
    assert!(!nfa.matches("aba"));
}

#[test]
fn plus_requires_one_copy() {
    let nfa = compile("a+");
    assert!(!nfa.matches(""));
    assert!(nfa.matches("a"));
    assert!(nfa.matches("aaa"));
}

#[test]
fn optional_accepts_zero_or_one_copy() {
    let nfa = compile("colou?r");
    assert!(nfa.matches("color"));
    assert!(nfa.matches("colour"));
    assert!(!nfa.matches("colouur"));
}

#[test]
fn classes_and_negated_classes_use_the_configured_alphabet() {
    let positive = compile("[a-c]");
    assert!(positive.matches("b"));
    assert!(!positive.matches("d"));

    let negative = compile("[^a]");
    assert!(negative.matches("b"));
    assert!(!negative.matches("a"));
    assert!(!negative.matches("é"));
}

#[test]
fn shorthand_classes_match_documented_ascii_sets() {
    assert!(compile(r"\d").matches("5"));
    assert!(!compile(r"\d").matches("x"));
    assert!(compile(r"\w").matches("_"));
    assert!(compile(r"\s").matches("\t"));
}

#[test]
fn dot_newline_behavior_is_configurable() {
    assert!(!compile(".").matches("\n"));
    let config = Config {
        dot_matches_newline: true,
        ..Config::default()
    };
    assert!(compile_with(".", &config).matches("\n"));
}

#[test]
fn outer_anchors_do_not_change_full_string_language() {
    let anchored = compile("^ab$");
    let plain = compile("ab");
    for word in ["", "a", "ab", "zab", "abz"] {
        assert_eq!(anchored.matches(word), plain.matches(word));
    }
}

#[test]
fn unicode_literal_matches_in_unicode_mode() {
    let config = Config {
        alphabet: Alphabet::Unicode,
        ..Config::default()
    };
    let nfa = compile_with("é+", &config);
    assert!(nfa.matches("é"));
    assert!(nfa.matches("éé"));
    assert!(!nfa.matches("e"));
}

#[test]
fn bounded_repeat_of_alternation_counts_copies() {
    let nfa = compile("(ab|c){1,2}");
    assert!(nfa.matches("ab"));
    assert!(nfa.matches("cab"));
    assert!(nfa.matches("abc"));
    assert!(nfa.matches("cc"));
    assert!(!nfa.matches(""));
    assert!(!nfa.matches("ccc"));
    assert!(!nfa.matches("abab c"));
}

#[test]
fn unbounded_repeat_keeps_its_minimum() {
    let nfa = compile("(ab){2,}");
    assert!(!nfa.matches("ab"));
    assert!(nfa.matches("abab"));
    assert!(nfa.matches("ababababab"));
    assert!(!nfa.matches("ababa"));
}

#[test]
fn plain_pattern_matches_exactly_its_own_text() {
    let nfa = compile("a]b}c-");
    assert!(nfa.matches("a]b}c-"));
    assert!(!nfa.matches("a]b}c"));
    assert!(!nfa.matches("a]b}c--"));
    assert!(!nfa.matches(""));
}

#[test]
fn empty_alternation_accepts_nothing() {
    let expr = Expr { kind: ExprKind::Alt(Vec::new()), span: Span::new(0, 0) };
    let nfa = Nfa::from_expr(&expr);
    assert!(!nfa.matches(""));
    assert!(!nfa.matches("a"));
}
