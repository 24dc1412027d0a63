use regexrel::config::Config;
use regexrel::draw::{draw_dot, quote_dot, DrawError, DrawKind, DrawResult};

fn draw(pattern: &str, kind: DrawKind) -> DrawResult {
    draw_dot(pattern, kind, &Config::default()).unwrap()
}

#[test]
fn nfa_of_a_literal_has_a_labeled_edge() {
    let result = draw("a", DrawKind::Nfa);
    assert!(result.dot.contains("digraph"));
    assert!(result.dot.contains("label=\"a\""));
    assert!(result.dot.contains("shape=doublecircle"));
    assert!(result.dot.contains("__start -> q"));
    assert!(result.state_count >= 2);
    assert!(result.transition_count >= 1);
}

#[test]
fn nfa_of_star_has_epsilon_edges() {
    let result = draw("a*", DrawKind::Nfa);
    assert!(result.dot.contains("label=\"ε\""));
    assert!(result.dot.contains("label=\"a\""));
}

#[test]
fn dfa_has_no_epsilon_and_is_labeled_with_subsets() {
    let result = draw("a|b", DrawKind::Dfa);
    assert!(!result.dot.contains("label=\"ε\""));
    assert!(result.dot.contains("label=\"a\""));
    assert!(result.dot.contains("label=\"b\""));
    assert!(result.dot.contains('{') && result.dot.contains('}'));
}

#[test]
fn minimized_dfa_collapses_equivalent_patterns() {
    let left = draw("a|b", DrawKind::Minimized);
    let right = draw("[ab]", DrawKind::Minimized);
    assert_eq!(left.state_count, right.state_count);
    assert!(left.state_count >= 2);
    assert!(left.state_count <= 3);
}

#[test]
fn minimized_is_no_larger_than_unminimized_dfa() {
    let dfa = draw("(a|b)*a", DrawKind::Dfa);
    let min = draw("(a|b)*a", DrawKind::Minimized);
    assert!(min.state_count <= dfa.state_count);
}

#[test]
fn class_and_dot_labels_stay_compact() {
    let digits = draw(r"\d", DrawKind::Nfa);
    assert!(digits.dot.contains("label=\"\\\\d\"") || digits.dot.contains(r#"label="\d""#));
    let any = draw(".", DrawKind::Nfa);
    assert!(any.dot.contains("label=\".\""));
}

#[test]
fn syntax_error_is_surfaced() {
    let error = draw_dot("(", DrawKind::Nfa, &Config::default()).unwrap_err();
    assert!(matches!(error, DrawError::Input(_)));
}

#[test]
fn empty_language_still_produces_a_graph() {
    let result = draw(r"[^\d\D]", DrawKind::Dfa);
    assert!(result.dot.contains("digraph"));
    assert!(result.state_count >= 1);
}

#[test]
fn quote_dot_escapes_specials() {
    assert_eq!(quote_dot(r#"a"b\"#), r#""a\"b\\""#);
}

#[test]
fn nfa_drawing_of_a_literal_is_exact() {
    let result = draw("a", DrawKind::Nfa);
    let expected = "digraph {\n  graph [rankdir=LR, pad=\"0.3\", bgcolor=\"transparent\"];\n  node [shape=circle, fontsize=12, fontname=\"Helvetica\"];\n  edge [fontsize=11, fontname=\"Helvetica\", arrowsize=0.7];\n  labelloc=\"t\";\n  label=\"NFA of a\";\n  __start [shape=point, width=0.12, height=0.12, label=\"\"];\n  __start -> q0;\n  q0;\n  q1 [shape=doublecircle];\n  q0 -> q1 [label=\"a\"];\n}\n";
    assert_eq!(result.dot, expected);
    assert_eq!(result.state_count, 2);
    assert_eq!(result.transition_count, 1);
    assert_eq!(result.kind, DrawKind::Nfa);
    assert_eq!(result.pattern, "a");
}

#[test]
fn dfa_drawing_hides_the_dead_state_and_labels_subsets() {
    let result = draw("ab", DrawKind::Dfa);
    assert!(!result.dot.contains("  q0 ["));
    assert!(!result.dot.contains("  q0;"));
    assert!(result.dot.contains("label=\"{"));
    assert!(!result.dot.contains("-> q0 "));
}

#[test]
fn kind_names_and_titles() {
    assert_eq!(DrawKind::Nfa.as_str(), "nfa");
    assert_eq!(DrawKind::Dfa.as_str(), "dfa");
    assert_eq!(DrawKind::Minimized.as_str(), "minimized");
    assert_eq!(DrawKind::Minimized.title(), "Minimized DFA");
}

#[test]
fn limit_errors_name_the_phase() {
    let mut config = Config::default();
    config.max_product_states = 1;
    let error = draw_dot("(a|b)*a(a|b)(a|b)", DrawKind::Dfa, &config).unwrap_err();
    assert_eq!(
        error.message(),
        "determinization hit the state limit (1); raise --max-states or simplify the pattern"
    );
}

#[test]
fn quote_dot_escapes_newlines() {
    assert_eq!(quote_dot("a\nb\rc"), "\"a\\nb\\rc\"");
}

#[test]
fn subsets_are_written_in_braces() {
    assert_eq!(regexrel::draw::format_subset(&[]), "∅");
    assert_eq!(regexrel::draw::format_subset(&[0, 4, 12]), "{0,4,12}");
}
