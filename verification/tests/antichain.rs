use regexrel::analysis::{analyze_binary_with_backend, AutomataBackend, Query};
use regexrel::antichain::{AntichainBackend, BitSet};
use regexrel::config::Config;
use regexrel::nfa::Nfa;
use regexrel::parser::parse;
use regexrel::report::{relation, Verdict};

fn compile(pattern: &str) -> Nfa {
    Nfa::from_expr(&parse(pattern, &Config::default()).unwrap())
}

fn cfg() -> Config {
    Config::default()
}

#[test]
fn bitset_subset_and_union() {
    let mut a = BitSet::new(8);
    a.insert(1);
    a.insert(3);
    let mut b = BitSet::new(8);
    b.insert(1);
    b.insert(3);
    b.insert(5);
    assert!(a.is_subset(&b));
    assert!(!b.is_subset(&a));
    a.union_with(&b);
    assert!(b.is_subset(&a));
    assert_eq!(a.iter(), vec![1, 3, 5]);
}

#[test]
fn plus_is_included_in_star_concat() {
    let report =
        analyze_binary_with_backend(Query::Includes, "a+", "aa*", &cfg(), &AntichainBackend).unwrap();
    assert_eq!(report.verdict, Verdict::Yes);
    assert!(report.witness.is_none());
}

#[test]
fn window_three_not_in_window_two() {
    let report = analyze_binary_with_backend(
        Query::Includes,
        "(a|b)*a(a|b){3}",
        "(a|b)*a(a|b){2}",
        &cfg(),
        &AntichainBackend,
    )
    .unwrap();
    assert_eq!(report.verdict, Verdict::No);
    let witness = report.witness.unwrap();
    assert_eq!(witness.relation, relation::LEFT_ONLY);
    assert_eq!(witness.value.chars().count(), 4);
    let nfa_left = compile("(a|b)*a(a|b){3}");
    let nfa_right = compile("(a|b)*a(a|b){2}");
    assert!(nfa_left.matches(&witness.value));
    assert!(!nfa_right.matches(&witness.value));
}

#[test]
fn window_family_counterexample() {
    let left = "(a|b)*a(a|b){8}";
    let right = "(a|b)*a(a|b){7}";
    let config = Config {
        max_product_states: 1_000_000,
        timeout_ms: 30_000,
        ..Config::default()
    };
    let anti =
        analyze_binary_with_backend(Query::Includes, left, right, &config, &AntichainBackend)
            .unwrap();
    let auto =
        analyze_binary_with_backend(Query::Includes, left, right, &config, &AutomataBackend)
            .unwrap();
    assert_eq!(anti.verdict, Verdict::No);
    assert_eq!(auto.verdict, Verdict::No);
    let w = anti
        .witness
        .as_ref()
        .expect("antichain should return a witness");
    assert_eq!(w.relation, relation::LEFT_ONLY);
    let nfa_left = compile(left);
    let nfa_right = compile(right);
    assert!(nfa_left.matches(&w.value));
    assert!(!nfa_right.matches(&w.value));
    assert_eq!(w.value.chars().count(), 9);
}

#[test]
fn overlap_agrees_with_automata() {
    let anti =
        analyze_binary_with_backend(Query::Overlap, "a+b", "ab+", &cfg(), &AntichainBackend)
            .unwrap();
    let auto =
        analyze_binary_with_backend(Query::Overlap, "a+b", "ab+", &cfg(), &AutomataBackend)
            .unwrap();
    assert_eq!(anti.verdict, auto.verdict);
    assert_eq!(
        anti.witness.as_ref().map(|w| &w.value),
        auto.witness.as_ref().map(|w| &w.value)
    );
}

#[test]
fn equivalent_yes_and_no() {
    let yes =
        analyze_binary_with_backend(Query::Equivalent, "a+", "aa*", &cfg(), &AntichainBackend)
            .unwrap();
    assert_eq!(yes.verdict, Verdict::Yes);

    let no =
        analyze_binary_with_backend(Query::Equivalent, "a|b", "b", &cfg(), &AntichainBackend)
            .unwrap();
    assert_eq!(no.verdict, Verdict::No);
    assert_eq!(no.witness.as_ref().unwrap().value, "a");
    assert_eq!(no.witness.as_ref().unwrap().relation, relation::LEFT_ONLY);
}

#[test]
fn empty_string_counterexample() {
    let report =
        analyze_binary_with_backend(Query::Includes, "a*", "a+", &cfg(), &AntichainBackend)
            .unwrap();
    assert_eq!(report.verdict, Verdict::No);
    assert_eq!(report.witness.unwrap().value, "");
}

#[test]
fn antichain_reports_right_only_direction() {
    let report =
        analyze_binary_with_backend(Query::Equivalent, "a", "a|b", &cfg(), &AntichainBackend)
            .unwrap();
    assert_eq!(report.verdict, Verdict::No);
    let witness = report.witness.unwrap();
    assert_eq!(witness.value, "b");
    assert_eq!(witness.relation, relation::RIGHT_ONLY);
}

#[test]
fn antichain_disjoint_overlap_is_exhausted() {
    let report =
        analyze_binary_with_backend(Query::Overlap, "a+", "b+", &cfg(), &AntichainBackend).unwrap();
    assert_eq!(report.verdict, Verdict::No);
    assert!(report.witness.is_none());
}

#[test]
fn antichain_respects_a_tiny_state_limit() {
    let config = Config {
        max_product_states: 1,
        ..Config::default()
    };
    let report =
        analyze_binary_with_backend(Query::Includes, "(a|b)*a", "(a|b)*b", &config, &AntichainBackend)
            .unwrap();
    assert_eq!(report.verdict, Verdict::Unknown);
}

#[test]
fn bitset_reports_membership_and_emptiness() {
    let mut s = BitSet::new(130);
    assert!(s.is_empty());
    s.insert(129);
    s.insert(0);
    assert!(!s.is_empty());
    assert!(s.contains(129));
    assert!(s.contains(0));
    assert!(!s.contains(64));
    assert_eq!(s.iter(), vec![0, 129]);
    let t = BitSet::from_ids(130, &[5, 64, 5]);
    assert_eq!(t.iter(), vec![5, 64]);
}

#[test]
fn antichain_inclusion_witness_is_shortest() {
    let report =
        analyze_binary_with_backend(Query::Includes, "aaab|b", "a*", &cfg(), &AntichainBackend).unwrap();
    assert_eq!(report.verdict, Verdict::No);
    let witness = report.witness.unwrap();
    assert_eq!(witness.value, "b");
    assert_eq!(witness.relation, relation::LEFT_ONLY);
}

#[test]
fn antichain_equivalence_witness_is_shortest_in_either_direction() {
    let report =
        analyze_binary_with_backend(Query::Equivalent, "aaaa|c", "aaaa|bb", &cfg(), &AntichainBackend).unwrap();
    assert_eq!(report.verdict, Verdict::No);
    let witness = report.witness.unwrap();
    assert_eq!(witness.value, "c");
    assert_eq!(witness.relation, relation::LEFT_ONLY);
    let report =
        analyze_binary_with_backend(Query::Equivalent, "aaaa|bb", "aaaa|c", &cfg(), &AntichainBackend).unwrap();
    let witness = report.witness.unwrap();
    assert_eq!(witness.value, "c");
    assert_eq!(witness.relation, relation::RIGHT_ONLY);
}

#[test]
fn antichain_overlap_witness_is_shortest() {
    let report =
        analyze_binary_with_backend(Query::Overlap, "a*b", "aab|b|aaab", &cfg(), &AntichainBackend).unwrap();
    assert_eq!(report.verdict, Verdict::Yes);
    let witness = report.witness.unwrap();
    assert_eq!(witness.value, "b");
    assert_eq!(witness.relation, relation::IN_BOTH);
}

#[test]
fn engines_report_witnesses_of_one_length() {
    let cases = [
        (Query::Includes, "(a|b)*bb", "(a|b)*abb"),
        (Query::Equivalent, "(ab)*", "(ab|a)*"),
        (Query::Overlap, "a{3,}", "(aa)+"),
    ];
    for (query, left, right) in cases {
        let by_automata = analyze_binary_with_backend(query, left, right, &cfg(), &AutomataBackend).unwrap();
        let by_antichain = analyze_binary_with_backend(query, left, right, &cfg(), &AntichainBackend).unwrap();
        let by_minimized =
            analyze_binary_with_backend(query, left, right, &cfg(), &regexrel::minimize::MinimizedBackend).unwrap();
        let a = by_automata.witness.unwrap().value.chars().count();
        let b = by_antichain.witness.unwrap().value.chars().count();
        let c = by_minimized.witness.unwrap().value.chars().count();
        assert_eq!(a, b);
        assert_eq!(a, c);
    }
}
