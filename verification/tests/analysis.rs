use regexrel::analysis::{
    analyze_binary, analyze_binary_with_backend, analyze_empty, analyze_empty_parsed, analyze_parsed, AnalyzeError,
    AutomataBackend, BackendResult, BackendStatus, Query, RelationBackend,
};
use regexrel::config::Config;
use regexrel::nfa::Nfa;
use regexrel::parser::parse;
use regexrel::report::{relation, Verdict};


#[test]
fn overlap_witness_is_shortest() {
    let report = analyze_binary(Query::Overlap, "a+b", "ab+", &Config::default()).unwrap();
    assert_eq!(report.verdict, Verdict::Yes);
    assert_eq!(report.witness.unwrap().value, "ab");
}

#[test]
fn inclusion_counterexample() {
    let report =
        analyze_binary(Query::Includes, "[a-z]+", "[a-z]{2,}", &Config::default()).unwrap();
    assert_eq!(report.verdict, Verdict::No);
    assert_eq!(report.witness.unwrap().value, "a");
}

#[test]
fn equivalence_example() {
    let report = analyze_binary(Query::Equivalent, "a|b", "[ab]", &Config::default()).unwrap();
    assert_eq!(report.verdict, Verdict::Yes);
}

#[test]
fn equivalence_witness_records_its_direction() {
    let left_only = analyze_binary(Query::Equivalent, "a|b", "b", &Config::default()).unwrap();
    assert_eq!(left_only.verdict, Verdict::No);
    assert_eq!(left_only.witness.unwrap().relation, relation::LEFT_ONLY);

    let right_only = analyze_binary(Query::Equivalent, "b", "a|b", &Config::default()).unwrap();
    assert_eq!(right_only.verdict, Verdict::No);
    let witness = right_only.witness.unwrap();
    assert_eq!(witness.value, "a");
    assert_eq!(witness.relation, relation::RIGHT_ONLY);
}

#[test]
fn detects_an_empty_character_class_language() {
    let report = analyze_empty(r"[^\d\D]", &Config::default()).unwrap();
    assert_eq!(report.verdict, Verdict::Yes);
    assert!(report.witness.is_none());
}

#[test]
fn empty_regex_language_is_not_empty() {
    let report = analyze_empty("", &Config::default()).unwrap();
    assert_eq!(report.verdict, Verdict::No);
    assert_eq!(report.witness.unwrap().value, "");
}

#[test]
fn deterministic_tie_break_uses_lowest_scalar() {
    let report = analyze_binary(Query::Overlap, "[ba]", "[ab]", &Config::default()).unwrap();
    assert_eq!(report.verdict, Verdict::Yes);
    assert_eq!(report.witness.unwrap().value, "a");
}

#[test]
fn empty_string_is_preferred_over_nonempty_witnesses() {
    let report = analyze_binary(Query::Overlap, "a*", "b*", &Config::default()).unwrap();
    assert_eq!(report.verdict, Verdict::Yes);
    assert_eq!(report.witness.unwrap().value, "");
}

#[test]
fn witness_codepoint_count_handles_unicode() {
    let config = Config {
        alphabet: regexrel::config::Alphabet::Unicode,
        ..Config::default()
    };
    let report = analyze_binary(Query::Overlap, "é+", "éé*", &config).unwrap();
    let witness = report.witness.unwrap();
    assert_eq!(witness.value, "é");
    assert_eq!(witness.codepoints, 1);
}

#[test]
fn dot_newline_configuration_changes_the_relation() {
    let default_report =
        analyze_binary(Query::Overlap, ".", r"\n", &Config::default()).unwrap();
    assert_eq!(default_report.verdict, Verdict::No);

    let config = Config {
        dot_matches_newline: true,
        ..Config::default()
    };
    let configured = analyze_binary(Query::Overlap, ".", r"\n", &config).unwrap();
    assert_eq!(configured.verdict, Verdict::Yes);
    assert_eq!(configured.witness.unwrap().value, "\n");
}

fn finite_words(alphabet: &[char], max_len: usize) -> Vec<String> {
    let mut words = vec![String::new()];
    let mut frontier = vec![String::new()];
    for _ in 0..max_len {
        let mut next = Vec::new();
        for prefix in &frontier {
            for ch in alphabet {
                let mut word = prefix.clone();
                word.push(*ch);
                words.push(word.clone());
                next.push(word);
            }
        }
        frontier = next;
    }
    words
}

fn concrete_verdict(query: Query, left: &Nfa, right: &Nfa, words: &[String]) -> Verdict {
    let property_holds = match query {
        Query::Overlap => words
            .iter()
            .any(|word| left.matches(word) && right.matches(word)),
        Query::Includes => words
            .iter()
            .all(|word| !left.matches(word) || right.matches(word)),
        Query::Equivalent => words
            .iter()
            .all(|word| left.matches(word) == right.matches(word)),
        Query::Empty => unreachable!(),
    };
    if property_holds {
        Verdict::Yes
    } else {
        Verdict::No
    }
}

#[test]
fn all_binary_queries_agree_with_concrete_execution_on_finite_languages() {
    let patterns = ["", "a", "b", "a|b", "ab", "a?", "[ab]", "[ab]{2}", "a{0,2}"];
    let words = finite_words(&['a', 'b'], 2);
    let config = Config::default();

    for left_pattern in patterns {
        for right_pattern in patterns {
            let left = Nfa::from_expr(&parse(left_pattern, &config).unwrap());
            let right = Nfa::from_expr(&parse(right_pattern, &config).unwrap());
            for query in [Query::Overlap, Query::Includes, Query::Equivalent] {
                let expected = concrete_verdict(query, &left, &right, &words);
                let report =
                    analyze_binary(query, left_pattern, right_pattern, &config).unwrap();
                assert_eq!(
                    report.verdict, expected,
                    "{query:?}: {left_pattern:?}, {right_pattern:?}"
                );
                if let Some(witness) = report.witness {
                    let left_matches = left.matches(&witness.value);
                    let right_matches = right.matches(&witness.value);
                    assert!(match query {
                        Query::Overlap => left_matches && right_matches,
                        Query::Includes => left_matches && !right_matches,
                        Query::Equivalent => left_matches != right_matches,
                        Query::Empty => unreachable!(),
                    });
                }
            }
        }
    }
}

#[test]
fn equivalence_is_reflexive_on_small_corpus() {
    let patterns = ["", "a", "a*", "a|b", "[ab]+", "(ab){1,2}"];
    for pattern in patterns {
        let report =
            analyze_binary(Query::Equivalent, pattern, pattern, &Config::default()).unwrap();
        assert_eq!(report.verdict, Verdict::Yes, "{pattern:?}");
    }
}

#[test]
fn inclusion_is_reflexive_on_small_corpus() {
    let patterns = ["", "a", "a*", "a|b", "[ab]+", "(ab){1,2}"];
    for pattern in patterns {
        let report =
            analyze_binary(Query::Includes, pattern, pattern, &Config::default()).unwrap();
        assert_eq!(report.verdict, Verdict::Yes, "{pattern:?}");
    }
}

#[test]
fn overlap_is_symmetric_on_small_corpus() {
    let patterns = ["", "a", "b", "a*", "ab", "a|b", "[ab]+"];
    for left in patterns {
        for right in patterns {
            let forward =
                analyze_binary(Query::Overlap, left, right, &Config::default()).unwrap();
            let backward =
                analyze_binary(Query::Overlap, right, left, &Config::default()).unwrap();
            assert_eq!(forward.verdict, backward.verdict);
            assert_eq!(
                forward.witness.as_ref().map(|witness| &witness.value),
                backward.witness.as_ref().map(|witness| &witness.value),
            );
        }
    }
}

#[test]
fn equivalence_matches_mutual_inclusion() {
    let patterns = ["", "a", "b", "a?", "a|b", "[ab]", "[ab]{2}"];
    for left in patterns {
        for right in patterns {
            let equivalent =
                analyze_binary(Query::Equivalent, left, right, &Config::default()).unwrap();
            let forward =
                analyze_binary(Query::Includes, left, right, &Config::default()).unwrap();
            let backward =
                analyze_binary(Query::Includes, right, left, &Config::default()).unwrap();
            assert_eq!(
                equivalent.verdict == Verdict::Yes,
                forward.verdict == Verdict::Yes && backward.verdict == Verdict::Yes,
                "{left:?}, {right:?}"
            );
        }
    }
}

#[test]
fn inclusion_is_transitive_for_a_known_chain() {
    let ab_in_word =
        analyze_binary(Query::Includes, "[ab]+", r"\w+", &Config::default()).unwrap();
    let word_in_any =
        analyze_binary(Query::Includes, r"\w+", ".+", &Config::default()).unwrap();
    let ab_in_any = analyze_binary(Query::Includes, "[ab]+", ".+", &Config::default()).unwrap();
    assert_eq!(ab_in_word.verdict, Verdict::Yes);
    assert_eq!(word_in_any.verdict, Verdict::Yes);
    assert_eq!(ab_in_any.verdict, Verdict::Yes);
}

#[test]
fn unsupported_input_is_a_first_class_report() {
    let report = analyze_binary(Query::Equivalent, r"(a)\1", "a", &Config::default()).unwrap();
    assert_eq!(report.verdict, Verdict::Unsupported);
    assert_eq!(report.diagnostic.id, "RR_UNSUPPORTED");
    assert_eq!(report.diagnostic.input.as_deref(), Some("left"));
    assert!(report.diagnostic.error.is_some());
}

struct FakeBackend;

impl RelationBackend for FakeBackend {
    fn name(&self) -> &'static str {
        "fake"
    }

    fn version(&self) -> &'static str {
        "test"
    }

    fn analyze_binary(
        &self,
        _query: Query,
        _left: &Nfa,
        _right: &Nfa,
        _config: &Config,
    ) -> BackendResult {
        BackendResult {
            status: BackendStatus::StateLimit,
            witness: None,
            relation: None,
            visited_states: 7,
            generated_transitions: 11,
            analysis_ms: 0,
            witness_extraction_ms: 0,
        }
    }

    fn analyze_empty(&self, _nfa: &Nfa, _config: &Config) -> BackendResult {
        BackendResult {
            status: BackendStatus::Exhausted,
            witness: None,
            relation: None,
            visited_states: 1,
            generated_transitions: 0,
            analysis_ms: 0,
            witness_extraction_ms: 0,
        }
    }
}

#[test]
fn custom_backend_is_reported() {
    let report = analyze_binary_with_backend(
        Query::Equivalent,
        "a",
        "a",
        &Config::default(),
        &FakeBackend,
    )
    .unwrap();
    assert_eq!(report.verdict, Verdict::Unknown);
    assert_eq!(report.backend.name, "fake");
    assert_eq!(report.statistics.visited_product_states, 7);
}

struct TimeoutBackend;

impl RelationBackend for TimeoutBackend {
    fn name(&self) -> &'static str {
        "timeout_fake"
    }

    fn version(&self) -> &'static str {
        "test"
    }

    fn analyze_binary(
        &self,
        _query: Query,
        _left: &Nfa,
        _right: &Nfa,
        _config: &Config,
    ) -> BackendResult {
        BackendResult {
            status: BackendStatus::Timeout,
            witness: None,
            relation: None,
            visited_states: 3,
            generated_transitions: 4,
            analysis_ms: 5,
            witness_extraction_ms: 0,
        }
    }

    fn analyze_empty(&self, _nfa: &Nfa, _config: &Config) -> BackendResult {
        BackendResult {
            status: BackendStatus::Timeout,
            witness: None,
            relation: None,
            visited_states: 3,
            generated_transitions: 4,
            analysis_ms: 5,
            witness_extraction_ms: 0,
        }
    }
}

#[test]
fn timeout_backend_yields_unknown_with_stable_diagnostic() {
    let report = analyze_binary_with_backend(
        Query::Overlap,
        "a",
        "a",
        &Config::default(),
        &TimeoutBackend,
    )
    .unwrap();
    assert_eq!(report.verdict, Verdict::Unknown);
    assert_eq!(report.diagnostic.id, "RR_TIMEOUT");
    assert_eq!(report.statistics.visited_product_states, 3);
}

struct TimedWitnessBackend;

impl RelationBackend for TimedWitnessBackend {
    fn name(&self) -> &'static str {
        "timed_witness_fake"
    }

    fn version(&self) -> &'static str {
        "test"
    }

    fn analyze_binary(
        &self,
        _query: Query,
        _left: &Nfa,
        _right: &Nfa,
        _config: &Config,
    ) -> BackendResult {
        BackendResult {
            status: BackendStatus::Found,
            witness: Some("a".to_owned()),
            relation: Some(relation::IN_BOTH.to_owned()),
            visited_states: 1,
            generated_transitions: 0,
            analysis_ms: 5,
            witness_extraction_ms: 7,
        }
    }

    fn analyze_empty(&self, _nfa: &Nfa, _config: &Config) -> BackendResult {
        unreachable!()
    }
}

#[test]
fn backend_and_witness_extraction_timings_are_separate_components() {
    let report = analyze_binary_with_backend(
        Query::Overlap,
        "a",
        "a",
        &Config::default(),
        &TimedWitnessBackend,
    )
    .unwrap();
    let timings = report.statistics.timings;
    assert_eq!(timings.backend_ms, 5);
    assert_eq!(timings.witness_extraction_ms, 7);
    assert_eq!(
        timings.total_ms,
        timings.parsing_ms
            + timings.automata_build_ms
            + timings.backend_ms
            + timings.witness_extraction_ms
            + timings.witness_validation_ms
            + timings.rendering_ms
    );
}

struct InvalidWitnessBackend;

impl RelationBackend for InvalidWitnessBackend {
    fn name(&self) -> &'static str {
        "invalid_witness_fake"
    }

    fn version(&self) -> &'static str {
        "test"
    }

    fn analyze_binary(
        &self,
        _query: Query,
        _left: &Nfa,
        _right: &Nfa,
        _config: &Config,
    ) -> BackendResult {
        BackendResult {
            status: BackendStatus::Found,
            witness: Some("b".to_owned()),
            relation: Some(relation::IN_BOTH.to_owned()),
            visited_states: 1,
            generated_transitions: 0,
            analysis_ms: 0,
            witness_extraction_ms: 0,
        }
    }

    fn analyze_empty(&self, _nfa: &Nfa, _config: &Config) -> BackendResult {
        unreachable!()
    }
}

#[test]
fn invalid_backend_witness_is_rejected_as_internal_error() {
    let error = analyze_binary_with_backend(
        Query::Overlap,
        "a",
        "a",
        &Config::default(),
        &InvalidWitnessBackend,
    )
    .unwrap_err();
    assert!(matches!(error, AnalyzeError::Internal(_)));
}

#[test]
fn state_limit_yields_unknown() {
    let config = Config {
        max_product_states: 1,
        ..Config::default()
    };
    let report = analyze_binary(Query::Equivalent, "a", "b", &config).unwrap();
    assert_eq!(report.verdict, Verdict::Unknown);
    assert_eq!(report.diagnostic.id, "RR_STATE_LIMIT");
}

#[test]
fn initial_witness_is_found_even_at_minimum_state_limit() {
    let config = Config {
        max_product_states: 1,
        ..Config::default()
    };
    let report = analyze_binary(Query::Overlap, "a*", "b*", &config).unwrap();
    assert_eq!(report.verdict, Verdict::Yes);
    assert_eq!(report.witness.unwrap().value, "");
}

#[test]
fn empty_query_can_also_return_unknown_at_state_limit() {
    let config = Config {
        max_product_states: 1,
        ..Config::default()
    };
    let report = analyze_empty("a", &config).unwrap();
    assert_eq!(report.verdict, Verdict::Unknown);
    assert_eq!(report.diagnostic.id, "RR_STATE_LIMIT");
}

#[test]
fn parsed_expressions_give_replayed_witness() {
    let config = Config::default();
    let left = parse("[a-z]+", &config).unwrap();
    let right = parse("[a-z]{2,}", &config).unwrap();
    let report = analyze_parsed(Query::Includes, &left, &right, &config, &AutomataBackend, 0).unwrap();
    assert_eq!(report.verdict, Verdict::No);
    let witness = report.witness.unwrap();
    assert_eq!(witness.value, "a");
    assert_eq!(witness.relation, relation::LEFT_ONLY);
}

#[test]
fn parsed_expression_emptiness_gives_shortest_member() {
    let config = Config::default();
    let expr = parse("b{2}|ccc", &config).unwrap();
    let report = analyze_empty_parsed(&expr, &config, &AutomataBackend, 0).unwrap();
    assert_eq!(report.verdict, Verdict::No);
    let witness = report.witness.unwrap();
    assert_eq!(witness.value, "bb");
    assert_eq!(witness.relation, relation::IN_LANGUAGE);
}

#[test]
fn parsed_expressions_reject_a_bad_engine_witness() {
    let config = Config::default();
    let left = parse("a", &config).unwrap();
    let right = parse("a", &config).unwrap();
    let error = analyze_parsed(Query::Overlap, &left, &right, &config, &InvalidWitnessBackend, 0).unwrap_err();
    assert!(matches!(error, AnalyzeError::Internal(_)));
}

#[test]
fn literal_patterns_report_their_own_text() {
    let report = analyze_empty("a]b}", &Config::default()).unwrap();
    assert_eq!(report.verdict, Verdict::No);
    assert_eq!(report.witness.unwrap().value, "a]b}");

    let report = analyze_binary(Query::Equivalent, "abc", "abd", &Config::default()).unwrap();
    assert_eq!(report.verdict, Verdict::No);
    let witness = report.witness.unwrap();
    assert!(witness.value == "abc" || witness.value == "abd");

    let report = analyze_binary(Query::Equivalent, "abc", "abc", &Config::default()).unwrap();
    assert_eq!(report.verdict, Verdict::Yes);
    assert!(report.witness.is_none());
}

#[test]
fn parsed_expressions_get_exact_default_verdicts() {
    let config = Config::default();
    let left = parse("a(b|c)*", &config).unwrap();
    let right = parse("a[bc]*", &config).unwrap();
    let report = regexrel::analysis::analyze_exprs(Query::Equivalent, &left, &right, &config, 0).unwrap();
    assert_eq!(report.verdict, Verdict::Yes);
    assert!(report.witness.is_none());
    let empty = parse("a{2,3}", &config).unwrap();
    let report = regexrel::analysis::analyze_expr_empty(&empty, &config, 0).unwrap();
    assert_eq!(report.verdict, Verdict::No);
    assert_eq!(report.witness.unwrap().value, "aa");
}

#[test]
fn swapped_overlap_patterns_get_the_same_verdict() {
    let config = Config::default();
    let forward = analyze_binary(Query::Overlap, "a+b", "ab+", &config).unwrap();
    let backward = analyze_binary(Query::Overlap, "ab+", "a+b", &config).unwrap();
    assert_eq!(forward.verdict, backward.verdict);
    assert_eq!(forward.witness.unwrap().value, backward.witness.unwrap().value);
}
