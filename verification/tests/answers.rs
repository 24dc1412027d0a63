use regexrel::analysis::{
    analyze_parse_result, analyze_parse_results, binary_answer, empty_answer, search_product, search_single,
    AnalyzeError, AutomataBackend, BackendResult, BackendStatus, Clock, Query, RelationBackend, WallClock,
};
use regexrel::config::Config;
use regexrel::draw::{draw_read, DrawError, DrawKind};
use regexrel::minimize::{determinize_within, minimize_within};
use regexrel::nfa::Nfa;
use regexrel::parser::{parse, FrontendErrorKind};
use regexrel::report::{relation, Verdict};

struct FrozenClock {
    reading: u128,
}

impl Clock for FrozenClock {
    fn may_read(&self, t: u128) -> bool {
        t == self.reading
    }

    fn read_ms(&self) -> u128 {
        self.reading
    }
}

fn nfa_of(pattern: &str, config: &Config) -> Nfa {
    Nfa::from_expr(&parse(pattern, config).unwrap())
}

#[test]
fn malformed_left_pattern_is_an_input_error() {
    let config = Config::default();
    let left = parse("(ab", &config);
    let right = parse("a", &config);
    let error = parse("(ab", &config).unwrap_err();
    assert_eq!(error.kind, FrontendErrorKind::Syntax);
    match analyze_parse_results(Query::Overlap, left, right, &config, &AutomataBackend, 0) {
        Err(AnalyzeError::Input(e)) => {
            assert_eq!(e.span_start, error.span_start);
            assert_eq!(e.message, error.message);
        }
        other => panic!("unexpected answer: {:?}", other),
    }
}

#[test]
fn unsupported_right_pattern_is_reported_on_its_side() {
    let config = Config::default();
    let left = parse("a", &config);
    let right = parse(r"(a)\1", &config);
    let error = parse(r"(a)\1", &config).unwrap_err();
    assert_eq!(error.kind, FrontendErrorKind::Unsupported);
    let report = analyze_parse_results(Query::Equivalent, left, right, &config, &AutomataBackend, 0).unwrap();
    assert_eq!(report.verdict, Verdict::Unsupported);
    assert_eq!(report.diagnostic.id, "RR_UNSUPPORTED");
    assert_eq!(report.diagnostic.input.as_deref(), Some("right"));
    assert_eq!(report.diagnostic.message, error.message);
    assert!(report.witness.is_none());
}

#[test]
fn left_refusal_is_answered_before_the_right_one() {
    let config = Config::default();
    let left = parse(r"(a)\1", &config);
    let right = parse("(", &config);
    let report = analyze_parse_results(Query::Includes, left, right, &config, &AutomataBackend, 0).unwrap();
    assert_eq!(report.diagnostic.input.as_deref(), Some("left"));
}

#[test]
fn unsupported_pattern_gets_an_emptiness_report_for_the_regex() {
    let config = Config::default();
    let report = analyze_parse_result(parse(r"(a)\1", &config), &config, &AutomataBackend, 0).unwrap();
    assert_eq!(report.verdict, Verdict::Unsupported);
    assert_eq!(report.diagnostic.input.as_deref(), Some("regex"));
}

#[test]
fn parsed_pair_reaches_the_engine() {
    let config = Config::default();
    let report =
        analyze_parse_results(Query::Overlap, parse("a+b", &config), parse("ab+", &config), &config, &AutomataBackend, 0)
            .unwrap();
    assert_eq!(report.verdict, Verdict::Yes);
    assert_eq!(report.witness.unwrap().value, "ab");
}

fn found(witness: &str, rel: &str) -> BackendResult {
    BackendResult {
        status: BackendStatus::Found,
        witness: Some(witness.to_string()),
        relation: Some(rel.to_string()),
        visited_states: 3,
        generated_transitions: 4,
        analysis_ms: 0,
        witness_extraction_ms: 0,
    }
}

#[test]
fn binary_answer_replays_the_engine_witness() {
    let config = Config::default();
    let le = parse("a|b", &config).unwrap();
    let re = parse("b", &config).unwrap();
    let (ln, rn) = (Nfa::from_expr(&le), Nfa::from_expr(&re));
    let report =
        binary_answer(Query::Equivalent, &le, &re, &ln, &rn, found("a", relation::RIGHT_ONLY), &config, 0, 0, &AutomataBackend)
            .unwrap();
    let witness = report.witness.unwrap();
    assert_eq!(witness.value, "a");
    assert_eq!(witness.relation, relation::LEFT_ONLY);
    assert_eq!(report.statistics.visited_product_states, 3);
    assert_eq!(report.diagnostic.id, "RR_EQUIV_COUNTEREXAMPLE");
}

#[test]
fn binary_answer_refuses_a_witness_that_settles_nothing() {
    let config = Config::default();
    let le = parse("a", &config).unwrap();
    let re = parse("a", &config).unwrap();
    let (ln, rn) = (Nfa::from_expr(&le), Nfa::from_expr(&re));
    let answer =
        binary_answer(Query::Equivalent, &le, &re, &ln, &rn, found("a", relation::LEFT_ONLY), &config, 0, 0, &AutomataBackend);
    assert!(matches!(answer, Err(AnalyzeError::Internal(_))));
}

#[test]
fn empty_answer_checks_the_string_against_the_expression() {
    let config = Config::default();
    let e = parse("ab", &config).unwrap();
    let n = Nfa::from_expr(&e);
    let good = empty_answer(&e, &n, found("ab", relation::IN_LANGUAGE), &config, 0, 0, &AutomataBackend).unwrap();
    assert_eq!(good.verdict, Verdict::No);
    let bad = empty_answer(&e, &n, found("a", relation::IN_LANGUAGE), &config, 0, 0, &AutomataBackend);
    assert!(matches!(bad, Err(AnalyzeError::Internal(_))));
}

#[test]
fn expression_entry_gives_the_shortest_witness() {
    let config = Config::default();
    let le = parse("[a-z]+", &config).unwrap();
    let re = parse("[a-z]{2,}", &config).unwrap();
    let (ln, rn) = (Nfa::from_expr(&le), Nfa::from_expr(&re));
    let result = AutomataBackend.analyze_binary_expr(Query::Includes, &le, &re, &ln, &rn, &config);
    assert_eq!(result.status, BackendStatus::Found);
    assert_eq!(result.witness.as_deref(), Some("a"));
    let e = parse("x*y", &config).unwrap();
    let single = AutomataBackend.analyze_empty_expr(&e, &Nfa::from_expr(&e), &config);
    assert_eq!(single.witness.as_deref(), Some("y"));
}

#[test]
fn a_clock_below_the_timeout_never_stops_a_search() {
    let config = Config { timeout_ms: 5, ..Config::default() };
    let clock = FrozenClock { reading: 4 };
    let result = search_product(Query::Equivalent, &nfa_of("a*", &config), &nfa_of("(aa)*", &config), &config, &clock);
    assert_eq!(result.status, BackendStatus::Found);
    assert_eq!(result.witness.as_deref(), Some("a"));
    let single = search_single(&nfa_of("[a-c]{3}", &config), &config, &clock);
    assert_eq!(single.witness.as_deref(), Some("aaa"));
}

#[test]
fn a_clock_at_the_timeout_stops_a_search() {
    let config = Config { timeout_ms: 5, ..Config::default() };
    let clock = FrozenClock { reading: 5 };
    let result = search_product(Query::Overlap, &nfa_of("a", &config), &nfa_of("a", &config), &config, &clock);
    assert_eq!(result.status, BackendStatus::Timeout);
    assert!(result.witness.is_none());
}

#[test]
fn zero_deadline_stops_determinization_and_minimization() {
    let config = Config::default();
    let nfa = nfa_of("a+", &config);
    let clock = WallClock::start();
    assert!(matches!(determinize_within(&nfa, config.max_product_states, 0, &clock), Err(BackendStatus::Timeout)));
    let dfa = determinize_within(&nfa, config.max_product_states, 60_000, &FrozenClock { reading: 0 }).unwrap();
    assert!(matches!(minimize_within(&dfa, 0, &clock), Err(BackendStatus::Timeout)));
    let minimal = minimize_within(&dfa, 60_000, &FrozenClock { reading: 0 }).unwrap();
    assert!(minimal.states.len() <= dfa.states.len());
}

#[test]
fn drawing_a_refused_pattern_carries_the_parser_error() {
    let config = Config::default();
    let error = parse("(ab", &config).unwrap_err();
    match draw_read("(ab", parse("(ab", &config), DrawKind::Dfa, &config) {
        Err(DrawError::Input(e)) => {
            assert_eq!(e.kind, error.kind);
            assert_eq!(e.span_start, error.span_start);
        }
        other => panic!("unexpected drawing: {:?}", other.map(|d| d.dot)),
    }
}

#[test]
fn drawing_a_read_pattern_as_an_nfa_succeeds() {
    let config = Config::default();
    let drawing = draw_read("(ab)*", parse("(ab)*", &config), DrawKind::Nfa, &config).unwrap();
    assert_eq!(drawing.kind, DrawKind::Nfa);
    assert!(drawing.dot.contains("digraph"));
}
