use regexrel::analysis::{
    analyze_binary_with_backend, analyze_empty_with_backend, AutomataBackend, BackendStatus, Query,
};
use regexrel::config::Config;
use regexrel::minimize::{determinize, minimize, MinimizedBackend};
use regexrel::report::Verdict;
use std::time::{Duration, Instant};


fn both_agree(query: Query, left: &str, right: &str) {
    both_agree_with_config(&Config::default(), query, left, right);
}

fn both_agree_with_config(config: &Config, query: Query, left: &str, right: &str) {
    let a = analyze_binary_with_backend(query, left, right, config, &AutomataBackend).unwrap();
    let b = analyze_binary_with_backend(query, left, right, config, &MinimizedBackend).unwrap();
    assert_eq!(
        a.verdict, b.verdict,
        "backends disagree on {:?}({:?}, {:?}): automata={:?} minimized={:?}",
        query, left, right, a.verdict, b.verdict
    );
    assert_eq!(
        a.witness.map(|w| w.value),
        b.witness.map(|w| w.value),
        "backends produced different witnesses for {:?}({:?}, {:?})",
        query,
        left,
        right
    );
}

#[test]
fn agrees_with_automata_backend_on_a_broad_corpus() {
    let cases: &[(&str, &str)] = &[
        ("a+b", "ab+"),
        ("a+", "b+"),
        ("[a-z]+", "[a-z]{2,}"),
        ("a|b", "[ab]"),
        ("b", "a|b"),
        ("(a*b*)*", "(a|b)*"),
        ("(a?)*", "a*"),
        ("a{2,3}", "aa(a?)"),
        ("[^a-c]", "[^b-d]"),
        ("\\d+", "\\w+"),
        ("\\w+", "\\d+"),
        ("[a-c]+", "[c-e]+"),
        ("a*", "a*a*"),
        ("(a|b)(a|b)*", "(a|b)+"),
    ];
    for &(left, right) in cases {
        for query in [Query::Overlap, Query::Includes, Query::Equivalent] {
            both_agree(query, left, right);
        }
    }
}

#[test]
fn agrees_with_automata_backend_on_unicode_boundary_ranges() {
    // Same regression as `alphabet_partition`'s own unit test in
    // `charset.rs` (`alphabet_partition_covers_a_range_ending_at_the_last_scalar_value`),
    // exercised end-to-end through both backends rather than the helper
    // directly -- this is the shape of query that originally surfaced
    // the bug (a class or `.` whose compiled range runs up to U+10FFFF).
    let config = Config {
        alphabet: regexrel::config::Alphabet::Unicode,
        ..Config::default()
    };
    let max = '\u{10ffff}';
    let e000 = '\u{e000}';

    // `.` denotes the whole alphabet minus newline, which -- under
    // `--alphabet unicode` -- includes U+E000..U+10FFFF. A pattern that
    // explicitly excludes exactly that trailing block is therefore
    // *not* equivalent to `.`; the buggy `minimized` backend disagreed
    // (it saw `.` as if it stopped short of U+10FFFF too, matching the
    // excluded pattern by coincidence).
    let excludes_top_block = format!("[^\n{e000}-{max}]");
    both_agree_with_config(&config, Query::Equivalent, ".", &excludes_top_block);
    both_agree_with_config(&config, Query::Includes, &excludes_top_block, ".");

    // A class whose only member is the maximum scalar value.
    let singleton_max = format!("[{max}]");
    let a = analyze_empty_with_backend(&singleton_max, &config, &AutomataBackend).unwrap();
    let b = analyze_empty_with_backend(&singleton_max, &config, &MinimizedBackend).unwrap();
    assert_eq!(
        a.verdict, b.verdict,
        "empty({singleton_max:?}) disagreement"
    );
    assert_eq!(a.verdict, Verdict::No, "a singleton class is never empty");

    // A range from an ASCII literal up through the maximum scalar value.
    let a_to_max = format!("[a-{max}]");
    both_agree_with_config(&config, Query::Overlap, &a_to_max, &singleton_max);
    both_agree_with_config(&config, Query::Includes, &singleton_max, &a_to_max);
}

#[test]
fn isomorphism_fast_path_finds_equivalence_without_a_witness() {
    let config = Config::default();
    let report = analyze_binary_with_backend(
        Query::Equivalent,
        "a|b",
        "[ab]",
        &config,
        &MinimizedBackend,
    )
    .unwrap();
    assert_eq!(report.verdict, Verdict::Yes);
    assert!(report.witness.is_none());
}

#[test]
fn minimize_agrees_on_emptiness() {
    let config = Config::default();
    for pattern in ["a*", "a+", "a{0}", "[^\\d\\D]"] {
        let a = analyze_empty_with_backend(pattern, &config, &AutomataBackend).unwrap();
        let b = analyze_empty_with_backend(pattern, &config, &MinimizedBackend).unwrap();
        assert_eq!(
            a.verdict, b.verdict,
            "backends disagree on empty({:?})",
            pattern
        );
        assert_eq!(
            a.witness.map(|w| w.value),
            b.witness.map(|w| w.value),
            "backends produced different witnesses for empty({:?})",
            pattern
        );
    }
}

#[test]
fn respects_a_tiny_state_limit() {
    let config = Config {
        max_product_states: 1,
        ..Config::default()
    };
    let report =
        analyze_binary_with_backend(Query::Equivalent, "a", "b", &config, &MinimizedBackend)
            .unwrap();
    assert_eq!(report.verdict, Verdict::Unknown);
}

#[test]
fn determinize_and_minimize_respect_timeout_not_just_state_limit() {
    // Regression guard: `determinize` and `minimize` used to have no
    // time-based bound at all -- only `max_states` -- so `--timeout-ms`
    // had zero effect during those phases for `MinimizedBackend`; only
    // the product-search fallback (or the isomorphism check) ever saw
    // the deadline, and only once determinization/minimization had
    // already run to completion or hit the state cap. A `deadline` of
    // zero is already exhausted by the time it's first checked, so this
    // is deterministic -- it doesn't depend on real elapsed wall-clock
    // time being large enough to notice.
    let config = Config::default();
    let expr = regexrel::parser::parse("a+", &config).unwrap();
    let nfa = regexrel::nfa::Nfa::from_expr(&expr);
    let started = Instant::now();
    let already_expired = Duration::from_millis(0);

    assert!(matches!(
        determinize(&nfa, config.max_product_states, started, already_expired),
        Err(BackendStatus::Timeout)
    ));

    let real_deadline = Duration::from_millis(config.timeout_ms);
    let dfa = determinize(&nfa, config.max_product_states, started, real_deadline)
        .expect("determinize with a real deadline should succeed on a tiny pattern");
    assert!(matches!(
        minimize(&dfa, started, already_expired),
        Err(BackendStatus::Timeout)
    ));
}
