use regexrel::cli::{patch_json_number, INTERNAL_ERROR_EXIT};

#[test]
fn json_timing_fields_are_patched_without_rerendering() {
    let mut json = r#"{"rendering_ms": 0, "total_ms": 7}"#.to_owned();
    patch_json_number(&mut json, "rendering_ms", 0, 3).unwrap();
    patch_json_number(&mut json, "total_ms", 7, 10).unwrap();
    assert_eq!(json, r#"{"rendering_ms": 3, "total_ms": 10}"#);
}

#[test]
fn missing_json_timing_field_is_an_internal_error() {
    let mut json = "{}".to_owned();
    let error = patch_json_number(&mut json, "total_ms", 0, 1).unwrap_err();
    assert_eq!(error.0, INTERNAL_ERROR_EXIT);
}

use regexrel::analysis::{analyze_binary, analyze_empty, AnalyzeError, Query};
use regexrel::cli::{
    apply_overrides, policy_fails, render_analysis_error, render_text, render_timing_line, FailOn, Overrides,
    INPUT_ERROR_EXIT, TIMING_PLACEHOLDER,
};
use regexrel::config::{Alphabet, Config};
use regexrel::report::{Timings, Verdict};

#[test]
fn overlap_report_renders_a_shortest_witness_line() {
    let report = analyze_binary(Query::Overlap, "a+b", "ab+", &Config::default()).unwrap();
    assert_eq!(render_text(&report, false), "YES\nshortest witness: \"ab\"\n");
}

#[test]
fn includes_report_renders_the_left_only_witness() {
    let report = analyze_binary(Query::Includes, "[a-z]+", "[a-z]{2,}", &Config::default()).unwrap();
    assert_eq!(render_text(&report, false), "NO\nwitness in left only: \"a\"\n");
}

#[test]
fn equivalence_report_names_the_right_only_direction() {
    let report = analyze_binary(Query::Equivalent, "a", "a|b", &Config::default()).unwrap();
    assert_eq!(render_text(&report, false), "NO\nwitness in right only: \"b\"\n");
}

#[test]
fn empty_report_quotes_the_empty_string_witness() {
    let report = analyze_empty("a*", &Config::default()).unwrap();
    assert_eq!(render_text(&report, false), "NO\nwitness in language: \"\"\n");
}

#[test]
fn witness_text_is_escaped_as_a_json_string() {
    let report = analyze_binary(Query::Overlap, "\"", "\"", &Config::default()).unwrap();
    assert_eq!(render_text(&report, false), "YES\nshortest witness: \"\\\"\"\n");
}

#[test]
fn stats_lines_end_with_the_timing_placeholder() {
    let report = analyze_binary(Query::Equivalent, "a|b", "[ab]", &Config::default()).unwrap();
    let text = render_text(&report, true);
    assert!(text.starts_with("YES\nstates: left="));
    assert!(text.ends_with(&format!("{TIMING_PLACEHOLDER}\n")));
}

#[test]
fn unsupported_input_renders_reason_input_location_and_hint() {
    let report = analyze_binary(Query::Overlap, "a\\1", "a", &Config::default()).unwrap();
    assert_eq!(report.verdict, Verdict::Unsupported);
    let text = render_text(&report, false);
    assert!(text.starts_with("UNSUPPORTED\nreason: "));
    assert!(text.contains("\ninput: left\n"));
    assert!(text.contains("\nlocation: bytes 1..3\n"));
    assert!(text.contains("\nhint: "));
}

#[test]
fn timing_line_lists_every_phase() {
    let timings = Timings {
        parsing_ms: 1,
        automata_build_ms: 2,
        backend_ms: 3,
        witness_extraction_ms: 4,
        witness_validation_ms: 5,
        rendering_ms: 6,
        total_ms: 21,
    };
    assert_eq!(
        render_timing_line(&timings),
        "timing: parse=1 ms, build=2 ms, backend=3 ms, extract=4 ms, validate=5 ms, render=6 ms, total=21 ms"
    );
}

#[test]
fn fail_on_policies_match_their_verdicts() {
    for verdict in [Verdict::Yes, Verdict::No, Verdict::Unknown, Verdict::Unsupported] {
        assert!(!policy_fails(FailOn::Never, verdict));
    }
    assert!(policy_fails(FailOn::No, Verdict::No));
    assert!(!policy_fails(FailOn::No, Verdict::Unknown));
    assert!(policy_fails(FailOn::Unknown, Verdict::Unknown));
    assert!(policy_fails(FailOn::Unknown, Verdict::Unsupported));
    assert!(!policy_fails(FailOn::Unknown, Verdict::No));
    assert!(policy_fails(FailOn::NonYes, Verdict::No));
    assert!(!policy_fails(FailOn::NonYes, Verdict::Yes));
}

#[test]
fn overrides_replace_only_the_given_settings() {
    let mut config = Config::default();
    let overrides = Overrides {
        alphabet: Some(Alphabet::Unicode),
        max_product_states: None,
        timeout_ms: Some(7),
        max_repeat: None,
        dot_matches_newline: Some(true),
        ci_exit_code: Some(17),
    };
    apply_overrides(&overrides, &mut config);
    assert_eq!(config.alphabet, Alphabet::Unicode);
    assert_eq!(config.max_product_states, 100_000);
    assert_eq!(config.timeout_ms, 7);
    assert!(config.dot_matches_newline);
    assert_eq!(config.ci_exit_code, 17);
}

#[test]
fn syntax_errors_render_as_input_errors_with_a_hint() {
    let error = analyze_binary(Query::Overlap, "(", "a", &Config::default()).unwrap_err();
    let (code, message) = render_analysis_error(error, "regexrel overlap ( a");
    assert_eq!(code, INPUT_ERROR_EXIT);
    assert!(message.starts_with("input error [syntax] at bytes "));
    assert!(message.contains("\nhint: "));
}

#[test]
fn internal_errors_name_the_command() {
    let (code, message) =
        render_analysis_error(AnalyzeError::Internal("boom".to_owned()), "\"regexrel\" \"x\"");
    assert_eq!(code, INTERNAL_ERROR_EXIT);
    assert_eq!(
        message,
        "internal error: boom\nreproduce locally with: \"regexrel\" \"x\"\nno data was uploaded"
    );
}

#[test]
fn witness_text_is_written_as_a_json_literal() {
    let config = regexrel::config::Config::default();
    let report = regexrel::analysis::analyze_empty("a\"\\\\\t", &config).unwrap();
    let text = regexrel::cli::render_text(&report, false);
    assert!(text.contains(r#""a\"\\\t""#), "{}", text);
}
