use regexrel::report::Timings;


#[test]
fn total_includes_every_reported_phase() {
    let mut timings = Timings {
        parsing_ms: 1,
        automata_build_ms: 2,
        backend_ms: 3,
        witness_extraction_ms: 4,
        witness_validation_ms: 5,
        rendering_ms: 6,
        total_ms: 0,
    };
    timings.refresh_total();
    assert_eq!(timings.total_ms, 21);
}
