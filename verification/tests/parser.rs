use regexrel::ast::{ExprKind, Span};
use regexrel::config::{Alphabet, Config};
use regexrel::parser::{parse, FrontendErrorKind};


#[test]
fn parses_running_example() {
    let expr = parse("[a-z]{2,}", &Config::default()).unwrap();
    assert!(matches!(
        expr.kind,
        ExprKind::Repeat {
            min: 2,
            max: None,
            ..
        }
    ));
}

#[test]
fn parses_empty_regex_as_epsilon() {
    let expr = parse("", &Config::default()).unwrap();
    assert!(matches!(expr.kind, ExprKind::Empty));
    assert_eq!(expr.span, Span::new(0, 0));
}

#[test]
fn parses_empty_alternation_branches() {
    for pattern in ["a|", "|a", "(|a)"] {
        parse(pattern, &Config::default()).unwrap();
    }
}

#[test]
fn parses_literal_and_shorthand_class_members() {
    for pattern in [r"\.", r"\+", r"\n", r"\d", r"\W", r"[\d_-]"] {
        parse(pattern, &Config::default()).unwrap();
    }
}

#[test]
fn accepts_literal_closing_bracket_as_first_class_item() {
    parse("[]a]", &Config::default()).unwrap();
}

#[test]
fn accepts_literal_hyphen_at_class_edges() {
    parse("[-a]", &Config::default()).unwrap();
    parse("[a-]", &Config::default()).unwrap();
}

#[test]
fn rejects_reversed_character_range() {
    let error = parse("[z-a]", &Config::default()).unwrap_err();
    assert_eq!(error.kind, FrontendErrorKind::Syntax);
    assert!(error.message.contains("reversed character range"));
}

#[test]
fn rejects_shorthand_as_range_endpoint() {
    let error = parse(r"[a-\d]", &Config::default()).unwrap_err();
    assert_eq!(error.kind, FrontendErrorKind::Unsupported);
    assert!(error.message.contains("literal endpoints"));
}

#[test]
fn rejects_unterminated_character_class() {
    let error = parse("[abc", &Config::default()).unwrap_err();
    assert_eq!(error.kind, FrontendErrorKind::Syntax);
    assert_eq!(error.span_start, 0);
}

#[test]
fn parses_all_counted_repetition_forms() {
    let exact = parse("a{3}", &Config::default()).unwrap();
    assert!(matches!(
        exact.kind,
        ExprKind::Repeat {
            min: 3,
            max: Some(3),
            ..
        }
    ));

    let open = parse("a{3,}", &Config::default()).unwrap();
    assert!(matches!(
        open.kind,
        ExprKind::Repeat {
            min: 3,
            max: None,
            ..
        }
    ));

    let bounded = parse("a{3,5}", &Config::default()).unwrap();
    assert!(matches!(
        bounded.kind,
        ExprKind::Repeat {
            min: 3,
            max: Some(5),
            ..
        }
    ));
}

#[test]
fn rejects_reversed_repetition_bounds() {
    let error = parse("a{4,2}", &Config::default()).unwrap_err();
    assert_eq!(error.kind, FrontendErrorKind::Syntax);
    assert!(error.message.contains("upper bound is smaller"));
}

#[test]
fn repetition_bound_overflow_has_a_specific_diagnostic() {
    let pattern = format!("a{{{}}}", "9".repeat(100));
    let error = parse(&pattern, &Config::default()).unwrap_err();
    assert_eq!(error.kind, FrontendErrorKind::Syntax);
    assert!(error.message.contains("overflows the representable range"));
    assert!(error.hint.unwrap().contains("smaller bound"));
}

#[test]
fn repetition_limit_is_reported_as_unsupported() {
    let config = Config {
        max_repeat: 3,
        ..Config::default()
    };
    let error = parse("a{4}", &config).unwrap_err();
    assert_eq!(error.kind, FrontendErrorKind::Unsupported);
    assert!(error.message.contains("max_repeat 3"));
}

#[test]
fn rejects_quantifier_without_atom() {
    for pattern in ["*a", "+", "?", "{2}"] {
        let error = parse(pattern, &Config::default()).unwrap_err();
        assert_eq!(error.kind, FrontendErrorKind::Syntax, "{pattern}");
    }
}

#[test]
fn rejects_multiple_quantifiers() {
    let error = parse("a**", &Config::default()).unwrap_err();
    assert_eq!(error.kind, FrontendErrorKind::Syntax);
    assert!(error.message.contains("multiple quantifiers"));
}

#[test]
fn rejects_lazy_and_possessive_quantifiers() {
    for pattern in ["a*?", "a++", "a{2,3}?"] {
        let error = parse(pattern, &Config::default()).unwrap_err();
        assert_eq!(error.kind, FrontendErrorKind::Unsupported, "{pattern}");
    }
}

#[test]
fn rejects_backreferences_as_unsupported() {
    let error = parse(r"(a)\1", &Config::default()).unwrap_err();
    assert_eq!(error.kind, FrontendErrorKind::Unsupported);
}

#[test]
fn rejects_lookaround_and_prefixed_groups() {
    for pattern in ["(?=a)", "(?:a)", "(?i:a)"] {
        let error = parse(pattern, &Config::default()).unwrap_err();
        assert_eq!(error.kind, FrontendErrorKind::Unsupported, "{pattern}");
    }
}

#[test]
fn rejects_word_boundary_and_unknown_escape() {
    let boundary = parse(r"\bword\b", &Config::default()).unwrap_err();
    assert_eq!(boundary.kind, FrontendErrorKind::Unsupported);

    let unknown = parse(r"\q", &Config::default()).unwrap_err();
    assert_eq!(unknown.kind, FrontendErrorKind::Unsupported);
    assert!(unknown.hint.is_some());
}

/// `\b` outside a class is the (unsupported) word-boundary assertion,
/// but every mainstream engine (JS, Python, PCRE, ICU, .NET, Rust's
/// `regex` crate) takes `[\b]` to mean the literal backspace character,
/// U+0008, precisely because a zero-width assertion has no meaning as
/// one member of a character set. This parser used to reject `\b`
/// unconditionally, even inside a class, falling through to the generic
/// "unsupported escape" error instead of treating it as a literal.
#[test]
fn class_backspace_escape_is_a_literal_not_unsupported() {
    let expr = parse(r"[\b]", &Config::default()).unwrap();
    let ExprKind::CharSet(set) = &expr.kind else {
        panic!("expected a CharSet, got {expr:?}");
    };
    assert!(set.contains('\u{0008}'));
    assert_eq!(
        set.intervals().len(),
        1,
        "expected exactly one member: U+0008"
    );

    // Outside a class, the same escape is still the unsupported
    // word-boundary assertion -- this fix only changes the in-class
    // reading, not the bare one.
    let boundary = parse(r"\b", &Config::default()).unwrap_err();
    assert_eq!(boundary.kind, FrontendErrorKind::Unsupported);
}

#[test]
fn allows_outer_anchors() {
    parse("^ab$", &Config::default()).unwrap();
    parse("^", &Config::default()).unwrap();
    parse("$", &Config::default()).unwrap();
}

#[test]
fn rejects_nested_or_repeated_anchors() {
    for pattern in ["a(^b)", "a$b", "^^a", "a$$", "(^a|b)"] {
        let error = parse(pattern, &Config::default()).unwrap_err();
        assert_eq!(error.kind, FrontendErrorKind::Unsupported, "{pattern}");
    }
}

#[test]
fn reports_unmatched_parentheses() {
    let open = parse("(ab", &Config::default()).unwrap_err();
    assert_eq!(open.kind, FrontendErrorKind::Syntax);
    assert!(open.message.contains("unterminated group"));

    let close = parse("ab)", &Config::default()).unwrap_err();
    assert_eq!(close.kind, FrontendErrorKind::Syntax);
    assert!(close.message.contains("unexpected character"));
}

#[test]
fn ascii_mode_rejects_non_ascii_literal() {
    let error = parse("é", &Config::default()).unwrap_err();
    assert_eq!(error.kind, FrontendErrorKind::Unsupported);
    assert_eq!(error.span_start, 0);
    assert_eq!(error.span_end, "é".len());
}

#[test]
fn unicode_mode_accepts_non_ascii_literal_and_class() {
    let config = Config {
        alphabet: Alphabet::Unicode,
        ..Config::default()
    };
    parse("é", &config).unwrap();
    parse("[α-ω]+", &config).unwrap();
}

#[test]
fn rejects_unicode_property_escape() {
    let error = parse(r"\p", &Config::default()).unwrap_err();
    assert_eq!(error.kind, FrontendErrorKind::Unsupported);
}

#[test]
fn syntax_help_is_the_documented_summary() {
    assert_eq!(regexrel::parser::syntax_help(), regexrel::parser::SYNTAX_HELP);
    assert!(regexrel::parser::SYNTAX_HELP.starts_with("Supported regex subset"));
}
