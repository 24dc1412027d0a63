//! The command line's decisions: overrides, exit policy, and the text of
//! what it prints.
use crate::analysis::{AnalyzeError, Query};
use crate::analysis::bool_text;
use crate::config::{Alphabet, Config};
use crate::parser::FrontendErrorKind;
use crate::report::{relation, Report, Timings, Verdict};
use crate::text::{decimal, display_u128, display_u64, display_usize};
use vstd::prelude::*;

verus! {

/// Exit code for malformed input or configuration.
pub const INPUT_ERROR_EXIT: u8 = 2;

/// Exit code for an internal failure.
pub const INTERNAL_ERROR_EXIT: u8 = 3;

/// The line the text report reserves for timings, filled in once the
/// rendering itself has been timed.
pub const TIMING_PLACEHOLDER: &'static str = "__REGEXREL_TIMING_LINE__";

/// When an otherwise successful run exits nonzero.
#[derive(Clone, Copy, Debug, Eq, PartialEq, Structural)]
pub enum FailOn {
    Never,
    No,
    Unknown,
    NonYes,
}

impl Default for FailOn {
    fn default() -> (r: Self)
        ensures
            r == FailOn::Never,
    {
        FailOn::Never
    }
}

/// `policy` asks for a failing exit on `verdict`.
pub open spec fn policy_spec(policy: FailOn, verdict: Verdict) -> bool {
    match policy {
        FailOn::Never => false,
        FailOn::No => verdict == Verdict::No,
        FailOn::Unknown => verdict == Verdict::Unknown || verdict == Verdict::Unsupported,
        FailOn::NonYes => verdict != Verdict::Yes,
    }
}

pub fn policy_fails(policy: FailOn, verdict: Verdict) -> (r: bool)
    ensures
        r == policy_spec(policy, verdict),
        verdict == Verdict::Yes ==> !r,
        policy == FailOn::Unknown ==> (r <==> (verdict == Verdict::Unknown || verdict == Verdict::Unsupported)),
        policy == FailOn::No ==> (r <==> verdict == Verdict::No),
{
    match policy {
        FailOn::Never => false,
        FailOn::No => verdict == Verdict::No,
        FailOn::Unknown => verdict == Verdict::Unknown || verdict == Verdict::Unsupported,
        FailOn::NonYes => verdict != Verdict::Yes,
    }
}

/// Settings given on the command line, each replacing the configured one.
#[derive(Clone, Copy, Debug)]
pub struct Overrides {
    pub alphabet: Option<Alphabet>,
    pub max_product_states: Option<usize>,
    pub timeout_ms: Option<u64>,
    pub max_repeat: Option<usize>,
    pub dot_matches_newline: Option<bool>,
    pub ci_exit_code: Option<i32>,
}

/// `o` if given, else `v`.
pub open spec fn or_keep<T>(o: Option<T>, v: T) -> T {
    match o {
        Some(x) => x,
        None => v,
    }
}

pub fn apply_overrides(overrides: &Overrides, config: &mut Config)
    ensures
        final(config).alphabet == or_keep(overrides.alphabet, old(config).alphabet),
        final(config).max_product_states == or_keep(overrides.max_product_states, old(config).max_product_states),
        final(config).timeout_ms == or_keep(overrides.timeout_ms, old(config).timeout_ms),
        final(config).max_repeat == or_keep(overrides.max_repeat, old(config).max_repeat),
        final(config).dot_matches_newline == or_keep(overrides.dot_matches_newline, old(config).dot_matches_newline),
        final(config).ci_exit_code == or_keep(overrides.ci_exit_code, old(config).ci_exit_code),
{
    if let Some(alphabet) = overrides.alphabet {
        config.alphabet = alphabet;
    }
    if let Some(limit) = overrides.max_product_states {
        config.max_product_states = limit;
    }
    if let Some(timeout) = overrides.timeout_ms {
        config.timeout_ms = timeout;
    }
    if let Some(limit) = overrides.max_repeat {
        config.max_repeat = limit;
    }
    if let Some(value) = overrides.dot_matches_newline {
        config.dot_matches_newline = value;
    }
    if let Some(code) = overrides.ci_exit_code {
        config.ci_exit_code = code;
    }
}

/// A lower-case hexadecimal digit.
pub open spec fn hex_digit(d: int) -> char {
    if d < 10 {
        crate::text::digit_char(d)
    } else {
        (('a' as int) + d - 10) as char
    }
}

/// How a JSON string literal writes one character: `\"` and `\\` for the
/// quote and the backslash, the short forms `\b \t \n \f \r`, `\u00xx`
/// (lower-case hex) for the other control characters below U+0020, and the
/// character itself otherwise.
pub open spec fn json_char(c: char) -> Seq<char> {
    let v = c as int;
    if c == '"' {
        seq!['\\', '"']
    } else if c == '\\' {
        seq!['\\', '\\']
    } else if v == 8 {
        seq!['\\', 'b']
    } else if v == 9 {
        seq!['\\', 't']
    } else if v == 10 {
        seq!['\\', 'n']
    } else if v == 12 {
        seq!['\\', 'f']
    } else if v == 13 {
        seq!['\\', 'r']
    } else if v < 0x20 {
        seq!['\\', 'u', '0', '0', hex_digit(v / 16), hex_digit(v % 16)]
    } else {
        seq![c]
    }
}

/// The characters of `s`, each written as a JSON string literal writes it.
pub open spec fn json_body(s: Seq<char>) -> Seq<char>
    decreases s.len(),
{
    if s.len() == 0 {
        Seq::empty()
    } else {
        json_body(s.drop_last()) + json_char(s.last())
    }
}

/// The JSON string literal of a string: its escaped characters in quotes.
pub open spec fn json_quoted(s: Seq<char>) -> Seq<char> {
    seq!['"'] + json_body(s) + seq!['"']
}

/// `serde_json::to_string` of a string: its JSON literal, which escapes
/// exactly the quote, the backslash and the control characters below
/// U+0020. Serializing a string into memory cannot fail, so the result is
/// always there.
#[verifier::external_body]
fn json_string(s: &str) -> (r: Option<String>)
    ensures
        r is Some,
        r.unwrap()@ == json_quoted(s@),
{
    serde_json::to_string(s).ok()
}

/// The lines joined by newlines.
pub open spec fn joined(lines: Seq<Seq<char>>) -> Seq<char>
    decreases lines.len(),
{
    if lines.len() == 0 {
        Seq::empty()
    } else if lines.len() == 1 {
        lines[0]
    } else {
        joined(lines.drop_last()) + "\n"@ + lines.last()
    }
}

fn join_lines(lines: &Vec<String>) -> (r: String)
    ensures
        r@ == joined(lines@.map_values(|s: String| s@)),
{
    let ghost views = lines@.map_values(|s: String| s@);
    let mut out = String::new();
    let mut i: usize = 0;
    while i < lines.len()
        invariant
            views == lines@.map_values(|s: String| s@),
            i <= lines@.len(),
            out@ == joined(views.subrange(0, i as int)),
        decreases lines@.len() - i,
    {
        proof {
            let next = views.subrange(0, i + 1);
            assert(next.drop_last() =~= views.subrange(0, i as int));
            assert(next.last() == lines@[i as int]@);
            if i == 0 {
                assert(views.subrange(0, 0) =~= Seq::<Seq<char>>::empty());
            }
        }
        if i > 0 {
            out.append("\n");
        }
        out.append(lines[i].as_str());
        proof {
            let next = views.subrange(0, i + 1);
            if i == 0 {
                assert(out@ =~= next[0]);
            }
        }
        i += 1;
    }
    proof {
        assert(views.subrange(0, i as int) =~= views);
    }
    out
}

/// The timing line of the text report.
pub open spec fn timing_text(t: Timings) -> Seq<char> {
    "timing: parse="@ + decimal(t.parsing_ms as nat) + " ms, build="@ + decimal(t.automata_build_ms as nat) + " ms, backend="@
        + decimal(t.backend_ms as nat) + " ms, extract="@ + decimal(t.witness_extraction_ms as nat) + " ms, validate="@
        + decimal(t.witness_validation_ms as nat) + " ms, render="@ + decimal(t.rendering_ms as nat) + " ms, total="@
        + decimal(t.total_ms as nat) + " ms"@
}

pub fn render_timing_line(timings: &Timings) -> (r: String)
    ensures
        r@ == timing_text(*timings),
{
    let mut out = "timing: parse=".to_owned();
    out.append(display_u128(timings.parsing_ms).as_str());
    out.append(" ms, build=");
    out.append(display_u128(timings.automata_build_ms).as_str());
    out.append(" ms, backend=");
    out.append(display_u128(timings.backend_ms).as_str());
    out.append(" ms, extract=");
    out.append(display_u128(timings.witness_extraction_ms).as_str());
    out.append(" ms, validate=");
    out.append(display_u128(timings.witness_validation_ms).as_str());
    out.append(" ms, render=");
    out.append(display_u128(timings.rendering_ms).as_str());
    out.append(" ms, total=");
    out.append(display_u128(timings.total_ms).as_str());
    out.append(" ms");
    out
}

/// The line naming a witness, given its JSON literal.
pub open spec fn witness_line(query: Query, rel: Seq<char>, escaped: Seq<char>) -> Seq<char> {
    match query {
        Query::Overlap => "shortest witness: "@ + escaped,
        Query::Includes => "witness in left only: "@ + escaped,
        Query::Equivalent => if rel == relation::LEFT_ONLY@ {
            "witness in left only: "@ + escaped
        } else if rel == relation::RIGHT_ONLY@ {
            "witness in right only: "@ + escaped
        } else {
            "distinguishing witness ("@ + rel + "): "@ + escaped
        },
        Query::Empty => "witness in language: "@ + escaped,
    }
}

/// The lines explaining an `UNKNOWN` or `UNSUPPORTED` verdict.
pub open spec fn reason_lines(report: Report) -> Seq<Seq<char>> {
    let base = seq!["reason: "@ + report.diagnostic.message@];
    let with_input = match report.diagnostic.input {
        Some(i) => base.push("input: "@ + i@),
        None => base,
    };
    match report.diagnostic.error {
        Some(e) => {
            let with_location = with_input.push(
                "location: bytes "@ + decimal(e.span_start as nat) + ".."@ + decimal(e.span_end as nat),
            );
            match e.hint {
                Some(h) => with_location.push("hint: "@ + h@),
                None => with_location,
            }
        },
        None => with_input,
    }
}

/// The statistics line.
pub open spec fn states_text(report: Report) -> Seq<char> {
    "states: left="@ + decimal(report.statistics.left_nfa_states as nat) + ", right="@ + match report.statistics.right_nfa_states {
        Some(v) => decimal(v as nat),
        None => "-"@,
    } + ", product="@ + decimal(report.statistics.visited_product_states as nat) + " / "@ + decimal(
        report.statistics.max_product_states as nat,
    ) + "; transitions="@ + decimal(report.statistics.generated_transitions as nat) + "; timeout="@ + decimal(
        report.statistics.timeout_ms as nat,
    ) + " ms"@
}

/// All lines of the text report, the last one empty.
pub open spec fn report_lines(report: Report, show_stats: bool) -> Seq<Seq<char>> {
    let first = seq![crate::report::verdict_text(report.verdict)];
    let with_witness = match report.witness {
        Some(w) => first.push(witness_line(report.query, w.relation@, json_quoted(w.value@))),
        None => first,
    };
    let with_reason = if report.verdict == Verdict::Unknown || report.verdict == Verdict::Unsupported {
        with_witness + reason_lines(report)
    } else {
        with_witness
    };
    let with_stats = if show_stats || report.verdict == Verdict::Unknown {
        with_reason.push(states_text(report)).push(TIMING_PLACEHOLDER@)
    } else {
        with_reason
    };
    with_stats.push(Seq::empty())
}

fn push_text(lines: &mut Vec<String>, text: String)
    ensures
        final(lines)@.map_values(|s: String| s@) == old(lines)@.map_values(|s: String| s@).push(text@),
{
    let ghost before = lines@;
    lines.push(text);
    proof {
        assert(lines@.map_values(|s: String| s@) =~= before.map_values(|s: String| s@).push(text@));
    }
}

/// The plain-text report: the verdict, the witness, why a verdict is
/// missing, and (on request, or when the verdict is unknown) statistics
/// with a placeholder for the timing line.
pub fn render_text(report: &Report, show_stats: bool) -> (r: String)
    ensures
        r@ == joined(report_lines(*report, show_stats)),
{
    let mut lines: Vec<String> = Vec::new();
    push_text(&mut lines, report.verdict.as_str().to_owned());
    let ghost first = lines@.map_values(|s: String| s@);
    proof {
        assert(first =~= seq![crate::report::verdict_text(report.verdict)]);
    }
    if let Some(witness) = &report.witness {
        let escaped = match json_string(witness.value.as_str()) {
            Some(text) => text,
            None => "<invalid>".to_owned(),
        };
        let mut line = String::new();
        match report.query {
            Query::Overlap => {
                line.append("shortest witness: ");
            },
            Query::Includes => {
                line.append("witness in left only: ");
            },
            Query::Equivalent => {
                let rel = witness.relation.as_str();
                if eq_str(rel, relation::LEFT_ONLY) {
                    line.append("witness in left only: ");
                } else if eq_str(rel, relation::RIGHT_ONLY) {
                    line.append("witness in right only: ");
                } else {
                    line.append("distinguishing witness (");
                    line.append(rel);
                    line.append("): ");
                }
            },
            Query::Empty => {
                line.append("witness in language: ");
            },
        }
        line.append(escaped.as_str());
        push_text(&mut lines, line);
    }
    let ghost with_witness = lines@.map_values(|s: String| s@);
    if report.verdict == Verdict::Unknown || report.verdict == Verdict::Unsupported {
        let mut reason = "reason: ".to_owned();
        reason.append(report.diagnostic.message.as_str());
        push_text(&mut lines, reason);
        if let Some(input) = &report.diagnostic.input {
            let mut line = "input: ".to_owned();
            line.append(input.as_str());
            push_text(&mut lines, line);
        }
        if let Some(error) = &report.diagnostic.error {
            let mut line = "location: bytes ".to_owned();
            line.append(display_usize(error.span_start).as_str());
            line.append("..");
            line.append(display_usize(error.span_end).as_str());
            push_text(&mut lines, line);
            if let Some(hint) = &error.hint {
                let mut line = "hint: ".to_owned();
                line.append(hint.as_str());
                push_text(&mut lines, line);
            }
        }
        proof {
            assert(lines@.map_values(|s: String| s@) =~= with_witness + reason_lines(*report));
        }
    }
    let ghost with_reason = lines@.map_values(|s: String| s@);
    if show_stats || report.verdict == Verdict::Unknown {
        let mut line = "states: left=".to_owned();
        line.append(display_usize(report.statistics.left_nfa_states).as_str());
        line.append(", right=");
        match report.statistics.right_nfa_states {
            Some(v) => line.append(display_usize(v).as_str()),
            None => line.append("-"),
        }
        line.append(", product=");
        line.append(display_usize(report.statistics.visited_product_states).as_str());
        line.append(" / ");
        line.append(display_usize(report.statistics.max_product_states).as_str());
        line.append("; transitions=");
        line.append(display_usize(report.statistics.generated_transitions).as_str());
        line.append("; timeout=");
        line.append(display_u64(report.statistics.timeout_ms).as_str());
        line.append(" ms");
        push_text(&mut lines, line);
        push_text(&mut lines, TIMING_PLACEHOLDER.to_owned());
    }
    push_text(&mut lines, String::new());
    proof {
        assert(lines@.map_values(|s: String| s@) =~= report_lines(*report, show_stats));
    }
    join_lines(&lines)
}

/// Two strings are equal.
fn eq_str(a: &str, b: &str) -> (r: bool)
    ensures
        r == (a@ == b@),
{
    let x = crate::nfa::str_chars(a);
    let y = crate::nfa::str_chars(b);
    if x.len() != y.len() {
        return false;
    }
    let mut i: usize = 0;
    while i < x.len()
        invariant
            x@ == a@,
            y@ == b@,
            x@.len() == y@.len(),
            i <= x@.len(),
            forall|k: int| 0 <= k < i ==> x@[k] == y@[k],
        decreases x@.len() - i,
    {
        if x[i] != y[i] {
            return false;
        }
        i += 1;
    }
    proof {
        assert(x@ =~= y@);
    }
    true
}


/// `needle` occurs in `hay` starting at `i`.
pub open spec fn occurs_at(hay: Seq<char>, needle: Seq<char>, i: int) -> bool {
    0 <= i && i + needle.len() <= hay.len() && hay.subrange(i, i + needle.len()) == needle
}

/// The `"field": value` text of a JSON number field.
pub open spec fn json_field(field: Seq<char>, value: u128) -> Seq<char> {
    "\""@ + field + "\": "@ + decimal(value as nat)
}

/// The characters `v[from..to]` as a string.
fn chars_text(v: &Vec<char>, from: usize, to: usize) -> (r: String)
    requires
        from <= to <= v@.len(),
    ensures
        r@ == v@.subrange(from as int, to as int),
{
    let mut out = String::new();
    let mut i = from;
    proof {
        assert(v@.subrange(from as int, from as int) =~= Seq::<char>::empty());
    }
    while i < to
        invariant
            from <= i <= to <= v@.len(),
            out@ == v@.subrange(from as int, i as int),
        decreases to - i,
    {
        out.append(crate::text::char_text(v[i]).as_str());
        proof {
            assert(out@ =~= v@.subrange(from as int, i + 1));
        }
        i += 1;
    }
    out
}

/// `needle` occurs in `hay` at `i`.
fn occurs_here(hay: &Vec<char>, needle: &Vec<char>, i: usize) -> (r: bool)
    requires
        i + needle@.len() <= hay@.len(),
    ensures
        r == occurs_at(hay@, needle@, i as int),
{
    let n = hay.len();
    let mut k: usize = 0;
    while k < needle.len()
        invariant
            n == hay@.len(),
            i + needle@.len() <= hay@.len(),
            k <= needle@.len(),
            forall|j: int| 0 <= j < k ==> hay@[i + j] == needle@[j],
        decreases needle@.len() - k,
    {
        proof {
            assert(i + k < hay@.len());
        }
        if hay[i + k] != needle[k] {
            proof {
                assert(hay@.subrange(i as int, i + needle@.len())[k as int] != needle@[k as int]);
            }
            return false;
        }
        k += 1;
    }
    proof {
        assert(hay@.subrange(i as int, i + needle@.len()) =~= needle@);
    }
    true
}

/// Replace the first `"field": previous` of a rendered JSON report with
/// `"field": current`, so that a timing measured after rendering can be
/// written in without rendering again.
pub fn patch_json_number(json: &mut String, field: &str, previous: u128, current: u128) -> (r: Result<(), (u8, String)>)
    ensures
        match r {
            Ok(()) => exists|i: int|
                #![trigger occurs_at(old(json)@, json_field(field@, previous), i)]
                occurs_at(old(json)@, json_field(field@, previous), i) && (forall|j: int|
                    0 <= j < i ==> !#[trigger] occurs_at(old(json)@, json_field(field@, previous), j)) && final(json)@ == old(
                    json,
                )@.subrange(0, i) + json_field(field@, current) + old(json)@.subrange(
                    i + json_field(field@, previous).len(),
                    old(json)@.len() as int,
                ),
            Err(e) => e.0 == INTERNAL_ERROR_EXIT && e.1@ == "internal error while finalizing JSON timing field "@
                + crate::text::str_debug(field@) && final(json)@ == old(json)@ && forall|i: int|
                !#[trigger] occurs_at(old(json)@, json_field(field@, previous), i),
        },
{
    let hay = crate::nfa::str_chars(json.as_str());
    let mut needle_text = "\"".to_owned();
    needle_text.append(field);
    needle_text.append("\": ");
    needle_text.append(display_u128(previous).as_str());
    let needle = crate::nfa::str_chars(needle_text.as_str());
    let mut replacement = "\"".to_owned();
    replacement.append(field);
    replacement.append("\": ");
    replacement.append(display_u128(current).as_str());
    let ghost pat = json_field(field@, previous);
    let mut i: usize = 0;
    while needle.len() <= hay.len() && i <= hay.len() - needle.len() && i < hay.len()
        invariant
            hay@ == old(json)@,
            *json == *old(json),
            needle@ == pat,
            pat == json_field(field@, previous),
            replacement@ == json_field(field@, current),
            forall|j: int| 0 <= j < i ==> !#[trigger] occurs_at(hay@, pat, j),
        decreases hay@.len() - i,
    {
        if occurs_here(&hay, &needle, i) {
            let mut out = chars_text(&hay, 0, i);
            out.append(replacement.as_str());
            out.append(chars_text(&hay, i + needle.len(), hay.len()).as_str());
            *json = out;
            proof {
                assert(occurs_at(old(json)@, pat, i as int));
            }
            return Ok(());
        }
        i += 1;
    }
    proof {
        assert forall|j: int| !#[trigger] occurs_at(hay@, pat, j) by {
            if occurs_at(hay@, pat, j) {
                assert(j < i);
            }
        }
    }
    let mut message = "internal error while finalizing JSON timing field ".to_owned();
    message.append(crate::text::debug_str(field).as_str());
    Err((INTERNAL_ERROR_EXIT, message))
}

/// The message of an analysis that ended in an error, and its exit code.
/// `command` is how the run was invoked, for an internal error's report.
pub fn render_analysis_error(error: AnalyzeError, command: &str) -> (r: (u8, String))
    ensures
        match error {
            AnalyzeError::Input(e) => r.0 == INPUT_ERROR_EXIT && r.1@ == "input error ["@ + match e.kind {
                FrontendErrorKind::Syntax => "syntax"@,
                FrontendErrorKind::Unsupported => "unsupported"@,
            } + "] at bytes "@ + decimal(e.span_start as nat) + ".."@ + decimal(e.span_end as nat) + ": "@ + e.message@
                + match e.hint {
                Some(h) => "\nhint: "@ + h@,
                None => Seq::empty(),
            },
            AnalyzeError::Internal(m) => r.0 == INTERNAL_ERROR_EXIT && r.1@ == "internal error: "@ + m@
                + "\nreproduce locally with: "@ + command@ + "\nno data was uploaded"@,
        },
{
    match error {
        AnalyzeError::Input(e) => {
            let mut message = "input error [".to_owned();
            match e.kind {
                FrontendErrorKind::Syntax => message.append("syntax"),
                FrontendErrorKind::Unsupported => message.append("unsupported"),
            }
            message.append("] at bytes ");
            message.append(display_usize(e.span_start).as_str());
            message.append("..");
            message.append(display_usize(e.span_end).as_str());
            message.append(": ");
            message.append(e.message.as_str());
            if let Some(hint) = &e.hint {
                message.append("\nhint: ");
                message.append(hint.as_str());
            }
            (INPUT_ERROR_EXIT, message)
        },
        AnalyzeError::Internal(m) => {
            let mut message = "internal error: ".to_owned();
            message.append(m.as_str());
            message.append("\nreproduce locally with: ");
            message.append(command);
            message.append("\nno data was uploaded");
            (INTERNAL_ERROR_EXIT, message)
        },
    }
}

} // verus!
