//! The report that every analysis produces.
use crate::analysis::Query;
use crate::config::Alphabet;
use crate::parser::FrontendError;
use vstd::prelude::*;

pub mod relation;

verus! {

/// Version of the report layout.
pub const SCHEMA_VERSION: &'static str = "1";

/// Version of this library, as reported.
pub const TOOL_VERSION: &'static str = "0.1.0";

#[derive(Clone, Copy, Debug, Eq, PartialEq, Structural)]
pub enum Verdict {
    Yes,
    No,
    Unknown,
    Unsupported,
}

/// The upper-case name of a verdict.
pub open spec fn verdict_text(v: Verdict) -> Seq<char> {
    match v {
        Verdict::Yes => "YES"@,
        Verdict::No => "NO"@,
        Verdict::Unknown => "UNKNOWN"@,
        Verdict::Unsupported => "UNSUPPORTED"@,
    }
}

impl Verdict {
    pub fn as_str(self) -> (r: &'static str)
        ensures
            r@ == verdict_text(self),
    {
        match self {
            Verdict::Yes => "YES",
            Verdict::No => "NO",
            Verdict::Unknown => "UNKNOWN",
            Verdict::Unsupported => "UNSUPPORTED",
        }
    }
}

/// A string that settles a query, with how it relates to the languages.
#[derive(Clone, Debug)]
pub struct Witness {
    pub value: String,
    pub relation: String,
    pub codepoints: usize,
}

impl Witness {
    pub fn new(value: String, relation: &str) -> (r: Self)
        ensures
            r.value == value,
            r.relation@ == relation@,
            r.codepoints == value@.len(),
    {
        let codepoints = value.as_str().unicode_len();
        Self { value, relation: relation.to_owned(), codepoints }
    }
}

#[derive(Clone, Debug)]
pub struct Diagnostic {
    pub id: String,
    pub message: String,
    pub input: Option<String>,
    pub error: Option<FrontendError>,
    pub assumptions: Vec<String>,
}

/// Milliseconds spent in each phase, and their sum.
#[derive(Clone, Copy, Debug)]
pub struct Timings {
    pub parsing_ms: u128,
    pub automata_build_ms: u128,
    pub backend_ms: u128,
    pub witness_extraction_ms: u128,
    pub witness_validation_ms: u128,
    pub rendering_ms: u128,
    pub total_ms: u128,
}

/// The sum of the phases of `t`.
pub open spec fn phase_sum(t: Timings) -> int {
    t.parsing_ms + t.automata_build_ms + t.backend_ms + t.witness_extraction_ms + t.witness_validation_ms
        + t.rendering_ms
}

impl Default for Timings {
    fn default() -> (r: Self)
        ensures
            r.parsing_ms == 0,
            r.automata_build_ms == 0,
            r.backend_ms == 0,
            r.witness_extraction_ms == 0,
            r.witness_validation_ms == 0,
            r.rendering_ms == 0,
            r.total_ms == 0,
    {
        Self {
            parsing_ms: 0,
            automata_build_ms: 0,
            backend_ms: 0,
            witness_extraction_ms: 0,
            witness_validation_ms: 0,
            rendering_ms: 0,
            total_ms: 0,
        }
    }
}

impl Timings {
    /// Set `total_ms` to the sum of the phases.
    pub fn refresh_total(&mut self)
        requires
            phase_sum(*old(self)) <= u128::MAX,
        ensures
            final(self).total_ms == phase_sum(*old(self)),
            final(self).parsing_ms == old(self).parsing_ms,
            final(self).automata_build_ms == old(self).automata_build_ms,
            final(self).backend_ms == old(self).backend_ms,
            final(self).witness_extraction_ms == old(self).witness_extraction_ms,
            final(self).witness_validation_ms == old(self).witness_validation_ms,
            final(self).rendering_ms == old(self).rendering_ms,
    {
        self.total_ms = self.parsing_ms + self.automata_build_ms + self.backend_ms + self.witness_extraction_ms
            + self.witness_validation_ms + self.rendering_ms;
    }
}

#[derive(Clone, Debug)]
pub struct Statistics {
    pub left_nfa_states: usize,
    pub right_nfa_states: Option<usize>,
    pub visited_product_states: usize,
    pub generated_transitions: usize,
    pub max_product_states: usize,
    pub timeout_ms: u64,
    pub alphabet: Alphabet,
    pub timings: Timings,
}

#[derive(Clone, Debug)]
pub struct Semantics {
    pub match_mode: &'static str,
    pub witness_order: &'static str,
    pub shorthand_classes: &'static str,
    pub dot_matches_newline: bool,
    pub bounded: bool,
}

#[derive(Clone, Debug)]
pub struct BackendInfo {
    pub name: String,
    pub version: String,
}

#[derive(Clone, Debug)]
pub struct Report {
    pub schema_version: &'static str,
    pub tool_version: &'static str,
    pub backend: BackendInfo,
    pub query: Query,
    pub verdict: Verdict,
    pub witness: Option<Witness>,
    pub diagnostic: Diagnostic,
    pub statistics: Statistics,
    pub semantics: Semantics,
}

} // verus!
