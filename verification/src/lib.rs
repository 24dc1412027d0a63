//! Exact language relations (emptiness, overlap, inclusion, equivalence)
//! between regular expressions of a documented subset, under full-string
//! semantics, with shortest witnesses.

pub mod analysis;
pub mod antichain;
pub mod ast;
pub mod charset;
pub mod cli;
pub mod config;
pub mod draw;
pub mod laws;
pub mod minimize;
pub mod nfa;
pub mod parser;
pub mod report;
pub mod text;

pub use analysis::{
    analyze_binary, analyze_binary_with_backend, analyze_empty, analyze_empty_with_backend, AnalyzeError,
    AutomataBackend, BackendResult, BackendStatus, Query, RelationBackend,
};
pub use config::{Alphabet, Config};
pub use minimize::MinimizedBackend;
pub use parser::{parse, FrontendError, FrontendErrorKind};
pub use report::{BackendInfo, Report, Verdict, Witness};
