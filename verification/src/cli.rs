//! Command-line options, as plain values.

use vstd::prelude::*;

verus! {

/// Output format of the report.
#[derive(Debug, Clone, Copy, PartialEq, Eq, Structural)]
pub enum OutputFormat {
    Text,
    Json,
    Sarif,
}

/// What the command line asks for.
#[derive(Debug, Clone)]
pub struct Cli {
    /// Directory to scan recursively, or a single .mbz file.
    pub path: String,
    /// Parallel workers. Defaults to the number of CPUs.
    pub jobs: Option<usize>,
    /// Only scan paths matching these globs.
    pub include_patterns: Vec<String>,
    /// Skip paths matching these globs.
    pub exclude_patterns: Vec<String>,
    /// Treat warnings (e.g. unknown elements) as errors.
    pub strict: bool,
    /// Print only a one-line summary per MBZ.
    pub quiet: bool,
    /// Verbose progress.
    pub verbose: bool,
    /// Report format.
    pub format: OutputFormat,
    /// Verbatim issues per (code, file) in the text report; 0 for no cap.
    pub max_issues_per_code: usize,
}

/// The default cap on verbatim issues per (code, file) in the text report.
pub const DEFAULT_MAX_ISSUES_PER_CODE: usize = 5;

/// The exit status of a run: 1 when any error or fatal result was reported,
/// 0 otherwise.
pub fn exit_status(errors: usize, fatal: usize) -> (code: u8)
    ensures
        code == (if errors > 0 || fatal > 0 { 1u8 } else { 0u8 }),
{
    if errors > 0 || fatal > 0 {
        1
    } else {
        0
    }
}

} // verus!
