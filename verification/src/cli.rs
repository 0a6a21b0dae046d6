//! Command-line options of the slicer tool.
use vstd::prelude::*;
use std::path::PathBuf;

verus! {

#[verifier::external_type_specification]
#[verifier::external_body]
pub struct ExPathBuf(std::path::PathBuf);

/// The options of one run.
pub struct Cli {
    /// Path to the log file to parse; `-` reads standard input.
    pub file: PathBuf,
    /// Regular expression that selects and parses lines; named groups
    /// `(?P<name>...)` are extracted as fields.
    pub pattern: String,
    /// Output mode.
    pub mode: OutputMode,
    /// Number of lines collected before a batch is processed.
    pub batch_size: usize,
    /// Disable the progress bar.
    pub no_progress: bool,
}

/// Output mode selector.
#[derive(Debug, Clone, Copy, PartialEq, Eq, Structural)]
pub enum OutputMode {
    /// Emit one JSON object per matched line (NDJSON / JSON Lines).
    Json,
    /// Print an aggregate statistical summary after processing.
    Summary,
}

} // verus!
