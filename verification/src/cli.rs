//! The command line: what to run and how to print it.
use vstd::prelude::*;

verus! {

/// How results are printed.
#[derive(Debug, Clone, Copy, PartialEq, Eq, Structural)]
pub enum OutputFormat {
    Json,
    Text,
}

/// What to do.
#[derive(Debug, Clone)]
pub enum Command {
    /// Analyze changed files and recommend tests to run.
    Analyze { base: Option<String>, file: Vec<String> },
    /// List changed files without analysis.
    Files { base: Option<String>, file: Vec<String> },
}

/// The parsed command line.
#[derive(Debug, Clone)]
pub struct Cli {
    /// Project root override.
    pub repo: Option<String>,
    /// Output format.
    pub format: OutputFormat,
    pub command: Command,
}

impl Cli {
    /// Whether output is JSON.
    pub fn is_json(&self) -> (r: bool)
        ensures
            r == (self.format == OutputFormat::Json),
    {
        match self.format {
            OutputFormat::Json => true,
            OutputFormat::Text => false,
        }
    }
}

} // verus!
