//! Test impact analysis: from the files a change touches, and facts read from
//! the repository, derive raw evidence signals and a ranked set of test
//! commands to run.
pub mod text;
pub mod paths;
pub mod detect;
pub mod error;
pub mod analyze;
pub mod conventions;
pub mod imports;
pub mod history;
pub mod report;
pub mod cli;
pub mod diff;
