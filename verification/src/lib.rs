//! Verified core of a corpus-processing tool: it decides how dependent
//! repositories of a library are gathered, which of their packages are
//! analysed, and how the analysis records are deduplicated and ranked.
pub mod command;
pub mod crawl;
pub mod paths;
pub mod records;
pub mod tally;
pub mod text;
pub mod walk;
