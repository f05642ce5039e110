//! A line-oriented `diff` library: command-line parsing, an LCS-based line
//! diff engine that produces GNU-style unified hunks, and the decisions that
//! turn two files' contents into a comparison outcome.
pub mod text;
pub mod lcs;
pub mod diff;
pub mod cli;
pub mod compare;
pub mod script;
pub mod hunks;
