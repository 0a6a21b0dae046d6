//! Slicer: a log filtering and summarising library.
//!
//! Lines are matched against a regular expression; named capture groups
//! become fields whose values are counted. The library holds the line
//! decoding, batching, matching, counting and report building; reading files,
//! printing and the command line live in the binary.

pub mod cli;
pub mod models;
pub mod output;
pub mod parser;
pub mod pattern;
pub mod report;
pub mod table;
pub mod text;
