//! Analysis of a source-based package manager's build log: event extraction,
//! date parsing, calendar buckets and build-time prediction.

pub mod text;
pub mod parser;
pub mod date;
pub mod stats;
pub mod cli;
