//! Exact multi-pattern search of reads against a dictionary of node sequences,
//! reported as tab-delimited alignment records.

pub mod arrange;
pub mod automaton;
pub mod emit;
pub mod error;
pub mod grouping;
pub mod lines;
pub mod mapper;
pub mod matcher;
pub mod occurrence;
pub mod record;
pub mod report;
pub mod table;
pub mod views;
