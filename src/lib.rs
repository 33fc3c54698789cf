//! A permissive reader of comma-separated text: physical lines are grouped
//! into records by quote balance, and each record is split into fields.
pub mod text;
pub mod lines;
pub mod fields;
pub mod reader;
