//! A decoder for bracket-delimited log lines and brace-delimited field objects,
//! with a JSON serializer that keeps the original quoting of every token.
pub mod json_writer;
pub mod parser;
