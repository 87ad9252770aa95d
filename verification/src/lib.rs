//! A verified reader for a restricted subset of the TOML configuration
//! format: single-line comments, bracketed table headers (dotted names
//! allowed), and key/value pairs whose values are double-quoted strings or
//! arrays of double-quoted strings.
//!
//! The pipeline has two stages. The scanner turns raw bytes into a flat
//! token sequence and owns all character-class validation; the parser
//! imposes the table/key/value grammar on that sequence and builds a
//! document model, which can be serialized back to a canonical byte form.

pub mod token;
pub mod scanner;
pub mod document;
pub mod parser;
pub mod laws;
