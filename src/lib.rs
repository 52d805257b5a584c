//! Shell-style tokenizer: splits a command line into a command name and its
//! arguments, honouring single- and double-quoted spans.
//!
//! `tokenize` treats a line without tokens as a success with no tokens;
//! `ParsedCommand::parse_command`, which needs a command name, turns that into
//! `ParserError::EmptyCommand`.
pub mod laws;
pub mod model;
pub mod parse;
pub mod text;

pub use parse::{parse_quoted, parse_space_seperated_chunk, tokenize, ParsedCommand, ParserError};
