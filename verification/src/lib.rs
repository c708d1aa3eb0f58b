//! A JSON parser with a fully specified grammar.
//!
//! The input is a character sequence; the result is either a [`Value`] tree
//! or an error message of the form `"{description} at {line}:{column}"`.
//! The whole grammar is stated as spec functions in [`grammar`], and every
//! parsing routine is proved to agree with it exactly.

pub mod scan;
pub mod value;
pub mod grammar;
pub mod laws;
pub mod parser;

pub use parser::parse;
pub use parser::parse_whitespace;
pub use parser::parse_char;
pub use parser::parse_word;
pub use scan::Context;
pub use value::Number;
pub use value::Value;
