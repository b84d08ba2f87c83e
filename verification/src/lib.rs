//! A JSON parser whose every function is verified against a mathematical
//! description of the grammar it accepts.
//!
//! The parser reads a sequence of characters and either builds the tree of
//! the object that the text denotes, or reports the first violation of the
//! grammar together with the line and the column at which it was found.
//!
//! * [`grammar`] says, as a mathematical function, what each production
//!   makes of a text.
//! * [`parser`] holds the parser itself, which is proved to give what the
//!   grammar says, for every text.
//! * [`json`] holds the tree, the value it stands for, and the comparison of
//!   trees by value; [`json_error`] the error.
//! * [`position`] says how lines and columns are counted.
//! * [`syntax`], [`canonical`], [`laws`] and [`truncation`] hold what is
//!   proved of the grammar: every text of JSON, whatever its whitespace and
//!   its escapes, is read as the value it denotes; the canonical text of a
//!   tree parses back to it; productions only ever move forward; and a text
//!   cut short is refused for ending too early.

pub mod text;
pub mod position;
pub mod json;
pub mod json_error;
pub mod grammar;
pub mod parser;
pub mod canonical;
pub mod laws;
pub mod syntax;
pub mod truncation;

pub use json::JSON;
pub use json_error::JSONError;
pub use parser::Parser;
