//! Shakespearean insults assembled from adjective/adjective/noun phrase lists.
//!
//! - [`parser`] turns tab-separated text into a validated phrase list.
//! - [`generator`] builds insults from such a list: a random sample, or every
//!   combination of a first adjective, a second adjective and a noun.
//! - [`text`] is the model of lines, fields and trimming that the parser's
//!   contracts are stated over.
//! - [`error`] holds the failure type shared by all of them.
//!
//! The library reads no file and prints nothing: it takes text and returns
//! values, and leaves input and output to its caller.

pub mod error;
pub mod generator;
pub mod parser;
pub mod text;
