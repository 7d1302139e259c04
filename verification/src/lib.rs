//! Grammar engine for dict.cc-style dictionary entries.
//!
//! - [`text`]: character sequences, the model of every contract, and the
//!   searches that the scanner and the parser share.
//! - [`lexer`]: the scanner, which cuts a raw entry into tokens.
//! - [`entry`]: the parts of an entry, the state machine that reads them,
//!   terms with their display, equality and order, and the laws of the
//!   grammar.
//! - [`query`]: the arguments of a lookup.
//! - [`util`]: comparison without regard to case.
//! - [`unicode`]: what is taken from the standard library on trust.

pub mod entry;
pub mod lexer;
pub mod query;
pub mod text;
pub mod unicode;
pub mod util;
