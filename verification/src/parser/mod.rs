//! The parser: a two-token-lookahead Pratt parser with statement-level error
//! recovery, and the grammar it is verified against.

pub mod correctness;
pub mod grammar;
pub mod laws;
pub mod number;
pub mod parser;
pub mod phrase;
pub mod precedence;
pub mod reading;
pub mod strictness;
pub mod writing;
