//! Front end of a small dynamically typed scripting language: a lexer that
//! turns source text into tokens, and a Pratt parser that turns the tokens into
//! a syntax tree, recovering at statement boundaries after an error.
//!
//! Every function is verified against a mathematical model: `lexer` states
//! which tokens a text holds, `parser::grammar` states which tree a token
//! stream denotes, and the executable lexer and parser are proved to compute
//! exactly those.
//!
//! On top of the model stand its theorems. `parser::laws` holds what is true
//! of every parse, well-formed or not, and `parser::strictness` what the
//! parser refuses. `parser::correctness` shows that the parser reads every
//! well-formed phrase as the tree it means, with well-formedness stated in
//! `parser::phrase` by precedence and associativity alone. `roundtrip` shows
//! that the canonical text of a tree, produced by `render`, lexes and parses
//! back to the tree, and `normalization` that this holds of every tree that
//! was parsed from a text and has a shape that can be read back.

pub mod ast;
pub mod lexer;
pub mod normalization;
pub mod parser;
pub mod render;
pub mod roundtrip;
pub mod token;
