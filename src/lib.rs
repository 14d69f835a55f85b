//! A grammar-driven parsing engine: an interning pool for symbol names, a
//! tokenizer, a grammar model with a per-head rule index, and a backtracking
//! recursive-descent parser that builds parse trees.

pub mod string_pool;
pub mod token;
pub mod bnf;
pub mod parser;
pub mod decl;
