//! A small grammar compiler: it reads a textual grammar whose productions
//! describe templates of literal text and nonterminal placeholders, and turns
//! each production into an ordered template annotated with typed arguments
//! and a substitution-order class.

pub mod ast;
pub mod builder;
pub mod chars;
pub mod driver;
pub mod indent;
pub mod parser;
pub mod reorder;
pub mod resolve;
pub mod scan;
pub mod token;
