//! A small JSONPath-style query language: a grammar, a parser that turns a
//! query into a syntax tree, and an evaluator that walks the tree over a JSON
//! document.
//!
//! A query is `$` followed by keys. A key is `.word`, `["word"]`, a path in
//! brackets whose result names the key (`[$.other.path]`), or a filter over
//! an array (`[?(@.key)]`, `[?(@.key == 'word')]`, `[?(@.a != @.b)]`).
//!
//! The library holds no floating-point number. A float of a document is held
//! by the bits of its binary64 encoding, and the caller of [`Runner::new`]
//! says how the text of a numeric literal reads as a float.

pub mod grammar;
pub mod laws;
pub mod number;
pub mod parser;
pub mod runner;
pub mod semantics;
pub mod sentences;
pub mod shape;
pub mod value;

pub use grammar::{Node, ParseError, Rule};
pub use number::number_of;
pub use parser::parse;
pub use runner::{json_path, number_literals, NumberLiteral, QueryError, Runner};
pub use semantics::EvalError;
pub use value::{Entry, Number, Value};
