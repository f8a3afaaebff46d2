//! An interpreter for a small expression language with integers, booleans,
//! `let` bindings, conditionals and first-class functions.
//!
//! Source text goes through the `lexer` to tokens, through the parser in
//! `ast` to a tree of `statements`, and through the evaluator in `eval` to a
//! value of `types`, in an `environment`. A `program` keeps the statements and
//! the environment of a session; `repl` runs one turn of an interactive
//! session.
//!
//! What each stage computes is written down as a mathematical function:
//! `lexer::scan` for the lexer, `grammar` for the parser, `semantics` for the
//! evaluator. The executable code is proved to compute exactly these.
//! `shape` proves what every tree that the parser builds looks like;
//! `rendering` and `spelling` prove that printing a tree and parsing the
//! printed form are inverse to each other.
pub mod ast;
pub mod environment;
pub mod eval;
pub mod grammar;
pub mod lexer;
pub mod program;
pub mod rendering;
pub mod repl;
pub mod roundtrip;
pub mod semantics;
pub mod shape;
pub mod spelling;
pub mod statements;
pub mod text;
pub mod token;
pub mod types;
