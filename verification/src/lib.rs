//! A small Lisp interpreter: tokenizer, parser, an eval-apply evaluator over an
//! arena of cells, and a mark-and-sweep garbage collector.

pub mod data;
pub mod store;
pub mod prims;
pub mod semantics;
pub mod text;
pub mod tokenizer;
pub mod parser;
pub mod env;
pub mod line_editor;
pub mod laws;
pub mod scoping;
