//! Augur: a distribution-native probabilistic language — lexer, parser,
//! formatter, type-checker and inference-graph tooling, verified with Verus.
use vstd::prelude::*;

pub mod ast;
pub mod util;
pub mod diagnostics;
pub mod lexer;
pub mod num;
pub mod parser;
pub mod format;
pub mod lower;
pub mod dialect;
pub mod builder;
pub mod passes;
pub mod codegen;
pub mod graphviz;
pub mod lsp;
pub mod tpt;
pub mod markers;
pub mod engine;
pub mod agent;
pub mod keystone;
pub mod pkg;
pub mod server;
pub mod shape;
pub mod relex;
pub mod reformat;

verus! {
} // verus!
