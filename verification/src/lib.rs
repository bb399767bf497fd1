//! Core of the S language toolchain: sources and spans, syntax trees and their
//! readers and builders, patterns, an arena graph, the subtyping constraint engine with its
//! incremental reachability index, and helpers of the runtime and the
//! language server.

pub mod api;
pub mod ast;
pub mod builder;
pub mod cst;
pub mod parser;
pub mod patterns;
pub mod diagnostics;
pub mod display;
pub mod graph;
pub mod lambda_lifting;
pub mod lsp;
pub mod modules;
pub mod simple_types;
pub mod source;
pub mod test_utils;
pub mod text;
pub mod tree_walker;
pub mod types;

pub use test_utils::level_from_args;
