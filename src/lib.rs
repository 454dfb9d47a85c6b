//! Semantic core of a Starlark language server: the call-argument binder,
//! the lexical scope resolver, and the file and builtins registry that feeds
//! the analyses.

pub mod ids;
pub mod binder;
pub mod scope;
pub mod resolver;
pub mod registry;
pub mod analysis;
pub mod config;
