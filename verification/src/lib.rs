//! Context extraction for editor cursors: from a parsed Rust source file and a
//! cursor line, find the narrowest enclosing item (function, impl, struct, enum,
//! trait or module) and hand back its text and line range.

pub mod syntax;
pub mod source_tree;
pub mod parser;
pub mod config;
pub mod server;
