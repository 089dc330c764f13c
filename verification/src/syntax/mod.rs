//! The `.nh` grammar language: sources, diagnostics, the AST, the parser,
//! rendering, and merging imported files.

pub mod source;
pub mod error;
pub mod ast;
pub mod lex;
pub mod parse;
pub mod render;
pub mod import;

pub use parse::{parse_file, parse_source};
pub use render::{alternative_source, render};
