//! Runtime support for the parsers generated from a grammar.
//!
//! Direct-child tag access over a parse tree, a span stack so an error
//! raised anywhere in a handler locates itself, multi-file spans with
//! rustc-style rendering, an error type with cascade suppression and
//! non-local jumps, and the operator-precedence fold.

pub mod source;
pub mod diagnostic;
pub mod error;
pub mod name;
pub mod ctx;
pub mod node;
pub mod ops;
pub mod shared;
