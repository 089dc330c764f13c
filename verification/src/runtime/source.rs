//! Source tracking for target programs: the same multi-file spans, line and
//! column computation and snippets that grammar files use.

pub use crate::syntax::source::{FileId, LineCol, SourceMap, Span};
