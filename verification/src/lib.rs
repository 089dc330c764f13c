//! NailHammer: a grammar toolkit. A `.nh` grammar is parsed, its operator
//! table resolved, and the whole lowered to `.pest` source plus the facts code
//! generation needs; a small runtime supports the generated parsers.

pub mod text;
pub mod syntax;
pub mod operators;
pub mod lower;
pub mod runtime;
pub mod codegen;
pub mod vm;
