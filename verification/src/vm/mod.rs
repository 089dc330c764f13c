//! The bytecode machine's data: values, instructions, programs, the state a
//! compiler keeps while emitting them, and the wire format they cross
//! process boundaries in. Running a program is arithmetic on doubles, which
//! stays outside the library.

pub mod value;
pub mod op;
pub mod program;
pub mod emit;
pub mod wire;

pub use value::Value;
pub use op::{Cmp, Op, Reg, Slot};
pub use program::{FnDef, FnTable, Program};
pub use emit::Emit;
