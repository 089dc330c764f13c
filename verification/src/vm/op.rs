//! The instruction set, and how a language adds to it.
//!
//! `Op<X>` is generic so that one instruction set serves every language: the
//! core is shared, and `Ext(X)` is where a language puts what only it has.

use vstd::prelude::*;
use crate::vm::value::Value;

verus! {

/// A register index. Registers are machine-local.
pub type Reg = u16;

/// A global slot.
pub type Slot = u32;

/// What a `Compare` instruction tests.
#[derive(Clone, Copy, Debug, PartialEq, Eq, Structural)]
pub enum Cmp {
    Eq,
    Ne,
    Lt,
    Le,
    Gt,
    Ge,
}

#[derive(Clone, Debug)]
pub enum Op<X> {
    LoadK { dst: Reg, value: Value },
    Move { dst: Reg, src: Reg },
    Add { dst: Reg, a: Reg, b: Reg },
    Sub { dst: Reg, a: Reg, b: Reg },
    Mul { dst: Reg, a: Reg, b: Reg },
    Div { dst: Reg, a: Reg, b: Reg },
    Rem { dst: Reg, a: Reg, b: Reg },
    Pow { dst: Reg, a: Reg, b: Reg },
    Neg { dst: Reg, a: Reg },
    Compare { dst: Reg, cmp: Cmp, a: Reg, b: Reg },
    Not { dst: Reg, a: Reg },
    BitNot { dst: Reg, a: Reg },
    /// Bitwise, on the integer part of a number.
    And { dst: Reg, a: Reg, b: Reg },
    Or { dst: Reg, a: Reg, b: Reg },
    Xor { dst: Reg, a: Reg, b: Reg },
    Shl { dst: Reg, a: Reg, b: Reg },
    Shr { dst: Reg, a: Reg, b: Reg },
    /// Mutable shared state, by slot rather than by name.
    LoadGlobal { dst: Reg, slot: Slot },
    StoreGlobal { slot: Slot, src: Reg },
    Jump(usize),
    JumpIfFalse { src: Reg, target: usize },
    JumpIfTrue { src: Reg, target: usize },
    Print { src: Reg },
    Halt,
    /// Suspend, so whoever drives the machine can wait on something.
    Await { dst: Reg, src: Reg },
    /// `[a, b, c]`: `len` values starting at `base`.
    NewArray { dst: Reg, base: Reg, len: usize },
    /// `a[i]`.
    Index { dst: Reg, seq: Reg, idx: Reg },
    /// `a[i] = v`; one past the end appends.
    SetIndex { seq: Reg, idx: Reg, src: Reg },
    /// Length of a string or an array.
    Len { dst: Reg, src: Reg },
    /// Arguments live in `base .. base + argc`; `key` is looked up at run
    /// time and `shown` is what an error names.
    Call { dst: Reg, base: Reg, argc: usize, key: String, shown: String },
    Return { src: Reg },
    /// Falling off the end of a function returns nothing in particular.
    ReturnUnit,
    /// A language's own command.
    Ext(X),
}

impl<X> Op<X> {
    /// Whether this is a jump, whose target can be patched.
    pub open spec fn is_jump(&self) -> bool {
        self is Jump || self is JumpIfFalse || self is JumpIfTrue
    }
}

} // verus!
