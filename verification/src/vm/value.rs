//! What the machine holds.
//!
//! A number is kept as the bits of its IEEE-754 double: everything here moves
//! numbers about, compares them with zero and writes them to the wire, and
//! none of that needs arithmetic on them.

use vstd::prelude::*;
use crate::text::owned;

verus! {

#[derive(Clone, Debug)]
pub enum Value {
    Nil,
    Bool(bool),
    /// The bits of an `f64`.
    Num(u64),
    Str(String),
}

/// The sign bit of a double; every other bit set below it.
pub const MAGNITUDE_BITS: u64 = 0x7fff_ffff_ffff_ffff;

impl Value {
    /// A string value.
    pub fn str(s: &str) -> (v: Value)
        ensures
            v matches Value::Str(t) && t@ == s@,
    {
        Value::Str(owned(s))
    }

    /// A copy of this value.
    pub fn clone_value(&self) -> (v: Value)
        ensures
            match (*self, v) {
                (Value::Str(a), Value::Str(b)) => a@ == b@,
                (a, b) => a == b,
            },
    {
        match self {
            Value::Nil => Value::Nil,
            Value::Bool(b) => Value::Bool(*b),
            Value::Num(n) => Value::Num(*n),
            Value::Str(s) => Value::Str(s.clone()),
        }
    }

    /// A number that is zero, of either sign.
    pub open spec fn is_zero_bits(bits: u64) -> bool {
        bits & MAGNITUDE_BITS == 0
    }

    /// The machine's opinion about truth: `nil`, `false`, a zero and the empty
    /// string are false; everything else, a NaN included, is true.
    pub open spec fn spec_truthy(&self) -> bool {
        match self {
            Value::Nil => false,
            Value::Bool(b) => *b,
            Value::Num(n) => !Value::is_zero_bits(*n),
            Value::Str(s) => s@.len() > 0,
        }
    }

    pub fn truthy(&self) -> (b: bool)
        ensures
            b == self.spec_truthy(),
    {
        match self {
            Value::Nil => false,
            Value::Bool(b) => *b,
            Value::Num(n) => *n & MAGNITUDE_BITS != 0,
            Value::Str(s) => !s.as_str().is_empty(),
        }
    }
}

} // verus!
