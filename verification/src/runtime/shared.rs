//! The shared pointer a generated AST is built from: every rule-typed field
//! is one, which keeps the recursion finite and lets a `lazy` binding be
//! stored.

use vstd::prelude::*;

verus! {

/// `Rc`: a program tree is cheap and stays on one thread.
pub type Shared<T> = std::rc::Rc<T>;

} // verus!
