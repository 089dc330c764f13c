//! Generating an `Operators` implementation that emits `nh_vm::Op`.
//!
//! Against a VM that owns execution, no operator body is a decision: `add`
//! means emit `Op::Add`, in every language. So the whole implementation is
//! generated, and a language targeting the VM writes no operator code. A
//! role the target has no instruction for is reported rather than emitted,
//! named by a spelling the author wrote.

use vstd::prelude::*;
use crate::codegen::{ident, ident_spec, pascal_name, pascal_name_spec};
use crate::codegen::operators::{
    emitted, emitted_from, entries, first_entries, first_per_role, lists, lazy_rhs, Emitted, is_unary,
};
use crate::lower::{Binding, Lowered, LoweredAlternative};
use crate::operators::{OperatorTable, Tier};
use crate::syntax::ast::Fixity;
use crate::text::{owned, seq_less, str_eq, str_less, lemma_seq_less_asym, lemma_seq_less_total, lemma_seq_less_trans};

verus! {

/// How a target spells one role.
#[derive(Clone, Copy, PartialEq, Eq, Debug)]
pub enum Shape {
    /// `Op::Name { dst, a, b }`
    Binary(&'static str),
    /// `Op::Name { dst, a }`
    Unary(&'static str),
    /// `Op::Compare { dst, cmp, a, b }`: one instruction with the
    /// discriminant as an operand, rather than six near-identical opcodes.
    Compare,
    /// No instruction at all: the operand is the answer. Unary `+`.
    Identity,
    /// A lazy role, lowered to a jump around the right operand; the payload
    /// names the jump that skips it.
    ShortCircuit(&'static str),
    /// Assignment: a store through the emitter, by the name of the place.
    Store,
}

/// A VM's instruction set, as far as operators are concerned.
pub struct Target {
    pub name: &'static str,
    /// Each role the target executes, and how.
    pub ops: Vec<(&'static str, Shape)>,
}

/// How `t` executes `role`: the first entry for it.
pub open spec fn shape_in(ops: Seq<(&'static str, Shape)>, role: Seq<char>) -> Option<Shape>
    decreases ops.len(),
{
    if ops.len() == 0 {
        None
    } else {
        match shape_in(ops.drop_last(), role) {
            Some(s) => Some(s),
            None => if ops.last().0@ == role {
                Some(ops.last().1)
            } else {
                None
            },
        }
    }
}

pub open spec fn nh_vm_ops() -> Seq<(Seq<char>, Shape)> {
    seq![
        ("add"@, Shape::Binary("Add")),
        ("sub"@, Shape::Binary("Sub")),
        ("mul"@, Shape::Binary("Mul")),
        ("div"@, Shape::Binary("Div")),
        ("neg"@, Shape::Unary("Neg")),
        ("not"@, Shape::Unary("Not")),
        ("bit_and"@, Shape::Binary("And")),
        ("bit_or"@, Shape::Binary("Or")),
        ("bit_xor"@, Shape::Binary("Xor")),
        ("rem"@, Shape::Binary("Rem")),
        ("pow"@, Shape::Binary("Pow")),
        ("shl"@, Shape::Binary("Shl")),
        ("shr"@, Shape::Binary("Shr")),
        ("shift"@, Shape::Compare),
        ("bit_not"@, Shape::Unary("BitNot")),
        ("pos"@, Shape::Identity),
        ("and_then"@, Shape::ShortCircuit("JumpIfFalse")),
        ("or_else"@, Shape::ShortCircuit("JumpIfTrue")),
        ("compare"@, Shape::Compare),
        ("assign"@, Shape::Store),
    ]
}

impl Target {
    /// The core set of `nh-vm`. Small on purpose: a grammar binding a role
    /// that is not here gets a clear report rather than a mystery.
    pub fn nh_vm() -> (t: Target)
        ensures
            t.name@ == "nh-vm"@,
            t.ops@.map_values(|p: (&'static str, Shape)| (p.0@, p.1)) == nh_vm_ops(),
    {
        let mut ops: Vec<(&'static str, Shape)> = Vec::new();
        ops.push(("add", Shape::Binary("Add")));
        ops.push(("sub", Shape::Binary("Sub")));
        ops.push(("mul", Shape::Binary("Mul")));
        ops.push(("div", Shape::Binary("Div")));
        ops.push(("neg", Shape::Unary("Neg")));
        ops.push(("not", Shape::Unary("Not")));
        ops.push(("bit_and", Shape::Binary("And")));
        ops.push(("bit_or", Shape::Binary("Or")));
        ops.push(("bit_xor", Shape::Binary("Xor")));
        ops.push(("rem", Shape::Binary("Rem")));
        ops.push(("pow", Shape::Binary("Pow")));
        ops.push(("shl", Shape::Binary("Shl")));
        ops.push(("shr", Shape::Binary("Shr")));
        // The grouped `<< >>` tier of a C-like table.
        ops.push(("shift", Shape::Compare));
        ops.push(("bit_not", Shape::Unary("BitNot")));
        ops.push(("pos", Shape::Identity));
        // Short-circuiting is control flow to a compiler, not an operation.
        ops.push(("and_then", Shape::ShortCircuit("JumpIfFalse")));
        ops.push(("or_else", Shape::ShortCircuit("JumpIfTrue")));
        ops.push(("compare", Shape::Compare));
        ops.push(("assign", Shape::Store));
        let t = Target { name: "nh-vm", ops };
        assert(t.ops@.map_values(|p: (&'static str, Shape)| (p.0@, p.1)) =~= nh_vm_ops());
        t
    }

    fn shape(&self, role: &str) -> (s: Option<Shape>)
        ensures
            s == shape_in(self.ops@, role@),
    {
        let mut k: usize = 0;
        while k < self.ops.len()
            invariant
                k <= self.ops@.len(),
                shape_in(self.ops@.take(k as int), role@) is None,
            decreases self.ops@.len() - k,
        {
            proof {
                assert(self.ops@.take(k + 1).drop_last() =~= self.ops@.take(k as int));
            }
            if str_eq(self.ops[k].0, role) {
                proof {
                    lemma_shape_prefix(self.ops@, k + 1, role@);
                }
                return Some(self.ops[k].1);
            }
            k = k + 1;
        }
        proof {
            assert(self.ops@.take(self.ops@.len() as int) =~= self.ops@);
        }
        None
    }
}

proof fn lemma_shape_prefix(ops: Seq<(&'static str, Shape)>, n: int, role: Seq<char>)
    requires
        0 <= n <= ops.len(),
        shape_in(ops.take(n), role) is Some,
    ensures
        shape_in(ops, role) == shape_in(ops.take(n), role),
    decreases ops.len() - n,
{
    if n < ops.len() {
        assert(ops.take(n + 1).drop_last() =~= ops.take(n));
        lemma_shape_prefix(ops, n + 1, role);
    } else {
        assert(ops.take(n) =~= ops);
    }
}

/// Names a caller can offer when a target is not recognised.
pub const TARGET_NAMES: [&'static str; 1] = ["nh-vm"];

/// Every target by name, so a caller validates a name the same way the
/// generator resolves one; `None` for a name no target has.
pub fn target_by_name(name: &str) -> (t: Option<Target>)
    ensures
        t is Some <==> name@ == "nh-vm"@,
        t matches Some(t) ==> t.name@ == "nh-vm"@ && t.ops@.map_values(|p: (&'static str, Shape)| (p.0@, p.1))
            == nh_vm_ops(),
{
    if str_eq(name, "nh-vm") {
        Some(Target::nh_vm())
    } else {
        None
    }
}

/// A role a grammar binds that the target cannot execute.
#[derive(Clone, Debug, PartialEq, Eq)]
pub struct Unsupported {
    pub role: String,
    /// A spelling that binds it, so the report points at something the
    /// author wrote.
    pub spelling: String,
}

/// The spelling of the first operator of `ops` bound to `role`.
pub open spec fn first_spelling(ops: Seq<Emitted>, role: Seq<char>) -> Seq<char>
    decreases ops.len(),
{
    if ops.len() == 0 {
        Seq::empty()
    } else if exists|j: int| 0 <= j < ops.len() - 1 && (#[trigger] ops[j]).role@ == role {
        first_spelling(ops.drop_last(), role)
    } else {
        ops.last().op.literal@
    }
}

/// Whether `role` is bound by an operator of `ops` and missing from `t`.
pub open spec fn missing_role(ops: Seq<Emitted>, t: Seq<(&'static str, Shape)>, role: Seq<char>) -> bool {
    (exists|j: int| 0 <= j < ops.len() && (#[trigger] ops[j]).role@ == role) && shape_in(t, role) is None
}

/// Whether `u` lists every missing role once, in role order, each with the
/// first spelling that binds it.
pub open spec fn missing_spec(ops: Seq<Emitted>, t: Seq<(&'static str, Shape)>, u: Seq<Unsupported>) -> bool {
    &&& forall|a: int, b: int| 0 <= a < b < u.len() ==> seq_less(u[a].role@, u[b].role@)
    &&& forall|k: int| 0 <= k < u.len() ==> missing_role(ops, t, (#[trigger] u[k]).role@) && u[k].spelling@ == first_spelling(ops, u[k].role@)
    &&& forall|role: Seq<char>| #[trigger] missing_role(ops, t, role) ==> exists|k: int| 0 <= k < u.len() && u[k].role@ == role
}

proof fn lemma_first_spelling_step(ops: Seq<Emitted>, i: int, role: Seq<char>)
    requires
        0 <= i < ops.len(),
        exists|j: int| 0 <= j < i && (#[trigger] ops[j]).role@ == role,
    ensures
        first_spelling(ops.take(i + 1), role) == first_spelling(ops.take(i), role),
{
    let t = ops.take(i + 1);
    assert(t.drop_last() =~= ops.take(i));
    let j = choose|j: int| 0 <= j < i && (#[trigger] ops[j]).role@ == role;
    assert(t[j].role@ == role);
}

proof fn lemma_first_spelling_prefix(ops: Seq<Emitted>, n: int, role: Seq<char>)
    requires
        0 <= n <= ops.len(),
        exists|j: int| 0 <= j < n && (#[trigger] ops[j]).role@ == role,
    ensures
        first_spelling(ops, role) == first_spelling(ops.take(n), role),
    decreases ops.len() - n,
{
    if n < ops.len() {
        lemma_first_spelling_step(ops, n, role);
        lemma_first_spelling_prefix(ops, n + 1, role);
    } else {
        assert(ops.take(n) =~= ops);
    }
}

/// The roles of `ops` that `target` cannot execute, in role order, each
/// once, with the spelling that first binds it.
fn missing_roles(ops: &Vec<Emitted>, target: &Target) -> (u: Vec<Unsupported>)
    ensures
        missing_spec(ops@, target.ops@, u@),
{
    let mut u: Vec<Unsupported> = Vec::new();
    let mut i: usize = 0;
    while i < ops.len()
        invariant
            i <= ops@.len(),
            forall|a: int, b: int| 0 <= a < b < u@.len() ==> seq_less(u@[a].role@, u@[b].role@),
            forall|k: int| 0 <= k < u@.len() ==> missing_role(ops@.take(i as int), target.ops@, (#[trigger] u@[k]).role@)
                && u@[k].spelling@ == first_spelling(ops@.take(i as int), u@[k].role@),
            forall|role: Seq<char>| #[trigger] missing_role(ops@.take(i as int), target.ops@, role) ==> exists|k: int| 0 <= k < u@.len() && u@[k].role@ == role,
        decreases ops@.len() - i,
    {
        let e = &ops[i];
        let ghost pre = ops@.take(i as int);
        let ghost post = ops@.take(i + 1);
        proof {
            assert(post.drop_last() =~= pre);
            assert(post.last() == *e);
            assert forall|j: int| 0 <= j < i implies #[trigger] post[j] == pre[j] by {}
            assert forall|r: Seq<char>| r != e.role@ implies missing_role(post, target.ops@, r) == missing_role(pre, target.ops@, r) by {
                if missing_role(post, target.ops@, r) {
                    let j = choose|j: int| 0 <= j < post.len() && (#[trigger] post[j]).role@ == r;
                    assert(pre[j].role@ == r);
                }
                if missing_role(pre, target.ops@, r) {
                    let j = choose|j: int| 0 <= j < pre.len() && (#[trigger] pre[j]).role@ == r;
                    assert(post[j].role@ == r);
                }
            }
            assert forall|r: Seq<char>| r != e.role@ && (exists|j: int| 0 <= j < pre.len() && (#[trigger] pre[j]).role@ == r) implies first_spelling(post, r) == first_spelling(pre, r) by {
                let j = choose|j: int| 0 <= j < pre.len() && (#[trigger] pre[j]).role@ == r;
                assert(post[j].role@ == r);
            }
            assert forall|r: Seq<char>| r != e.role@ && !(exists|j: int| 0 <= j < pre.len() && (#[trigger] pre[j]).role@ == r) implies !missing_role(post, target.ops@, r) by {
                if exists|j: int| 0 <= j < post.len() && (#[trigger] post[j]).role@ == r {
                    let j = choose|j: int| 0 <= j < post.len() && (#[trigger] post[j]).role@ == r;
                    assert(pre[j].role@ == r);
                }
            }
        }
        let role = e.role.as_str();
        if target.shape(role).is_none() {
            let mut k: usize = 0;
            while k < u.len() && str_less(u[k].role.as_str(), role)
                invariant
                    k <= u@.len(),
                    forall|q: int| 0 <= q < k ==> seq_less((#[trigger] u@[q]).role@, role@),
                decreases u@.len() - k,
            {
                k = k + 1;
            }
            let ghost old_u = u@;
            if k < u.len() && str_eq(u[k].role.as_str(), role) {
                // Reported already, by an earlier spelling.
                proof {
                    assert(missing_role(pre, target.ops@, role@));
                    let j = choose|j: int| 0 <= j < pre.len() && (#[trigger] pre[j]).role@ == role@;
                    assert(ops@[j].role@ == role@);
                    lemma_first_spelling_step(ops@, i as int, role@);
                    assert(missing_role(post, target.ops@, role@)) by {
                        assert(post[j].role@ == role@);
                    }
                    assert forall|q: int| 0 <= q < u@.len() implies missing_role(post, target.ops@, (#[trigger] u@[q]).role@)
                        && u@[q].spelling@ == first_spelling(post, u@[q].role@) by {
                        if u@[q].role@ != role@ {
                            let j2 = choose|j2: int| 0 <= j2 < pre.len() && (#[trigger] pre[j2]).role@ == u@[q].role@;
                        }
                    }
                    assert forall|r: Seq<char>| #[trigger] missing_role(post, target.ops@, r) implies exists|q: int| 0 <= q < u@.len() && u@[q].role@ == r by {
                        if r == role@ {
                            assert(u@[k as int].role@ == r);
                        } else {
                            assert(missing_role(pre, target.ops@, r));
                        }
                    }
                }
            } else {
                proof {
                    if k < old_u.len() {
                        assert(!seq_less(old_u[k as int].role@, role@));
                        lemma_seq_less_total(old_u[k as int].role@, role@);
                    }
                    // No earlier operator has this role, or it would be listed.
                    if exists|j: int| 0 <= j < pre.len() && (#[trigger] pre[j]).role@ == role@ {
                        assert(missing_role(pre, target.ops@, role@));
                        let m = choose|m: int| 0 <= m < old_u.len() && old_u[m].role@ == role@;
                        if m < k {
                            lemma_seq_less_asym(role@, role@);
                        } else if m > k {
                            assert(seq_less(old_u[k as int].role@, old_u[m].role@));
                            lemma_seq_less_trans(role@, old_u[k as int].role@, role@);
                            lemma_seq_less_asym(role@, role@);
                        }
                    }
                    assert(!exists|j: int| 0 <= j < post.len() - 1 && (#[trigger] post[j]).role@ == role@);
                    assert(first_spelling(post, role@) == e.op.literal@);
                    assert(missing_role(post, target.ops@, role@)) by {
                        assert(post[i as int].role@ == role@);
                    }
                }
                u.insert(k, Unsupported { role: owned(role), spelling: owned(e.op.literal.as_str()) });
                proof {
                    assert forall|q: int| 0 <= q < u@.len() implies missing_role(post, target.ops@, (#[trigger] u@[q]).role@)
                        && u@[q].spelling@ == first_spelling(post, u@[q].role@) by {
                        if q < k {
                            assert(u@[q] == old_u[q]);
                            lemma_seq_less_asym(u@[q].role@, role@);
                            let j2 = choose|j2: int| 0 <= j2 < pre.len() && (#[trigger] pre[j2]).role@ == u@[q].role@;
                        } else if q > k {
                            assert(u@[q] == old_u[q - 1]);
                            if k < old_u.len() {
                                if q - 1 > k {
                                    assert(seq_less(old_u[k as int].role@, old_u[q - 1].role@));
                                    lemma_seq_less_trans(role@, old_u[k as int].role@, old_u[q - 1].role@);
                                }
                                lemma_seq_less_asym(role@, old_u[q - 1].role@);
                            }
                            let j2 = choose|j2: int| 0 <= j2 < pre.len() && (#[trigger] pre[j2]).role@ == u@[q].role@;
                        }
                    }
                    assert forall|a: int, b: int| 0 <= a < b < u@.len() implies seq_less(u@[a].role@, u@[b].role@) by {
                        if b < k {
                            assert(u@[a] == old_u[a]);
                            assert(u@[b] == old_u[b]);
                        } else if b == k {
                            assert(u@[a] == old_u[a]);
                        } else if a == k {
                            assert(u@[b] == old_u[b - 1]);
                            if b - 1 > k {
                                assert(seq_less(old_u[k as int].role@, old_u[b - 1].role@));
                                lemma_seq_less_trans(role@, old_u[k as int].role@, old_u[b - 1].role@);
                            }
                        } else if a < k {
                            assert(u@[a] == old_u[a]);
                            assert(u@[b] == old_u[b - 1]);
                            if b - 1 > k {
                                assert(seq_less(old_u[k as int].role@, old_u[b - 1].role@));
                                lemma_seq_less_trans(role@, old_u[k as int].role@, old_u[b - 1].role@);
                            }
                            lemma_seq_less_trans(u@[a].role@, role@, u@[b].role@);
                        } else {
                            assert(u@[a] == old_u[a - 1]);
                            assert(u@[b] == old_u[b - 1]);
                        }
                    }
                    assert forall|r: Seq<char>| #[trigger] missing_role(post, target.ops@, r) implies exists|q: int| 0 <= q < u@.len() && u@[q].role@ == r by {
                        if r == role@ {
                            assert(u@[k as int].role@ == r);
                        } else {
                            assert(missing_role(pre, target.ops@, r));
                            let m = choose|m: int| 0 <= m < old_u.len() && old_u[m].role@ == r;
                            if m < k {
                                assert(u@[m] == old_u[m]);
                            } else {
                                assert(u@[m + 1] == old_u[m]);
                            }
                        }
                    }
                }
            }
        } else {
            proof {
                assert(!missing_role(post, target.ops@, e.role@));
                assert forall|q: int| 0 <= q < u@.len() implies missing_role(post, target.ops@, (#[trigger] u@[q]).role@)
                    && u@[q].spelling@ == first_spelling(post, u@[q].role@) by {
                    assert(u@[q].role@ != e.role@);
                    let j2 = choose|j2: int| 0 <= j2 < pre.len() && (#[trigger] pre[j2]).role@ == u@[q].role@;
                }
            }
        }
        i = i + 1;
    }
    proof {
        assert(ops@.take(ops@.len() as int) =~= ops@);
    }
    u
}


// ---------------------------------------------------------------------------
// The implementation
// ---------------------------------------------------------------------------

pub const VM_HEADER: &'static str = "// Generated by NailHammer. DO NOT EDIT.\n//\n// Every method here emits one instruction. There is nothing to fill in:\n// against a VM that owns execution, `add` means `Op::Add` in every\n// language, so the body is a consequence rather than a decision.\n//\n// This is a module to declare, not text to paste. It brings its own\n// imports so that wiring it in is one `pub mod` line the generator\n// already wrote -- nothing here needs a name the author has to guess.\n//\n// The `nh_handlers!` invocation is at the bottom of this file rather\n// than in your crate. Which form it takes is not a choice: a compiler\n// targeting a VM always needs `without short_circuit`, because the\n// macro would otherwise write a `ShortCircuit` asking `truthy` -- a\n// question a host whose `Out` is a register cannot answer.\n\nuse nh_runtime::{Ctx, Error, Result, Shared};\nuse nh_vm::{Cmp, Op, Reg};\n\nuse super::ast::Expr;\nuse super::dispatch::{CompareOp, Eval, Operators, ShortCircuit};\nuse super::place::Place;\n\nimpl Operators for ";

pub const COMPARE_DOC: &'static str = "\n    /// A whole comparison tier — one instruction, discriminant as an operand.\n    ///\n    /// The discriminant sits **between** the operands, because that is where\n    /// the generated trait puts it.\n    fn ";

pub const COMPARE_TAIL: &'static str = "        };\n        let dst = self.reuse(&[lhs, rhs]);\n        self.emit(Op::Compare { dst, cmp, a: lhs, b: rhs });\n        Ok(dst)\n    }\n";

pub const STORE_DOC: &'static str = "` — stores through the emitter, by name, so an assignment\n    /// inside a function reaches its parameter rather than a global.\n    fn assign(&mut self, place: Place<'_, Reg>, value: Reg) -> Result<Reg> {\n        match place {\n";

pub const STORE_MID: &'static str = "        }\n    }\n\n    /// Reads an assignment target, for compound assignment.\n    fn place_read(&mut self, place: &Place<'_, Reg>) -> Result<Reg> {\n        match place {\n";

pub const SC_DOC: &'static str = "` — lazy in its right operand, so it is a jump.\n    ///\n    /// The left operand is already in a register. `";

pub const SC_DOC2: &'static str = "` skips the right\n    /// one, and both arms have to leave the answer in the *same* place or\n    /// the code after the label could not name it -- hence the `Move`.\n    fn ";

pub const SC_BODY: &'static str = "(&mut self, lhs: Reg, rhs: Shared<Expr>, cx: &mut Ctx) -> Result<Reg> {\n        let skip = self.emit(Op::";

pub const SC_TAIL: &'static str = " { src: lhs, target: usize::MAX });\n        let r = rhs.eval(self, cx)?;\n        if r != lhs {\n            self.emit(Op::Move { dst: lhs, src: r });\n            self.free(r);\n        }\n        self.patch_to_here(skip);\n        Ok(lhs)\n    }\n";

/// The `Cmp` an ordering spelling means, if it means one.
pub open spec fn order_of(literal: Seq<char>) -> Option<Seq<char>> {
    if literal == "=="@ || literal == "="@ {
        Some("Eq"@)
    } else if literal == "!="@ || literal == "<>"@ || literal == "><"@ {
        Some("Ne"@)
    } else if literal == "<"@ {
        Some("Lt"@)
    } else if literal == "<="@ || literal == "=<"@ {
        Some("Le"@)
    } else if literal == ">"@ {
        Some("Gt"@)
    } else if literal == ">="@ || literal == "=>"@ {
        Some("Ge"@)
    } else {
        None
    }
}

fn order_text(literal: &str) -> (r: Option<&'static str>)
    ensures
        match (r, order_of(literal@)) {
            (Some(a), Some(b)) => a@ == b,
            (None, None) => true,
            _ => false,
        },
{
    if str_eq(literal, "==") || str_eq(literal, "=") {
        Some("Eq")
    } else if str_eq(literal, "!=") || str_eq(literal, "<>") || str_eq(literal, "><") {
        Some("Ne")
    } else if str_eq(literal, "<") {
        Some("Lt")
    } else if str_eq(literal, "<=") || str_eq(literal, "=<") {
        Some("Le")
    } else if str_eq(literal, ">") {
        Some("Gt")
    } else if str_eq(literal, ">=") || str_eq(literal, "=>") {
        Some("Ge")
    } else {
        None
    }
}

/// One arm of a comparison method's `match`, for each operator of the role
/// that has a variant and an ordering.
pub open spec fn compare_arms(all: Seq<Emitted>, role: Seq<char>) -> Seq<char>
    decreases all.len(),
{
    if all.len() == 0 {
        Seq::empty()
    } else {
        let o = all.last();
        compare_arms(all.drop_last(), role) + if o.role@ == role && o.variant is Some && order_of(o.op.literal@) is Some {
            "            CompareOp::"@ + o.variant->0@ + " => Cmp::"@ + order_of(o.op.literal@)->0 + ",\n"@
        } else {
            Seq::empty()
        }
    }
}

/// Whether an assignment to `alt` stores by a single name.
pub open spec fn stores_by_name(alt: LoweredAlternative) -> bool {
    alt.bindings@.len() == 1 && alt.bindings@[0].token is Some && alt.bindings@[0].cardinality
        == crate::lower::Cardinality::One
}

pub open spec fn store_arm(alt: LoweredAlternative) -> Seq<char> {
    let variant = pascal_name_spec(alt.pest_rule@);
    if stores_by_name(alt) {
        let f = ident_spec(alt.bindings@[0].name@);
        "            Place::"@ + variant + " { "@ + f + ", .. } => {\n                self.store_var("@ + f
            + ", value);\n                Ok(value)\n            }\n"@
    } else {
        "            Place::"@ + variant + " { .. } => Err(Error::unsupported(\"assignment to `"@
            + alt.pest_rule@ + "`\")),\n"@
    }
}

pub open spec fn read_arm(alt: LoweredAlternative) -> Seq<char> {
    let variant = pascal_name_spec(alt.pest_rule@);
    if stores_by_name(alt) {
        let f = ident_spec(alt.bindings@[0].name@);
        "            Place::"@ + variant + " { "@ + f + ", .. } => Ok(self.read_var("@ + f + ")),\n"@
    } else {
        "            Place::"@ + variant + " { .. } => Err(Error::unsupported(\"reading `"@ + alt.pest_rule@
            + "`\")),\n"@
    }
}

pub open spec fn place_arms(alts: Seq<LoweredAlternative>, store: bool) -> Seq<char>
    decreases alts.len(),
{
    if alts.len() == 0 {
        Seq::empty()
    } else {
        place_arms(alts.drop_last(), store) + if !alts.last().place {
            Seq::empty()
        } else if store {
            store_arm(alts.last())
        } else {
            read_arm(alts.last())
        }
    }
}

pub open spec fn any_place(alts: Seq<LoweredAlternative>) -> bool {
    exists|k: int| 0 <= k < alts.len() && (#[trigger] alts[k]).place
}

pub open spec fn store_spec(e: Emitted, alts: Seq<LoweredAlternative>) -> Seq<char> {
    let never = "            Place::Never(_) => unreachable!(\"no place variants exist\"),\n"@;
    "\n    /// `"@ + e.op.literal@ + STORE_DOC@ + (if any_place(alts) {
        place_arms(alts, true)
    } else {
        never
    }) + STORE_MID@ + (if any_place(alts) {
        place_arms(alts, false)
    } else {
        never
    }) + "        }\n    }\n"@
}

pub open spec fn fixity_debug(f: Fixity) -> Seq<char> {
    match f {
        Fixity::Left => "Left"@,
        Fixity::Right => "Right"@,
        Fixity::Prefix => "Prefix"@,
        Fixity::Postfix => "Postfix"@,
    }
}

pub open spec fn shape_debug(s: Shape) -> Seq<char> {
    match s {
        Shape::Binary(op) => "Binary(\""@ + op@ + "\")"@,
        Shape::Unary(op) => "Unary(\""@ + op@ + "\")"@,
        Shape::Compare => "Compare"@,
        Shape::Identity => "Identity"@,
        Shape::ShortCircuit(op) => "ShortCircuit(\""@ + op@ + "\")"@,
        Shape::Store => "Store"@,
    }
}

/// The method one role gets.
pub open spec fn role_spec(e: Emitted, all: Seq<Emitted>, alts: Seq<LoweredAlternative>, shape: Shape) -> Seq<char> {
    let m = ident_spec(e.role@);
    let lit = e.op.literal@;
    match shape {
        Shape::Unary(op) if is_unary(e.tier.fixity) => "\n    /// `"@ + lit + "` — emits `Op::"@ + op@ + "`.\n    fn "@ + m
            + "(&mut self, operand: Reg) -> Result<Reg> {\n        let dst = self.reuse(&[operand]);\n        self.emit(Op::"@
            + op@ + " { dst, a: operand });\n        Ok(dst)\n    }\n"@,
        Shape::Binary(op) if !is_unary(e.tier.fixity) => "\n    /// `"@ + lit + "` — emits `Op::"@ + op@ + "`.\n    fn "@ + m
            + "(&mut self, lhs: Reg, rhs: Reg) -> Result<Reg> {\n        let dst = self.reuse(&[lhs, rhs]);\n        self.emit(Op::"@
            + op@ + " { dst, a: lhs, b: rhs });\n        Ok(dst)\n    }\n"@,
        Shape::Compare if !is_unary(e.tier.fixity) => COMPARE_DOC@ + m
            + "(&mut self, lhs: Reg, op: CompareOp, rhs: Reg) -> Result<Reg> {\n        let cmp = match op {\n"@
            + compare_arms(all, e.role@) + COMPARE_TAIL@,
        Shape::Identity if is_unary(e.tier.fixity) => "\n    /// `"@ + lit
            + "` — the operand is the answer; no instruction is emitted.\n    fn "@ + m
            + "(&mut self, operand: Reg) -> Result<Reg> {\n        Ok(operand)\n    }\n"@,
        Shape::Store if !is_unary(e.tier.fixity) => store_spec(e, alts),
        _ => "\n    // unrepresentable: role `"@ + e.role@ + "` is "@ + fixity_debug(e.tier.fixity)
            + " but the target maps it as "@ + shape_debug(shape) + "\n"@,
    }
}

fn place_arms_text(alts: &Vec<LoweredAlternative>, store: bool) -> (t: String)
    ensures
        t@ == place_arms(alts@, store),
{
    let mut t = String::new();
    let mut k: usize = 0;
    while k < alts.len()
        invariant
            k <= alts@.len(),
            t@ == place_arms(alts@.take(k as int), store),
        decreases alts@.len() - k,
    {
        let alt = &alts[k];
        proof {
            assert(alts@.take(k + 1).drop_last() =~= alts@.take(k as int));
        }
        if alt.place {
            let variant = pascal_name(alt.pest_rule.as_str());
            let by_name = alt.bindings.len() == 1 && alt.bindings[0].token.is_some()
                && alt.bindings[0].cardinality == crate::lower::Cardinality::One;
            t.append("            Place::");
            t.append(variant.as_str());
            if by_name {
                let f = ident(alt.bindings[0].name.as_str());
                t.append(" { ");
                t.append(f.as_str());
                if store {
                    t.append(", .. } => {\n                self.store_var(");
                    t.append(f.as_str());
                    t.append(", value);\n                Ok(value)\n            }\n");
                } else {
                    t.append(", .. } => Ok(self.read_var(");
                    t.append(f.as_str());
                    t.append(")),\n");
                }
            } else {
                if store {
                    t.append(" { .. } => Err(Error::unsupported(\"assignment to `");
                } else {
                    t.append(" { .. } => Err(Error::unsupported(\"reading `");
                }
                t.append(alt.pest_rule.as_str());
                t.append("`\")),\n");
            }
        }
        k = k + 1;
    }
    proof {
        assert(alts@.take(alts@.len() as int) =~= alts@);
    }
    t
}

fn has_place(alts: &Vec<LoweredAlternative>) -> (b: bool)
    ensures
        b == any_place(alts@),
{
    let mut k: usize = 0;
    while k < alts.len()
        invariant
            k <= alts@.len(),
            forall|q: int| 0 <= q < k ==> !(#[trigger] alts@[q]).place,
        decreases alts@.len() - k,
    {
        if alts[k].place {
            return true;
        }
        k = k + 1;
    }
    false
}

fn store_text(e: &Emitted, alts: &Vec<LoweredAlternative>) -> (t: String)
    ensures
        t@ == store_spec(*e, alts@),
{
    let never = "            Place::Never(_) => unreachable!(\"no place variants exist\"),\n";
    let any = has_place(alts);
    let mut t = owned("\n    /// `");
    t.append(e.op.literal.as_str());
    t.append(STORE_DOC);
    if any {
        t.append(place_arms_text(alts, true).as_str());
    } else {
        t.append(never);
    }
    t.append(STORE_MID);
    if any {
        t.append(place_arms_text(alts, false).as_str());
    } else {
        t.append(never);
    }
    t.append("        }\n    }\n");
    t
}

fn compare_arms_text(all: &Vec<Emitted>, role: &str) -> (t: String)
    ensures
        t@ == compare_arms(all@, role@),
{
    let mut t = String::new();
    let mut k: usize = 0;
    while k < all.len()
        invariant
            k <= all@.len(),
            t@ == compare_arms(all@.take(k as int), role@),
        decreases all@.len() - k,
    {
        let o = &all[k];
        proof {
            assert(all@.take(k + 1).drop_last() =~= all@.take(k as int));
        }
        if str_eq(o.role.as_str(), role) {
            match (&o.variant, order_text(o.op.literal.as_str())) {
                (Some(v), Some(c)) => {
                    t.append("            CompareOp::");
                    t.append(v.as_str());
                    t.append(" => Cmp::");
                    t.append(c);
                    t.append(",\n");
                },
                _ => {},
            }
        }
        k = k + 1;
    }
    proof {
        assert(all@.take(all@.len() as int) =~= all@);
    }
    t
}

fn fixity_debug_text(f: Fixity) -> (s: &'static str)
    ensures
        s@ == fixity_debug(f),
{
    match f {
        Fixity::Left => "Left",
        Fixity::Right => "Right",
        Fixity::Prefix => "Prefix",
        Fixity::Postfix => "Postfix",
    }
}

fn shape_debug_text(s: Shape) -> (t: String)
    ensures
        t@ == shape_debug(s),
{
    match s {
        Shape::Binary(op) => {
            let mut t = owned("Binary(\"");
            t.append(op);
            t.append("\")");
            t
        },
        Shape::Unary(op) => {
            let mut t = owned("Unary(\"");
            t.append(op);
            t.append("\")");
            t
        },
        Shape::Compare => owned("Compare"),
        Shape::Identity => owned("Identity"),
        Shape::ShortCircuit(op) => {
            let mut t = owned("ShortCircuit(\"");
            t.append(op);
            t.append("\")");
            t
        },
        Shape::Store => owned("Store"),
    }
}

fn role_text(e: &Emitted, all: &Vec<Emitted>, alts: &Vec<LoweredAlternative>, shape: Shape) -> (t: String)
    ensures
        t@ == role_spec(*e, all@, alts@, shape),
{
    let m = ident(e.role.as_str());
    let f = e.tier.fixity;
    let unary = f == Fixity::Prefix || f == Fixity::Postfix;
    let lit = e.op.literal.as_str();
    match shape {
        Shape::Unary(op) if unary => {
            let mut t = owned("\n    /// `");
            t.append(lit);
            t.append("` — emits `Op::");
            t.append(op);
            t.append("`.\n    fn ");
            t.append(m.as_str());
            t.append("(&mut self, operand: Reg) -> Result<Reg> {\n        let dst = self.reuse(&[operand]);\n        self.emit(Op::");
            t.append(op);
            t.append(" { dst, a: operand });\n        Ok(dst)\n    }\n");
            t
        },
        Shape::Binary(op) if !unary => {
            let mut t = owned("\n    /// `");
            t.append(lit);
            t.append("` — emits `Op::");
            t.append(op);
            t.append("`.\n    fn ");
            t.append(m.as_str());
            t.append("(&mut self, lhs: Reg, rhs: Reg) -> Result<Reg> {\n        let dst = self.reuse(&[lhs, rhs]);\n        self.emit(Op::");
            t.append(op);
            t.append(" { dst, a: lhs, b: rhs });\n        Ok(dst)\n    }\n");
            t
        },
        Shape::Compare if !unary => {
            let mut t = owned(COMPARE_DOC);
            t.append(m.as_str());
            t.append("(&mut self, lhs: Reg, op: CompareOp, rhs: Reg) -> Result<Reg> {\n        let cmp = match op {\n");
            t.append(compare_arms_text(all, e.role.as_str()).as_str());
            t.append(COMPARE_TAIL);
            t
        },
        Shape::Identity if unary => {
            let mut t = owned("\n    /// `");
            t.append(lit);
            t.append("` — the operand is the answer; no instruction is emitted.\n    fn ");
            t.append(m.as_str());
            t.append("(&mut self, operand: Reg) -> Result<Reg> {\n        Ok(operand)\n    }\n");
            t
        },
        Shape::Store if !unary => store_text(e, alts),
        _ => {
            let mut t = owned("\n    // unrepresentable: role `");
            t.append(e.role.as_str());
            t.append("` is ");
            t.append(fixity_debug_text(f));
            t.append(" but the target maps it as ");
            t.append(shape_debug_text(shape).as_str());
            t.append("\n");
            t
        },
    }
}


/// Whether `ops` is what [`emitted`] gives for `tiers`.
pub open spec fn emitted_spec(tiers: Seq<Tier>, ops: Seq<Emitted>) -> bool {
    &&& ops.len() == first_entries(tiers, entries(tiers)).len()
    &&& forall|k: int| 0 <= k < ops.len() ==> emitted_from(#[trigger] ops[k], tiers, first_entries(tiers, entries(tiers))[k])
}

pub open spec fn is_short_circuit(s: Option<Shape>) -> bool {
    s matches Some(Shape::ShortCircuit(_))
}

pub open spec fn body_spec(es: Seq<Emitted>, all: Seq<Emitted>, alts: Seq<LoweredAlternative>, t: Seq<(&'static str, Shape)>) -> Seq<char>
    decreases es.len(),
{
    if es.len() == 0 {
        Seq::empty()
    } else {
        let e = es.last();
        body_spec(es.drop_last(), all, alts, t) + match shape_in(t, e.role@) {
            Some(Shape::ShortCircuit(_)) => Seq::empty(),
            Some(s) => role_spec(e, all, alts, s),
            None => Seq::empty(),
        }
    }
}

/// The short-circuiting operators of `ops`, first per role.
pub open spec fn first_sc<'a>(ops: Seq<Emitted<'a>>, t: Seq<(&'static str, Shape)>) -> Seq<Emitted<'a>>
    decreases ops.len(),
{
    if ops.len() == 0 {
        Seq::empty()
    } else {
        let prev = first_sc(ops.drop_last(), t);
        let e = ops.last();
        if !is_short_circuit(shape_in(t, e.role@)) || exists|j: int| 0 <= j < prev.len() && (#[trigger] prev[j]).role@ == e.role@ {
            prev
        } else {
            prev.push(e)
        }
    }
}

pub open spec fn sc_spec(e: Emitted, skip: Seq<char>) -> Seq<char> {
    "\n    /// `"@ + e.op.literal@ + SC_DOC@ + skip + SC_DOC2@ + ident_spec(e.role@) + SC_BODY@ + skip + SC_TAIL@
}

pub open spec fn sc_lines(es: Seq<Emitted>, t: Seq<(&'static str, Shape)>) -> Seq<char>
    decreases es.len(),
{
    if es.len() == 0 {
        Seq::empty()
    } else {
        sc_lines(es.drop_last(), t) + match shape_in(t, es.last().role@) {
            Some(Shape::ShortCircuit(skip)) => sc_spec(es.last(), skip@),
            _ => Seq::empty(),
        }
    }
}

/// The whole generated module.
pub open spec fn impl_spec(ops: Seq<Emitted>, alts: Seq<LoweredAlternative>, t: Seq<(&'static str, Shape)>, host: Seq<char>) -> Seq<char> {
    let lazy = first_sc(ops, t);
    VM_HEADER@ + host + " {\n"@ + body_spec(first_per_role(ops), ops, alts, t) + "}\n"@ + (if lazy.len() > 0 {
        "\nimpl ShortCircuit for "@ + host + " {\n"@ + sc_lines(lazy, t) + "}\n"@
    } else {
        ""@
    }) + "\n// Wires every handler module to its trait method.\nnh_handlers!("@ + host + (if lazy.len() > 0 {
        ", without short_circuit"@
    } else {
        ""@
    }) + ");\n"@
}

/// Generates `impl Operators for {host}` (and `impl ShortCircuit` when a
/// role short-circuits), or reports the roles that prevent it.
///
/// Every role the target cannot execute is reported once, in role order,
/// named by the first spelling that binds it. Assignment stores through the
/// emitter by the name of each `place` alternative of `lowered`.
pub fn operators_impl(table: &OperatorTable, lowered: &Lowered, target: &Target, host: &str) -> (r: Result<String, Vec<Unsupported>>)
    requires
        table.tiers@.len() <= 0xffff,
    ensures
        exists|ops: Seq<Emitted>| {
            &&& emitted_spec(table.tiers@, ops)
            &&& (r is Ok <==> !exists|role: Seq<char>| #[trigger] missing_role(ops, target.ops@, role))
            &&& (r matches Err(u) ==> missing_spec(ops, target.ops@, u@))
            &&& (r matches Ok(text) ==> text@ == impl_spec(ops, lowered.alternatives@, target.ops@, host@))
        },
{
    let ops = emitted(table);
    let missing = missing_roles(&ops, target);
    if missing.len() > 0 {
        proof {
            assert(missing_role(ops@, target.ops@, missing@[0].role@));
            assert(emitted_spec(table.tiers@, ops@));
        }
        return Err(missing);
    }
    proof {
        assert forall|role: Seq<char>| !#[trigger] missing_role(ops@, target.ops@, role) by {
            if missing_role(ops@, target.ops@, role) {
                let k = choose|k: int| 0 <= k < missing@.len() && missing@[k].role@ == role;
            }
        }
    }
    let mut out = owned(VM_HEADER);
    out.append(host);
    out.append(" {\n");
    let ghost start = out@;
    let mut body = String::new();
    let mut k: usize = 0;
    while k < ops.len()
        invariant
            k <= ops@.len(),
            body@ == body_spec(first_per_role(ops@.take(k as int)), ops@, lowered.alternatives@, target.ops@),
        decreases ops@.len() - k,
    {
        let e = &ops[k];
        let mut seen = false;
        let mut j: usize = 0;
        while j < k
            invariant
                j <= k < ops@.len(),
                *e == ops@[k as int],
                seen == exists|q: int| 0 <= q < j && (#[trigger] ops@[q]).role@ == ops@[k as int].role@ && ops@[q].tier.fixity == ops@[k as int].tier.fixity,
            decreases k - j,
        {
            if str_eq(ops[j].role.as_str(), e.role.as_str()) && ops[j].tier.fixity == e.tier.fixity {
                seen = true;
            }
            j = j + 1;
        }
        let ghost prev = first_per_role(ops@.take(k as int));
        proof {
            let t = ops@.take(k + 1);
            assert(t.drop_last() =~= ops@.take(k as int));
            assert(t.last() == ops@[k as int]);
            assert forall|q: int| 0 <= q < k implies #[trigger] t[q] == ops@[q] by {}
            if seen {
                let q = choose|q: int| 0 <= q < k && (#[trigger] ops@[q]).role@ == ops@[k as int].role@ && ops@[q].tier.fixity == ops@[k as int].tier.fixity;
                assert(t[q].role@ == t.last().role@ && t[q].tier.fixity == t.last().tier.fixity);
                assert(first_per_role(t) == prev);
            } else {
                assert(first_per_role(t) == prev.push(ops@[k as int]));
                assert(first_per_role(t).drop_last() =~= prev);
            }
        }
        if !seen {
            match target.shape(e.role.as_str()) {
                Some(Shape::ShortCircuit(_)) => {},
                Some(sh) => body.append(role_text(e, &ops, &lowered.alternatives, sh).as_str()),
                None => {},
            }
        }
        k = k + 1;
    }
    proof {
        assert(ops@.take(ops@.len() as int) =~= ops@);
    }
    out.append(body.as_str());
    out.append("}\n");

    let mut lines = String::new();
    let mut roles: Vec<String> = Vec::new();
    let mut k: usize = 0;
    while k < ops.len()
        invariant
            k <= ops@.len(),
            lines@ == sc_lines(first_sc(ops@.take(k as int), target.ops@), target.ops@),
            roles@.len() == first_sc(ops@.take(k as int), target.ops@).len(),
            forall|q: int| 0 <= q < roles@.len() ==> (#[trigger] roles@[q])@ == first_sc(ops@.take(k as int), target.ops@)[q].role@,
        decreases ops@.len() - k,
    {
        let e = &ops[k];
        let ghost prev = first_sc(ops@.take(k as int), target.ops@);
        proof {
            assert(ops@.take(k + 1).drop_last() =~= ops@.take(k as int));
            assert(ops@.take(k + 1).last() == *e);
        }
        match target.shape(e.role.as_str()) {
            Some(Shape::ShortCircuit(skip)) => {
                let dup = crate::codegen::operators::lists_word(&roles, e.role.as_str());
                proof {
                    if dup {
                        let q = choose|q: int| 0 <= q < roles@.len() && (#[trigger] roles@[q])@ == e.role@;
                        assert(prev[q].role@ == e.role@);
                    } else {
                        assert forall|q: int| 0 <= q < prev.len() implies (#[trigger] prev[q]).role@ != e.role@ by {
                            assert(roles@[q]@ == prev[q].role@);
                        }
                    }
                }
                if !dup {
                    lines.append("\n    /// `");
                    lines.append(e.op.literal.as_str());
                    lines.append(SC_DOC);
                    lines.append(skip);
                    lines.append(SC_DOC2);
                    lines.append(ident(e.role.as_str()).as_str());
                    lines.append(SC_BODY);
                    lines.append(skip);
                    lines.append(SC_TAIL);
                    roles.push(owned(e.role.as_str()));
                    proof {
                        assert(first_sc(ops@.take(k + 1), target.ops@) == prev.push(*e));
                        assert(first_sc(ops@.take(k + 1), target.ops@).drop_last() =~= prev);
                    }
                }
            },
            _ => {},
        }
        k = k + 1;
    }
    proof {
        assert(ops@.take(ops@.len() as int) =~= ops@);
    }
    let any = roles.len() > 0;
    if any {
        out.append("\nimpl ShortCircuit for ");
        out.append(host);
        out.append(" {\n");
        out.append(lines.as_str());
        out.append("}\n");
    } else {
        out.append("");
    }
    out.append("\n// Wires every handler module to its trait method.\nnh_handlers!(");
    out.append(host);
    out.append(if any { ", without short_circuit" } else { "" });
    out.append(");\n");
    proof {
        assert(out@ =~= impl_spec(ops@, lowered.alternatives@, target.ops@, host@));
        assert(emitted_spec(table.tiers@, ops@));
    }
    Ok(out)
}

} // verus!
