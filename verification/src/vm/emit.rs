//! A compiler's working state, and the operations generated code calls on
//! it: instructions, registers in stack discipline, where each variable
//! lives, functions, and jumps to patch.

use vstd::prelude::*;
use crate::text::{owned, str_eq};
use crate::vm::op::{Op, Reg, Slot};
use crate::vm::program::{FnDef, FnTable, Program};
use crate::vm::value::Value;

verus! {

/// The register a variable lives in, if it has one: the first entry for the
/// name.
pub open spec fn first_local(ls: Seq<(Seq<char>, Reg)>, name: Seq<char>) -> Option<Reg>
    decreases ls.len(),
{
    if ls.len() == 0 {
        None
    } else if ls[0].0 == name {
        Some(ls[0].1)
    } else {
        first_local(ls.drop_first(), name)
    }
}

/// The larger of two registers.
pub open spec fn reg_max(a: Reg, b: Reg) -> Reg {
    if a < b {
        b
    } else {
        a
    }
}

/// Where the next free register is after releasing `ops` last to first:
/// only the top register is ever released, and never one below `floor`.
pub open spec fn after_frees(next: Reg, floor: Reg, ops: Seq<Reg>) -> Reg
    decreases ops.len(),
{
    if ops.len() == 0 {
        next
    } else {
        let r = ops.last();
        let n = if r >= floor && next == r + 1 {
            r
        } else {
            next
        };
        after_frees(n, floor, ops.drop_last())
    }
}

/// The slot a global name gets: its place among the names already met, or
/// the next place if it is new.
pub open spec fn slot_for(seen: Seq<Seq<char>>, name: Seq<char>) -> u32 {
    if seen.contains(name) {
        seen.index_of(name) as u32
    } else {
        seen.len() as u32
    }
}

/// The global names met once `name` has been met too.
pub open spec fn seen_with(seen: Seq<Seq<char>>, name: Seq<char>) -> Seq<Seq<char>> {
    if seen.contains(name) {
        seen
    } else {
        seen.push(name)
    }
}

/// A jump pointed at `t`.
pub open spec fn retarget<X>(op: Op<X>, t: usize) -> Op<X> {
    match op {
        Op::Jump(_) => Op::Jump(t),
        Op::JumpIfFalse { src, .. } => Op::JumpIfFalse { src, target: t },
        Op::JumpIfTrue { src, .. } => Op::JumpIfTrue { src, target: t },
        _ => op,
    }
}

/// A compiler's working state: the code so far, its registers, and its
/// globals.
#[derive(Debug)]
pub struct Emit<X> {
    pub code: Vec<Op<X>>,
    /// Next free register, and the high-water mark: the frame size.
    next: Reg,
    high: Reg,
    /// Global variable names in first-seen order; a name's slot is its place
    /// in this list.
    slots: Vec<String>,
    /// Named registers of the function being compiled: its parameters, then
    /// any variable first assigned inside the body. Empty at the top level,
    /// where every name is a global.
    locals: Vec<(String, Reg)>,
    /// Where scratch begins. Registers below it belong to named locals for
    /// the whole body; everything above is temporaries.
    locals_end: Reg,
    /// Whether a function body is being compiled.
    in_fn: bool,
    /// Functions defined so far.
    fns: FnTable,
}

impl<X> Emit<X> {
    /// The instructions emitted so far.
    pub closed spec fn emitted(&self) -> Seq<Op<X>> {
        self.code@
    }

    pub closed spec fn next_reg(&self) -> Reg {
        self.next
    }

    pub closed spec fn high_reg(&self) -> Reg {
        self.high
    }

    /// Global names, in the order they were first met.
    pub closed spec fn globals_seen(&self) -> Seq<Seq<char>> {
        self.slots@.map_values(|s: String| s@)
    }

    /// Named registers, in the order they were given.
    pub closed spec fn locals_seen(&self) -> Seq<(Seq<char>, Reg)> {
        self.locals@.map_values(|e: (String, Reg)| (e.0@, e.1))
    }

    pub closed spec fn locals_end_reg(&self) -> Reg {
        self.locals_end
    }

    pub closed spec fn in_function(&self) -> bool {
        self.in_fn
    }

    /// Functions defined so far, by key.
    pub closed spec fn functions(&self) -> Map<Seq<char>, FnDef> {
        self.fns@
    }

    /// No global name is listed twice, and the function table is in order.
    pub closed spec fn wf(&self) -> bool {
        &&& self.fns.wf()
        &&& forall|i: int, j: int| 0 <= i < j < self.slots@.len() ==> self.slots@[i]@ != self.slots@[j]@
    }

    /// Nothing emitted, nothing allocated, nothing named.
    pub fn new() -> (e: Emit<X>)
        ensures
            e.wf(),
            e.emitted() == Seq::<Op<X>>::empty(),
            e.next_reg() == 0,
            e.high_reg() == 0,
            e.globals_seen() == Seq::<Seq<char>>::empty(),
            e.locals_seen() == Seq::<(Seq<char>, Reg)>::empty(),
            e.locals_end_reg() == 0,
            !e.in_function(),
            e.functions() == Map::<Seq<char>, FnDef>::empty(),
    {
        let e = Emit {
            code: Vec::new(),
            next: 0,
            high: 0,
            slots: Vec::new(),
            locals: Vec::new(),
            locals_end: 0,
            in_fn: false,
            fns: FnTable::new(),
        };
        proof {
            assert(e.globals_seen() =~= Seq::<Seq<char>>::empty());
            assert(e.locals_seen() =~= Seq::<(Seq<char>, Reg)>::empty());
        }
        e
    }

    /// The next free register.
    pub fn next_register(&self) -> (r: Reg)
        ensures
            r == self.next_reg(),
    {
        self.next
    }

    /// Where scratch registers begin, past the named ones.
    pub fn scratch_start(&self) -> (r: Reg)
        ensures
            r == self.locals_end_reg(),
    {
        self.locals_end
    }

    /// Whether a function body is being compiled.
    pub fn compiling_function(&self) -> (b: bool)
        ensures
            b == self.in_function(),
    {
        self.in_fn
    }

    /// Registers needed by the top-level frame.
    pub fn frame_size(&self) -> (n: usize)
        ensures
            n == self.high_reg() + 1,
    {
        self.high as usize + 1
    }

    /// Global slots the program touches; at least one, since a store with
    /// none would index an empty table.
    pub fn globals_needed(&self) -> (n: usize)
        ensures
            n == (if self.globals_seen().len() == 0 { 1 } else { self.globals_seen().len() }),
    {
        if self.slots.len() == 0 {
            1
        } else {
            self.slots.len()
        }
    }

    /// Appends an instruction and says where it went.
    pub fn emit(&mut self, op: Op<X>) -> (at: usize)
        ensures
            final(self).emitted() == old(self).emitted().push(op),
            at == old(self).emitted().len(),
            final(self).next_reg() == old(self).next_reg(),
            final(self).high_reg() == old(self).high_reg(),
            final(self).globals_seen() == old(self).globals_seen(),
            final(self).locals_seen() == old(self).locals_seen(),
            final(self).locals_end_reg() == old(self).locals_end_reg(),
            final(self).in_function() == old(self).in_function(),
            final(self).functions() == old(self).functions(),
            final(self).wf() == old(self).wf(),
    {
        self.code.push(op);
        proof {
            assert(self.slots@ == old(self).slots@);
            assert(self.fns == old(self).fns);
        }
        self.code.len() - 1
    }

    /// Where the next instruction will go.
    pub fn here(&self) -> (at: usize)
        ensures
            at == self.emitted().len(),
    {
        self.code.len()
    }


    /// Everything but the instructions and registers is as it was.
    pub open spec fn same_names(&self, o: &Emit<X>) -> bool {
        &&& self.globals_seen() == o.globals_seen()
        &&& self.locals_seen() == o.locals_seen()
        &&& self.locals_end_reg() == o.locals_end_reg()
        &&& self.in_function() == o.in_function()
        &&& self.functions() == o.functions()
        &&& self.wf() == o.wf()
    }

    /// Takes the next register. Registers go in stack discipline, which is
    /// what keeps an expression's temporaries side by side.
    pub fn allocate(&mut self) -> (r: Reg)
        requires
            old(self).next_reg() < u16::MAX,
        ensures
            r == old(self).next_reg(),
            final(self).next_reg() == r + 1,
            final(self).high_reg() == reg_max(old(self).high_reg(), (r + 1) as Reg),
            final(self).emitted() == old(self).emitted(),
            final(self).same_names(&*old(self)),
    {
        let r = self.next;
        self.next = self.next + 1;
        if self.high < self.next {
            self.high = self.next;
        }
        proof {
            assert(self.slots@ == old(self).slots@);
            assert(self.fns == old(self).fns);
        }
        r
    }

    /// Releases a scratch register. Only the top register is released, and
    /// never a named one: a parameter's register belongs to it for the whole
    /// body.
    pub fn free(&mut self, r: Reg)
        requires
            r < u16::MAX,
        ensures
            final(self).next_reg() == (if r >= old(self).locals_end_reg() && old(self).next_reg() == r + 1 {
                r
            } else {
                old(self).next_reg()
            }),
            final(self).high_reg() == old(self).high_reg(),
            final(self).emitted() == old(self).emitted(),
            final(self).same_names(&*old(self)),
    {
        let floor = self.locals_end;
        if r >= floor && self.next == r + 1 {
            self.next = self.next - 1;
        }
        proof {
            assert(self.slots@ == old(self).slots@);
            assert(self.fns == old(self).fns);
        }
    }

    /// Frees the operands, last first, then takes a destination: so `Add`
    /// reuses the register its left operand was in instead of growing the
    /// frame.
    pub fn reuse(&mut self, operands: &[Reg]) -> (r: Reg)
        requires
            forall|i: int| 0 <= i < operands@.len() ==> #[trigger] operands@[i] < u16::MAX,
            after_frees(old(self).next_reg(), old(self).locals_end_reg(), operands@) < u16::MAX,
        ensures
            r == after_frees(old(self).next_reg(), old(self).locals_end_reg(), operands@),
            final(self).next_reg() == r + 1,
            final(self).high_reg() == reg_max(old(self).high_reg(), (r + 1) as Reg),
            final(self).emitted() == old(self).emitted(),
            final(self).same_names(&*old(self)),
    {
        let mut k: usize = operands.len();
        let ghost target = after_frees(old(self).next_reg(), old(self).locals_end_reg(), operands@);
        proof {
            assert(operands@.take(k as int) =~= operands@);
        }
        while k > 0
            invariant
                k <= operands@.len(),
                forall|i: int| 0 <= i < operands@.len() ==> #[trigger] operands@[i] < u16::MAX,
                target == after_frees(self.next_reg(), self.locals_end_reg(), operands@.take(k as int)),
                self.high_reg() == old(self).high_reg(),
                self.emitted() == old(self).emitted(),
                self.same_names(&*old(self)),
            decreases k,
        {
            proof {
                assert(operands@.take(k as int).drop_last() =~= operands@.take(k - 1));
                assert(operands@.take(k as int).last() == operands@[k - 1]);
            }
            self.free(operands[k - 1]);
            k = k - 1;
        }
        self.allocate()
    }

    /// Releases a statement's scratch registers: back to just above the
    /// named ones, never to zero, so a parameter is not handed out again.
    pub fn reset_regs(&mut self)
        ensures
            final(self).next_reg() == old(self).locals_end_reg(),
            final(self).high_reg() == old(self).high_reg(),
            final(self).emitted() == old(self).emitted(),
            final(self).same_names(&*old(self)),
    {
        self.next = self.locals_end;
        proof {
            assert(self.slots@ == old(self).slots@);
            assert(self.fns == old(self).fns);
        }
    }

    /// The slot for `name`, giving one in first-seen order. Two languages
    /// that meet the same names in the same order reach the same slots
    /// without coordinating.
    pub fn slot_of(&mut self, name: &str) -> (slot: Slot)
        requires
            old(self).wf(),
        ensures
            final(self).wf(),
            slot == slot_for(old(self).globals_seen(), name@),
            final(self).globals_seen() == seen_with(old(self).globals_seen(), name@),
            final(self).locals_seen() == old(self).locals_seen(),
            final(self).locals_end_reg() == old(self).locals_end_reg(),
            final(self).in_function() == old(self).in_function(),
            final(self).functions() == old(self).functions(),
            final(self).next_reg() == old(self).next_reg(),
            final(self).high_reg() == old(self).high_reg(),
            final(self).emitted() == old(self).emitted(),
    {
        let ghost seen = self.globals_seen();
        let mut i: usize = 0;
        while i < self.slots.len()
            invariant
                seen == self.globals_seen(),
                seen == old(self).globals_seen(),
                self.wf(),
                i <= seen.len(),
                forall|j: int| 0 <= j < i ==> seen[j] != name@,
            decreases seen.len() - i,
        {
            if str_eq(self.slots[i].as_str(), name) {
                proof {
                    assert(seen[i as int] == name@);
                    assert(seen.contains(name@));
                    let k = seen.index_of(name@);
                    assert(k >= i);
                    if k > i {
                        assert(self.slots@[i as int]@ == self.slots@[k]@);
                    }
                }
                return i as Slot;
            }
            i = i + 1;
        }
        proof {
            assert(!seen.contains(name@));
        }
        let slot = self.slots.len() as Slot;
        self.slots.push(owned(name));
        proof {
            assert(self.globals_seen() =~= seen.push(name@));
            assert forall|a: int, b: int| 0 <= a < b < self.slots@.len() implies self.slots@[a]@ != self.slots@[b]@ by {
                if b == self.slots@.len() - 1 {
                    assert(seen[a] == self.slots@[a]@);
                }
            }
        }
        slot
    }

    /// Where a name lives right now: a named register, or nowhere.
    pub fn local_of(&self, name: &str) -> (r: Option<Reg>)
        ensures
            r == first_local(self.locals_seen(), name@),
    {
        let ghost ls = self.locals_seen();
        let mut i: usize = 0;
        proof {
            assert(ls.skip(0) =~= ls);
        }
        while i < self.locals.len()
            invariant
                ls == self.locals_seen(),
                i <= ls.len(),
                first_local(ls, name@) == first_local(ls.skip(i as int), name@),
            decreases ls.len() - i,
        {
            if str_eq(self.locals[i].0.as_str(), name) {
                return Some(self.locals[i].1);
            }
            proof {
                assert(ls.skip(i as int).drop_first() =~= ls.skip(i + 1));
            }
            i = i + 1;
        }
        None
    }


    /// Reads a variable into a register. A named register already holds it,
    /// so reading one emits nothing at all; a global is loaded into a fresh
    /// register.
    pub fn read_var(&mut self, name: &str) -> (r: Reg)
        requires
            old(self).wf(),
            first_local(old(self).locals_seen(), name@) is None ==> old(self).next_reg() < u16::MAX,
        ensures
            final(self).wf(),
            final(self).locals_seen() == old(self).locals_seen(),
            final(self).locals_end_reg() == old(self).locals_end_reg(),
            final(self).in_function() == old(self).in_function(),
            final(self).functions() == old(self).functions(),
            match first_local(old(self).locals_seen(), name@) {
                Some(l) => {
                    &&& r == l
                    &&& final(self).emitted() == old(self).emitted()
                    &&& final(self).globals_seen() == old(self).globals_seen()
                    &&& final(self).next_reg() == old(self).next_reg()
                    &&& final(self).high_reg() == old(self).high_reg()
                },
                None => {
                    &&& r == old(self).next_reg()
                    &&& final(self).next_reg() == r + 1
                    &&& final(self).high_reg() == reg_max(old(self).high_reg(), (r + 1) as Reg)
                    &&& final(self).globals_seen() == seen_with(old(self).globals_seen(), name@)
                    &&& final(self).emitted() == old(self).emitted().push(
                        Op::LoadGlobal { dst: r, slot: slot_for(old(self).globals_seen(), name@) },
                    )
                },
            },
    {
        if let Some(r) = self.local_of(name) {
            return r;
        }
        let slot = self.slot_of(name);
        let dst = self.allocate();
        self.emit(Op::LoadGlobal { dst, slot });
        dst
    }

    /// Writes a variable wherever it lives: into its named register, into a
    /// new named register when a function is being compiled and the name is
    /// new there, or else into its global slot. A temporary assigned inside
    /// a body is thus per frame, and recursion gets its own copy.
    pub fn store_var(&mut self, name: &str, src: Reg)
        requires
            old(self).wf(),
            first_local(old(self).locals_seen(), name@) is None && old(self).in_function()
                ==> old(self).locals_end_reg() < u16::MAX,
        ensures
            final(self).wf(),
            final(self).in_function() == old(self).in_function(),
            final(self).functions() == old(self).functions(),
            match first_local(old(self).locals_seen(), name@) {
                Some(l) => {
                    &&& final(self).emitted() == (if l != src {
                        old(self).emitted().push(Op::Move { dst: l, src })
                    } else {
                        old(self).emitted()
                    })
                    &&& final(self).globals_seen() == old(self).globals_seen()
                    &&& final(self).locals_seen() == old(self).locals_seen()
                    &&& final(self).locals_end_reg() == old(self).locals_end_reg()
                    &&& final(self).next_reg() == old(self).next_reg()
                    &&& final(self).high_reg() == old(self).high_reg()
                },
                None => if old(self).in_function() {
                    let dst = old(self).locals_end_reg();
                    &&& final(self).locals_seen() == old(self).locals_seen().push((name@, dst))
                    &&& final(self).locals_end_reg() == dst + 1
                    &&& final(self).next_reg() == reg_max(old(self).next_reg(), (dst + 1) as Reg)
                    &&& final(self).high_reg() == reg_max(old(self).high_reg(), final(self).next_reg())
                    &&& final(self).globals_seen() == old(self).globals_seen()
                    &&& final(self).emitted() == (if dst != src {
                        old(self).emitted().push(Op::Move { dst, src })
                    } else {
                        old(self).emitted()
                    })
                } else {
                    &&& final(self).emitted() == old(self).emitted().push(
                        Op::StoreGlobal { slot: slot_for(old(self).globals_seen(), name@), src },
                    )
                    &&& final(self).globals_seen() == seen_with(old(self).globals_seen(), name@)
                    &&& final(self).locals_seen() == old(self).locals_seen()
                    &&& final(self).locals_end_reg() == old(self).locals_end_reg()
                    &&& final(self).next_reg() == old(self).next_reg()
                    &&& final(self).high_reg() == old(self).high_reg()
                },
            },
    {
        if let Some(r) = self.local_of(name) {
            if r != src {
                self.emit(Op::Move { dst: r, src });
            }
            return;
        }
        if self.in_fn {
            let dst = self.locals_end;
            self.locals.push((owned(name), dst));
            self.locals_end = self.locals_end + 1;
            if self.next < self.locals_end {
                self.next = self.locals_end;
            }
            if self.high < self.next {
                self.high = self.next;
            }
            proof {
                assert(self.locals_seen() =~= old(self).locals_seen().push((name@, dst)));
                assert(self.slots@ == old(self).slots@);
                assert(self.fns == old(self).fns);
            }
            if dst != src {
                self.emit(Op::Move { dst, src });
            }
            return;
        }
        let slot = self.slot_of(name);
        self.emit(Op::StoreGlobal { slot, src });
    }

    /// Starts a function body: parameters take registers `0..n`, which is the
    /// calling convention. Returns the address the body starts at.
    pub fn begin_fn(&mut self, params: &[String]) -> (at: usize)
        ensures
            at == old(self).emitted().len(),
            final(self).locals_seen() == Seq::new(params@.len(), |i: int| (params@[i]@, i as Reg)),
            final(self).locals_end_reg() == params@.len() as Reg,
            final(self).in_function(),
            final(self).next_reg() == params@.len() as Reg,
            final(self).high_reg() == reg_max(old(self).high_reg(), params@.len() as Reg),
            final(self).emitted() == old(self).emitted(),
            final(self).globals_seen() == old(self).globals_seen(),
            final(self).functions() == old(self).functions(),
            final(self).wf() == old(self).wf(),
    {
        let mut locals: Vec<(String, Reg)> = Vec::new();
        let mut i: usize = 0;
        while i < params.len()
            invariant
                i <= params@.len(),
                locals@.len() == i,
                forall|j: int| 0 <= j < i ==> (#[trigger] locals@[j]).0@ == params@[j]@ && locals@[j].1 == j as Reg,
            decreases params@.len() - i,
        {
            locals.push((params[i].clone(), i as Reg));
            i = i + 1;
        }
        self.locals = locals;
        self.locals_end = params.len() as Reg;
        self.in_fn = true;
        self.next = self.locals_end;
        if self.high < self.next {
            self.high = self.next;
        }
        proof {
            assert(self.locals_seen() =~= Seq::new(params@.len(), |i: int| (params@[i]@, i as Reg)));
            assert(self.slots@ == old(self).slots@);
            assert(self.fns == old(self).fns);
        }
        self.here()
    }

    /// Ends a function body and records it. The trailing `ReturnUnit` is
    /// unconditional: falling off the end of a function returns something.
    pub fn end_fn(&mut self, name: &str, addr: usize, arity: usize)
        requires
            old(self).wf(),
        ensures
            final(self).wf(),
            final(self).emitted() == old(self).emitted().push(Op::ReturnUnit),
            final(self).functions() == old(self).functions().insert(
                name@,
                FnDef { addr, arity, frame: (old(self).high_reg() + 1) as usize },
            ),
            final(self).locals_seen() == Seq::<(Seq<char>, Reg)>::empty(),
            final(self).locals_end_reg() == 0,
            !final(self).in_function(),
            final(self).next_reg() == 0,
            final(self).high_reg() == old(self).high_reg(),
            final(self).globals_seen() == old(self).globals_seen(),
    {
        self.emit(Op::ReturnUnit);
        let frame = self.frame_size();
        self.locals = Vec::new();
        self.locals_end = 0;
        self.in_fn = false;
        self.next = 0;
        self.fns.insert(owned(name), FnDef { addr, arity, frame });
        proof {
            assert(self.locals_seen() =~= Seq::<(Seq<char>, Reg)>::empty());
        }
    }

    /// A constant in a fresh register.
    pub fn konst(&mut self, value: Value) -> (r: Reg)
        requires
            old(self).next_reg() < u16::MAX,
        ensures
            r == old(self).next_reg(),
            final(self).next_reg() == r + 1,
            final(self).high_reg() == reg_max(old(self).high_reg(), (r + 1) as Reg),
            final(self).emitted() == old(self).emitted().push(Op::LoadK { dst: r, value }),
            final(self).same_names(&*old(self)),
    {
        let dst = self.allocate();
        self.emit(Op::LoadK { dst, value });
        dst
    }

    /// Points the jump at `at` to wherever the next instruction lands.
    pub fn patch_to_here(&mut self, at: usize)
        requires
            at < old(self).emitted().len(),
            old(self).emitted()[at as int].is_jump(),
        ensures
            final(self).emitted() == old(self).emitted().update(
                at as int,
                retarget(old(self).emitted()[at as int], old(self).emitted().len() as usize),
            ),
            final(self).next_reg() == old(self).next_reg(),
            final(self).high_reg() == old(self).high_reg(),
            final(self).same_names(&*old(self)),
    {
        let here = self.here();
        let patched = match &self.code[at] {
            Op::Jump(_) => Op::Jump(here),
            Op::JumpIfFalse { src, .. } => Op::JumpIfFalse { src: *src, target: here },
            Op::JumpIfTrue { src, .. } => Op::JumpIfTrue { src: *src, target: here },
            _ => Op::Halt,
        };
        self.code.set(at, patched);
        proof {
            assert(self.slots@ == old(self).slots@);
            assert(self.fns == old(self).fns);
        }
    }

    /// Finishes the program and hands over everything a machine needs,
    /// leaving no code and no functions behind.
    pub fn finish(&mut self) -> (p: Program<X>)
        requires
            old(self).wf(),
        ensures
            p.code@ == old(self).emitted().push(Op::Halt),
            p.fns.wf(),
            p.fns@ == old(self).functions(),
            p.frame == old(self).high_reg() + 1,
            p.globals == (if old(self).globals_seen().len() == 0 { 1 } else { old(self).globals_seen().len() }),
            final(self).wf(),
            final(self).emitted() == Seq::<Op<X>>::empty(),
            final(self).functions() == Map::<Seq<char>, FnDef>::empty(),
            final(self).globals_seen() == old(self).globals_seen(),
            final(self).locals_seen() == old(self).locals_seen(),
            final(self).locals_end_reg() == old(self).locals_end_reg(),
            final(self).in_function() == old(self).in_function(),
            final(self).next_reg() == old(self).next_reg(),
            final(self).high_reg() == old(self).high_reg(),
    {
        self.emit(Op::Halt);
        let frame = self.frame_size();
        let globals = self.globals_needed();
        let mut code: Vec<Op<X>> = Vec::new();
        std::mem::swap(&mut code, &mut self.code);
        let mut fns = FnTable::new();
        std::mem::swap(&mut fns, &mut self.fns);
        Program { code, fns, frame, globals }
    }
}

} // verus!
