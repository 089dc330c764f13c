//! Folding a flat operator/operand sequence into a tree by precedence.
//!
//! The generated `expr` rule is flat: operands and operators in order. This
//! fold turns it into a tree with a precedence-climbing parser, and keeps
//! every part in its place: the tree read left to right is the input.

use vstd::prelude::*;
use crate::codegen::drift::{is_space as is_space_of, white_space};
use crate::text::{chars_of, owned, string_of};

verus! {

#[derive(Clone, Copy, PartialEq, Eq, Structural, Debug)]
pub enum Fixity {
    Infix,
    Prefix,
    Postfix,
}

#[derive(Clone, Copy, PartialEq, Eq, Structural, Debug)]
pub enum Assoc {
    Left,
    Right,
}

/// How one operator binds. Higher precedence binds tighter.
#[derive(Clone, Copy, PartialEq, Eq, Structural, Debug)]
pub struct OpInfo {
    pub precedence: u16,
    pub fixity: Fixity,
    pub assoc: Assoc,
}

/// One part of a flat expression: the item the tree will hold, its text
/// (for error messages), and how it binds as an infix or postfix operator
/// (`info`) and as a prefix operator (`prefix`); an operand has neither.
pub struct Part<P> {
    pub item: P,
    pub text: String,
    pub info: Option<OpInfo>,
    pub prefix: Option<OpInfo>,
}

#[derive(Debug)]
pub enum OpTree<P> {
    Atom(P),
    Prefix { op: P, operand: Box<OpTree<P>> },
    Postfix { op: P, operand: Box<OpTree<P>> },
    Infix { op: P, lhs: Box<OpTree<P>>, rhs: Box<OpTree<P>> },
}

/// The items of a tree read left to right: operands and operators in the
/// order they were written.
pub open spec fn in_order<P>(t: OpTree<P>) -> Seq<P>
    decreases t,
{
    match t {
        OpTree::Atom(p) => seq![p],
        OpTree::Prefix { op, operand } => seq![op] + in_order(*operand),
        OpTree::Postfix { op, operand } => in_order(*operand).push(op),
        OpTree::Infix { op, lhs, rhs } => in_order(*lhs).push(op) + in_order(*rhs),
    }
}

impl<P> OpTree<P> {
    /// The node's own item: the operand of an atom, else the operator.
    pub fn pair(&self) -> (p: &P)
        ensures
            *p == match *self {
                OpTree::Atom(x) => x,
                OpTree::Prefix { op, .. } => op,
                OpTree::Postfix { op, .. } => op,
                OpTree::Infix { op, .. } => op,
            },
    {
        match self {
            OpTree::Atom(p) => p,
            OpTree::Prefix { op, .. } | OpTree::Postfix { op, .. } | OpTree::Infix { op, .. } => op,
        }
    }
}

#[derive(Debug, PartialEq, Eq)]
pub enum BuildError {
    /// The expression ended where an operand was due.
    MissingOperand,
    /// An operator stood where it cannot: its text, trimmed.
    UnexpectedOperator(String),
}

impl BuildError {
    /// The message, as it reads in a diagnostic.
    pub fn to_string(&self) -> (s: String)
        ensures
            match self {
                BuildError::MissingOperand => s@ == "expected an operand"@,
                BuildError::UnexpectedOperator(op) => s@ == "unexpected operator `"@ + op@ + "`"@,
            },
    {
        match self {
            BuildError::MissingOperand => owned("expected an operand"),
            BuildError::UnexpectedOperator(op) => crate::text::cat3("unexpected operator `", op.as_str(), "`"),
        }
    }
}

pub open spec fn is_space(c: char) -> bool {
    white_space(c)
}

/// Whether `t` is `s` with its leading and trailing white space removed, as
/// `str::trim` removes it.
pub open spec fn trimmed(s: Seq<char>, t: Seq<char>) -> bool {
    exists|lo: int, hi: int|
        0 <= lo <= hi <= s.len() && t == s.subrange(lo, hi) && (forall|j: int| 0 <= j < lo ==> is_space(#[trigger] s[j]))
            && (forall|j: int| hi <= j < s.len() ==> is_space(#[trigger] s[j])) && (lo < hi ==> !is_space(s[lo])
            && !is_space(s[hi - 1]))
}

/// `s` without leading and trailing white space.
fn trim(s: &str) -> (r: String)
    ensures
        trimmed(s@, r@),
{
    let v = chars_of(s);
    let mut lo: usize = 0;
    while lo < v.len() && is_space_of(v[lo])
        invariant
            lo <= v@.len(),
            forall|j: int| 0 <= j < lo ==> is_space(#[trigger] v@[j]),
        decreases v@.len() - lo,
    {
        lo = lo + 1;
    }
    let mut hi: usize = v.len();
    while hi > lo && is_space_of(v[hi - 1])
        invariant
            lo <= hi <= v@.len(),
            forall|j: int| hi <= j < v@.len() ==> is_space(#[trigger] v@[j]),
        decreases hi,
    {
        hi = hi - 1;
    }
    let mut out: Vec<char> = Vec::new();
    let mut i: usize = lo;
    while i < hi
        invariant
            lo <= i <= hi <= v@.len(),
            out@ == v@.subrange(lo as int, i as int),
        decreases hi - i,
    {
        out.push(v[i]);
        i = i + 1;
        proof { assert(out@ =~= v@.subrange(lo as int, i as int)); }
    }
    let r = string_of(out.as_slice());
    proof {
        assert(out@ =~= v@.subrange(lo as int, hi as int));
        assert(trimmed(s@, r@)) by {
            assert(r@ == s@.subrange(lo as int, hi as int));
        }
    }
    r
}

spec fn items_of<P>(all: Seq<Part<P>>, a: int, b: int) -> Seq<P> {
    all.subrange(a, b).map_values(|p: Part<P>| p.item)
}

proof fn lemma_items_split<P>(all: Seq<Part<P>>, a: int, m: int, c: int)
    requires
        0 <= a <= m < c <= all.len(),
    ensures
        items_of(all, a, c) == items_of(all, a, m).push(all[m].item) + items_of(all, m + 1, c),
{
    let l = items_of(all, a, c);
    let r = items_of(all, a, m).push(all[m].item) + items_of(all, m + 1, c);
    assert(l.len() == r.len());
    assert forall|i: int| 0 <= i < l.len() implies l[i] == r[i] by {
        if i < m - a {
            assert(r[i] == items_of(all, a, m)[i]);
        } else if i == m - a {
        } else {
            assert(r[i] == items_of(all, m + 1, c)[i - (m - a) - 1]);
        }
    }
    assert(l =~= r);
}

proof fn lemma_items_first<P>(all: Seq<Part<P>>, a: int, c: int)
    requires
        0 <= a < c <= all.len(),
    ensures
        items_of(all, a, c) == seq![all[a].item] + items_of(all, a + 1, c),
{
    lemma_items_split(all, a, a, c);
    assert(items_of(all, a, a) =~= Seq::<P>::empty());
    assert(Seq::<P>::empty().push(all[a].item) =~= seq![all[a].item]);
}

proof fn lemma_items_last<P>(all: Seq<Part<P>>, a: int, m: int)
    requires
        0 <= a <= m < all.len(),
    ensures
        items_of(all, a, m + 1) == items_of(all, a, m).push(all[m].item),
{
    lemma_items_split(all, a, m, m + 1);
    assert(items_of(all, m + 1, m + 1) =~= Seq::<P>::empty());
    assert(items_of(all, a, m).push(all[m].item) + Seq::<P>::empty() =~= items_of(all, a, m).push(all[m].item));
}

/// How `p` binds at `fixity`: its prefix or other binding, when that has
/// this fixity.
pub open spec fn binds_at<P>(p: Part<P>, fixity: Fixity) -> Option<OpInfo> {
    let info = if fixity == Fixity::Prefix {
        p.prefix
    } else {
        p.info
    };
    match info {
        Some(i) => if i.fixity == fixity {
            Some(i)
        } else {
            None
        },
        None => None,
    }
}

/// Precedence climbing over `all` from part `pos`, taking only infix
/// operators of precedence `min` or above: the tree, or where it failed
/// (`-1` for a missing operand, else the index of the misplaced operator),
/// and the index of the first part it did not take.
///
/// A left-associative operator takes its right operand above its own
/// precedence, so an equal operator after it groups leftward; a
/// right-associative one takes it at its own, so equal operators nest
/// rightward.
pub open spec fn climb<P>(all: Seq<Part<P>>, pos: int, min: u16) -> (Result<OpTree<P>, int>, int)
    decreases all.len() - pos, 1int,
{
    let (r, e) = unary(all, pos);
    match r {
        Ok(lhs) => if pos < e <= all.len() {
            climb_rest(all, lhs, e, min)
        } else {
            (Ok(lhs), e)
        },
        Err(k) => (Err(k), e),
    }
}

/// The infix loop of [`climb`] with `lhs` folded so far and `pos` next.
pub open spec fn climb_rest<P>(all: Seq<Part<P>>, lhs: OpTree<P>, pos: int, min: u16) -> (Result<OpTree<P>, int>, int)
    decreases all.len() - pos, 2int,
{
    if 0 <= pos < all.len() {
        match binds_at(all[pos], Fixity::Infix) {
            Some(info) => if info.precedence < min {
                (Ok(lhs), pos)
            } else {
                let next_min: u16 = match info.assoc {
                    Assoc::Left => if info.precedence < u16::MAX {
                        (info.precedence + 1) as u16
                    } else {
                        info.precedence
                    },
                    Assoc::Right => info.precedence,
                };
                let (r, e) = climb(all, pos + 1, next_min);
                match r {
                    Ok(rhs) => {
                        let t = OpTree::Infix { op: all[pos].item, lhs: Box::new(lhs), rhs: Box::new(rhs) };
                        if pos < e <= all.len() {
                            climb_rest(all, t, e, min)
                        } else {
                            (Ok(t), e)
                        }
                    },
                    Err(k) => (Err(k), e),
                }
            },
            None => (Ok(lhs), pos),
        }
    } else {
        (Ok(lhs), pos)
    }
}

/// One operand at `pos`: a prefix operator with its operand climbed at the
/// operator's own precedence, or an atom with the postfix operators after it.
pub open spec fn unary<P>(all: Seq<Part<P>>, pos: int) -> (Result<OpTree<P>, int>, int)
    decreases all.len() - pos, 0int,
{
    if 0 <= pos < all.len() {
        match binds_at(all[pos], Fixity::Prefix) {
            Some(info) => {
                let (r, e) = climb(all, pos + 1, info.precedence);
                match r {
                    Ok(t) => (Ok(OpTree::Prefix { op: all[pos].item, operand: Box::new(t) }), e),
                    Err(k) => (Err(k), e),
                }
            },
            None => match all[pos].info {
                Some(i) => if i.fixity != Fixity::Postfix {
                    (Err(pos), pos + 1)
                } else {
                    postfixes(all, OpTree::Atom(all[pos].item), pos + 1)
                },
                None => postfixes(all, OpTree::Atom(all[pos].item), pos + 1),
            },
        }
    } else {
        (Err(-1), pos)
    }
}

/// `node` with the postfix operators from `pos` on applied, innermost first.
pub open spec fn postfixes<P>(all: Seq<Part<P>>, node: OpTree<P>, pos: int) -> (Result<OpTree<P>, int>, int)
    decreases all.len() - pos,
{
    if 0 <= pos < all.len() && binds_at(all[pos], Fixity::Postfix) is Some {
        postfixes(all, OpTree::Postfix { op: all[pos].item, operand: Box::new(node) }, pos + 1)
    } else {
        (Ok(node), pos)
    }
}

/// The whole fold: [`climb`] from the first part at precedence 0, failing at
/// the first part it left over.
pub open spec fn fold<P>(all: Seq<Part<P>>) -> Result<OpTree<P>, int> {
    let (r, e) = climb(all, 0, 0);
    match r {
        Ok(t) => if e < all.len() {
            Err(e)
        } else {
            Ok(t)
        },
        Err(k) => Err(k),
    }
}

/// Whether `e` is the error that failure index `k` of [`fold`] stands for.
pub open spec fn fold_error<P>(all: Seq<Part<P>>, k: int, e: BuildError) -> bool {
    if k < 0 {
        e == BuildError::MissingOperand
    } else {
        e matches BuildError::UnexpectedOperator(s) && 0 <= k < all.len() && trimmed(all[k].text@, s@)
    }
}

/// Whether `r` is what the spec result `spec` of a fold step says, with
/// `end` the parts consumed when it succeeded.
pub open spec fn step_matches<P>(all: Seq<Part<P>>, spec: (Result<OpTree<P>, int>, int), r: Result<OpTree<P>, BuildError>, end: int) -> bool {
    match r {
        Ok(t) => spec.0 == Ok::<OpTree<P>, int>(t) && spec.1 == end,
        Err(e) => spec.0 matches Err(k) && fold_error(all, k, e),
    }
}

struct Parser<P> {
    /// The parts not yet consumed, last one next.
    rest: Vec<Part<P>>,
    /// Every part, in order.
    all: Ghost<Seq<Part<P>>>,
}

impl<P> Parser<P> {
    /// How many parts have been consumed.
    spec fn consumed(&self) -> int {
        self.all@.len() - self.rest@.len()
    }

    spec fn wf(&self) -> bool {
        &&& self.rest@.len() <= self.all@.len()
        &&& forall|j: int|
            0 <= j < self.rest@.len() ==> #[trigger] self.rest@[j] == self.all@[self.all@.len() - 1 - j]
    }

    /// The items consumed from `a` up to `b`.
    spec fn items(&self, a: int, b: int) -> Seq<P> {
        items_of(self.all@, a, b)
    }

    fn peek(&self) -> (r: Option<&Part<P>>)
        requires
            self.wf(),
        ensures
            match r {
                Some(p) => self.rest@.len() > 0 && *p == self.all@[self.consumed()],
                None => self.rest@.len() == 0,
            },
    {
        if self.rest.len() == 0 {
            None
        } else {
            Some(&self.rest[self.rest.len() - 1])
        }
    }

    /// How the next part binds at `fixity`, if it is such an operator.
    fn peek_op(&self, fixity: Fixity) -> (r: Option<OpInfo>)
        requires
            self.wf(),
        ensures
            r is Some ==> self.rest@.len() > 0,
            r == (if self.rest@.len() == 0 {
                None
            } else {
                binds_at(self.all@[self.consumed()], fixity)
            }),
    {
        let p = match self.peek() {
            Some(p) => p,
            None => return None,
        };
        let info = if fixity == Fixity::Prefix { p.prefix } else { p.info };
        match info {
            Some(i) => if i.fixity == fixity {
                Some(i)
            } else {
                None
            },
            None => None,
        }
    }

    fn next(&mut self) -> (r: Option<Part<P>>)
        requires
            old(self).wf(),
        ensures
            final(self).wf(),
            final(self).all == old(self).all,
            match r {
                Some(p) => old(self).rest@.len() > 0 && final(self).rest@.len() == old(self).rest@.len() - 1
                    && p == old(self).all@[old(self).consumed()],
                None => old(self).rest@.len() == 0 && final(self).rest@ == old(self).rest@,
            },
    {
        self.rest.pop()
    }

    fn parse(&mut self, min_precedence: u16) -> (r: Result<OpTree<P>, BuildError>)
        requires
            old(self).wf(),
        ensures
            final(self).wf(),
            final(self).all == old(self).all,
            final(self).rest@.len() <= old(self).rest@.len(),
            r matches Ok(t) ==> final(self).rest@.len() < old(self).rest@.len() && in_order(t)
                == old(self).items(old(self).consumed(), final(self).consumed()),
            old(self).rest@.len() == 0 ==> r matches Err(BuildError::MissingOperand),
            step_matches(old(self).all@, climb(old(self).all@, old(self).consumed(), min_precedence), r, final(self).consumed()),
        decreases old(self).rest@.len(), 1nat,
    {
        let ghost start = self.consumed();
        let mut lhs = match self.parse_unary() {
            Ok(t) => t,
            Err(e) => return Err(e),
        };
        proof {
            assert(climb(self.all@, start, min_precedence) == climb_rest(self.all@, lhs, self.consumed(), min_precedence));
        }
        loop
            invariant
                self.wf(),
                self.all == old(self).all,
                self.rest@.len() < old(self).rest@.len(),
                in_order(lhs) == self.items(start, self.consumed()),
                start == old(self).consumed(),
                0 <= start < self.consumed(),
                climb(self.all@, start, min_precedence) == climb_rest(self.all@, lhs, self.consumed(), min_precedence),
            ensures
                climb(self.all@, start, min_precedence) == (Ok::<OpTree<P>, int>(lhs), self.consumed()),
            decreases self.rest@.len(),
        {
            let info = match self.peek_op(Fixity::Infix) {
                Some(i) => i,
                None => break,
            };
            if info.precedence < min_precedence {
                break;
            }
            let ghost mid = self.consumed();
            let op = match self.next() {
                Some(p) => p,
                None => break,
            };
            let next_min: u16 = match info.assoc {
                Assoc::Left => if info.precedence < u16::MAX { info.precedence + 1 } else { info.precedence },
                Assoc::Right => info.precedence,
            };
            let ghost before_rhs = self.consumed();
            let rhs = match self.parse(next_min) {
                Ok(t) => t,
                Err(e) => {
                    proof {
                        assert(climb_rest(self.all@, lhs, mid, min_precedence).0 == climb(self.all@, mid + 1, next_min).0);
                    }
                    return Err(e);
                },
            };
            proof {
                assert(before_rhs == mid + 1);
                assert(self.all@[mid] == op);
                assert(start <= mid);
                lemma_items_split(self.all@, start, mid, self.consumed());
            }
            lhs = OpTree::Infix { op: op.item, lhs: Box::new(lhs), rhs: Box::new(rhs) };
        }
        Ok(lhs)
    }

    fn parse_unary(&mut self) -> (r: Result<OpTree<P>, BuildError>)
        requires
            old(self).wf(),
        ensures
            final(self).wf(),
            final(self).all == old(self).all,
            final(self).rest@.len() <= old(self).rest@.len(),
            r matches Ok(t) ==> final(self).rest@.len() < old(self).rest@.len() && in_order(t)
                == old(self).items(old(self).consumed(), final(self).consumed()),
            old(self).rest@.len() == 0 ==> r matches Err(BuildError::MissingOperand),
            step_matches(old(self).all@, unary(old(self).all@, old(self).consumed()), r, final(self).consumed()),
        decreases old(self).rest@.len(), 0nat,
    {
        let ghost start = self.consumed();
        match self.peek_op(Fixity::Prefix) {
            Some(info) => {
                let op = match self.next() {
                    Some(p) => p,
                    None => return Err(BuildError::MissingOperand),
                };
                let ghost after_op = self.consumed();
                let operand = match self.parse(info.precedence) {
                    Ok(t) => t,
                    Err(e) => return Err(e),
                };
                proof {
                    lemma_items_first(self.all@, start, self.consumed());
                }
                return Ok(OpTree::Prefix { op: op.item, operand: Box::new(operand) });
            },
            None => {},
        }
        let atom = match self.next() {
            Some(p) => p,
            None => return Err(BuildError::MissingOperand),
        };
        match atom.info {
            Some(i) => if i.fixity != Fixity::Postfix {
                let t = trim(atom.text.as_str());
                proof {
                    assert(unary(self.all@, start) == (Err::<OpTree<P>, int>(start), start + 1));
                }
                return Err(BuildError::UnexpectedOperator(t));
            },
            None => {},
        }
        proof {
            lemma_items_last(self.all@, start, start);
            assert(items_of(self.all@, start, start) =~= Seq::<P>::empty());
            assert(Seq::<P>::empty().push(atom.item) =~= seq![atom.item]);
        }
        let mut node = OpTree::Atom(atom.item);
        while self.peek_op(Fixity::Postfix).is_some()
            invariant
                self.wf(),
                self.all == old(self).all,
                self.rest@.len() < old(self).rest@.len(),
                in_order(node) == self.items(start, self.consumed()),
                start == old(self).consumed(),
                0 <= start < self.consumed(),
                unary(self.all@, start) == postfixes(self.all@, node, self.consumed()),
            ensures
                unary(self.all@, start) == (Ok::<OpTree<P>, int>(node), self.consumed()),
            decreases self.rest@.len(),
        {
            let ghost mid = self.consumed();
            let op = match self.next() {
                Some(p) => p,
                None => break,
            };
            proof {
                assert(self.consumed() == mid + 1);
                assert(self.all@[mid] == op);
                lemma_items_last(self.all@, start, mid);
            }
            node = OpTree::Postfix { op: op.item, operand: Box::new(node) };
        }
        Ok(node)
    }
}

/// Folds a flat expression into a tree by precedence and associativity.
///
/// The tree keeps every part in its place: read left to right it is the
/// input, item for item. An expression that ends where an operand is due is
/// `MissingOperand`; an operator where an operand or infix operator belongs
/// is `UnexpectedOperator`.
pub fn build<P>(parts: Vec<Part<P>>) -> (r: Result<OpTree<P>, BuildError>)
    ensures
        match fold(parts@) {
            Ok(t) => r == Ok::<OpTree<P>, BuildError>(t),
            Err(k) => r matches Err(e) && fold_error(parts@, k, e),
        },
        r matches Ok(t) ==> in_order(t) == parts@.map_values(|p: Part<P>| p.item),
        parts@.len() == 0 ==> r matches Err(BuildError::MissingOperand),
{
    let ghost all = parts@;
    let mut parts = parts;
    let mut rest: Vec<Part<P>> = Vec::new();
    while parts.len() > 0
        invariant
            parts@.len() + rest@.len() == all.len(),
            forall|j: int| 0 <= j < parts@.len() ==> #[trigger] parts@[j] == all[j],
            forall|j: int| 0 <= j < rest@.len() ==> #[trigger] rest@[j] == all[all.len() - 1 - j],
        decreases parts@.len(),
    {
        let p = parts.pop().unwrap();
        rest.push(p);
    }
    let mut p = Parser { rest, all: Ghost(all) };
    let tree = match p.parse(0) {
        Ok(t) => t,
        Err(e) => return Err(e),
    };
    match p.peek() {
        None => {
            assert(p.items(0, all.len() as int) =~= all.map_values(|q: Part<P>| q.item));
            Ok(tree)
        },
        Some(part) => {
            let t = trim(part.text.as_str());
            Err(BuildError::UnexpectedOperator(t))
        },
    }
}

} // verus!
