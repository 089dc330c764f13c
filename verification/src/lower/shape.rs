//! What an alternative's body produces: how often each name is bound in it,
//! and how many parse-tree nodes it yields.

use vstd::prelude::*;
use crate::lower::resolve::{lookup, DefKind, Resolution};
use crate::lower::Cardinality;
use crate::syntax::ast::{Ast, Expr, ExprKind, RepeatKind};
use crate::text::{cat3, decimal_string, owned, str_eq};

verus! {

/// How often a name is bound, as `(at least, at most)`, capped: at least
/// 0 or 1, at most 0, 1, or 2 for "two or more".
pub type Occ = (nat, nat);

pub open spec fn occ_add(a: Occ, b: Occ) -> Occ {
    (if a.0 + b.0 >= 1 { 1nat } else { 0nat }, if a.1 + b.1 >= 2 { 2nat } else { (a.1 + b.1) as nat })
}

pub open spec fn occ_either(a: Occ, b: Occ) -> Occ {
    (if a.0 <= b.0 { a.0 } else { b.0 }, if a.1 >= b.1 { a.1 } else { b.1 })
}

pub open spec fn occ_repeat(kind: RepeatKind, o: Occ) -> Occ {
    match kind {
        RepeatKind::ZeroOrMore => (0, if o.1 == 0 { 0nat } else { 2nat }),
        RepeatKind::OneOrMore => (o.0, if o.1 == 0 { 0nat } else { 2nat }),
        RepeatKind::Optional => (0, o.1),
    }
}

pub open spec fn occ_self(bound: Seq<char>, name: Seq<char>) -> Occ {
    if bound == name { (1, 1) } else { (0, 0) }
}

/// How often `name` is bound in `e`: a sequence adds, a choice takes the
/// least and the most of its branches, a repetition widens, a lookahead
/// binds nothing. A binding wrapping a repetition binds once per
/// iteration.
pub open spec fn occ(e: Expr, name: Seq<char>) -> Occ
    decreases e,
{
    match e.kind {
        ExprKind::Sequence(parts) => occ_seq(parts@, name),
        ExprKind::Choice(parts) => occ_choice(parts@, name),
        ExprKind::Repeat { inner, kind } => occ_repeat(kind, occ(*inner, name)),
        ExprKind::Lookahead { .. } => (0, 0),
        ExprKind::Bind { name: bound, inner, .. } => match inner.kind {
            ExprKind::Repeat { inner: x, kind } => occ_repeat(
                kind,
                occ_add(occ_self(bound.value@, name), occ(*x, name)),
            ),
            _ => occ_add(occ_self(bound.value@, name), occ(*inner, name)),
        },
        _ => (0, 0),
    }
}

pub open spec fn occ_seq(parts: Seq<Expr>, name: Seq<char>) -> Occ
    decreases parts,
{
    if parts.len() == 0 {
        (0, 0)
    } else {
        occ_add(occ_seq(parts.drop_last(), name), occ(parts.last(), name))
    }
}

pub open spec fn occ_choice(parts: Seq<Expr>, name: Seq<char>) -> Occ
    decreases parts,
{
    if parts.len() == 0 {
        (0, 0)
    } else if parts.len() == 1 {
        occ(parts[0], name)
    } else {
        occ_either(occ_choice(parts.drop_last(), name), occ(parts.last(), name))
    }
}

/// The accessor shape for a name bound with these bounds: a list when it
/// can occur twice, optional when it can be absent, else exactly one.
pub open spec fn card_of(o: Occ) -> Cardinality {
    if o.1 >= 2 {
        Cardinality::Many
    } else if o.0 == 0 {
        Cardinality::Optional
    } else {
        Cardinality::One
    }
}

fn add_occ(a: (u8, u8), b: (u8, u8)) -> (r: (u8, u8))
    requires
        a.0 <= 1 && a.1 <= 2 && b.0 <= 1 && b.1 <= 2,
    ensures
        r.0 == occ_add((a.0 as nat, a.1 as nat), (b.0 as nat, b.1 as nat)).0,
        r.1 == occ_add((a.0 as nat, a.1 as nat), (b.0 as nat, b.1 as nat)).1,
        r.0 <= 1 && r.1 <= 2,
{
    (if a.0 + b.0 >= 1 { 1 } else { 0 }, if a.1 + b.1 >= 2 { 2 } else { a.1 + b.1 })
}

fn repeat(kind: RepeatKind, o: (u8, u8)) -> (r: (u8, u8))
    requires
        o.0 <= 1 && o.1 <= 2,
    ensures
        r.0 == occ_repeat(kind, (o.0 as nat, o.1 as nat)).0,
        r.1 == occ_repeat(kind, (o.0 as nat, o.1 as nat)).1,
        r.0 <= 1 && r.1 <= 2,
{
    match kind {
        RepeatKind::ZeroOrMore => (0, if o.1 == 0 { 0 } else { 2 }),
        RepeatKind::OneOrMore => (o.0, if o.1 == 0 { 0 } else { 2 }),
        RepeatKind::Optional => (0, o.1),
    }
}

/// How often `name` is bound in `e`.
pub fn occurrences(e: &Expr, name: &str) -> (r: (u8, u8))
    ensures
        r.0 == occ(*e, name@).0,
        r.1 == occ(*e, name@).1,
        r.0 <= 1 && r.1 <= 2,
    decreases e,
{
    match &e.kind {
        ExprKind::Sequence(parts) => {
            let mut acc: (u8, u8) = (0, 0);
            let mut i: usize = 0;
            proof { assert(decreases_to!(e => *parts)); }
            while i < parts.len()
                invariant
                    decreases_to!(e => *parts),
                    i <= parts@.len(),
                    acc.0 <= 1 && acc.1 <= 2,
                    acc.0 == occ_seq(parts@.take(i as int), name@).0,
                    acc.1 == occ_seq(parts@.take(i as int), name@).1,
                decreases parts@.len() - i,
            {
                proof { assert(decreases_to!(*parts => parts[i as int])); }
                let o = occurrences(&parts[i], name);
                acc = add_occ(acc, o);
                assert(parts@.take(i + 1).drop_last() == parts@.take(i as int));
                i = i + 1;
            }
            assert(parts@.take(parts@.len() as int) == parts@);
            acc
        },
        ExprKind::Choice(parts) => {
            if parts.len() == 0 {
                assert(occ(*e, name@) == occ_choice(parts@, name@));
                return (0, 0);
            }
            proof { assert(decreases_to!(e => *parts)); }
            proof { assert(decreases_to!(*parts => parts[0])); }
            let mut acc = occurrences(&parts[0], name);
            let mut i: usize = 1;
            assert(parts@.take(1) =~= seq![parts@[0]]);
            while i < parts.len()
                invariant
                    decreases_to!(e => *parts),
                    1 <= i <= parts@.len(),
                    acc.0 <= 1 && acc.1 <= 2,
                    acc.0 == occ_choice(parts@.take(i as int), name@).0,
                    acc.1 == occ_choice(parts@.take(i as int), name@).1,
                decreases parts@.len() - i,
            {
                proof { assert(decreases_to!(*parts => parts[i as int])); }
                let o = occurrences(&parts[i], name);
                acc = (if acc.0 <= o.0 { acc.0 } else { o.0 }, if acc.1 >= o.1 { acc.1 } else { o.1 });
                assert(parts@.take(i + 1).drop_last() == parts@.take(i as int));
                i = i + 1;
            }
            assert(parts@.take(parts@.len() as int) == parts@);
            acc
        },
        ExprKind::Repeat { inner, kind } => repeat(*kind, occurrences(inner, name)),
        ExprKind::Lookahead { .. } => (0, 0),
        ExprKind::Bind { name: bound, inner, .. } => {
            let me: (u8, u8) = if str_eq(bound.value.as_str(), name) { (1, 1) } else { (0, 0) };
            match &inner.kind {
                ExprKind::Repeat { inner: x, kind } => repeat(*kind, add_occ(me, occurrences(x, name))),
                _ => add_occ(me, occurrences(inner, name)),
            }
        },
        _ => (0, 0),
    }
}

/// The accessor shape for these bounds.
pub fn cardinality_of(o: (u8, u8)) -> (c: Cardinality)
    ensures
        c == card_of((o.0 as nat, o.1 as nat)),
{
    if o.1 >= 2 {
        Cardinality::Many
    } else if o.0 == 0 {
        Cardinality::Optional
    } else {
        Cardinality::One
    }
}

/// Every binding of `e` outside lookaheads, in source order (a binding
/// before those inside it).
pub open spec fn sites(e: Expr) -> Seq<Expr>
    decreases e,
{
    match e.kind {
        ExprKind::Bind { inner, .. } => seq![e] + sites(*inner),
        ExprKind::Sequence(parts) => sites_seq(parts@),
        ExprKind::Choice(parts) => sites_seq(parts@),
        ExprKind::Repeat { inner, .. } => sites(*inner),
        _ => Seq::empty(),
    }
}

pub open spec fn sites_seq(parts: Seq<Expr>) -> Seq<Expr>
    decreases parts,
{
    if parts.len() == 0 {
        Seq::empty()
    } else {
        sites_seq(parts.drop_last()) + sites(parts.last())
    }
}

pub open spec fn expr_refs(s: Seq<&Expr>) -> Seq<Expr> {
    s.map_values(|e: &Expr| *e)
}

/// Appends every binding of `e` outside lookaheads, in source order (a
/// binding before those inside it).
pub fn binding_sites<'a>(e: &'a Expr, out: &mut Vec<&'a Expr>)
    ensures
        expr_refs(final(out)@) == expr_refs(old(out)@) + sites(*e),
    decreases e,
{
    match &e.kind {
        ExprKind::Bind { inner, .. } => {
            let ghost o0 = expr_refs(out@);
            out.push(e);
            proof { assert(expr_refs(out@) =~= o0 + seq![*e]); }
            binding_sites(inner, out);
            proof { assert(expr_refs(out@) =~= o0 + sites(*e)); }
        },
        ExprKind::Sequence(parts) | ExprKind::Choice(parts) => {
            let ghost o0 = expr_refs(out@);
            let mut i: usize = 0;
            proof {
                assert(decreases_to!(e => *parts));
                assert(parts@.take(0) =~= Seq::<Expr>::empty());
                assert(expr_refs(out@) =~= o0 + sites_seq(parts@.take(0)));
            }
            while i < parts.len()
                invariant
                    decreases_to!(e => *parts),
                    i <= parts@.len(),
                    expr_refs(out@) == o0 + sites_seq(parts@.take(i as int)),
                decreases parts@.len() - i,
            {
                proof {
                    assert(decreases_to!(*parts => parts[i as int]));
                    assert(parts@.take(i + 1).drop_last() =~= parts@.take(i as int));
                    assert(parts@.take(i + 1).last() == parts@[i as int]);
                }
                binding_sites(&parts[i], out);
                proof { assert(expr_refs(out@) =~= o0 + sites_seq(parts@.take(i + 1))); }
                i = i + 1;
            }
            proof { assert(parts@.take(parts@.len() as int) =~= parts@); }
        },
        ExprKind::Repeat { inner, .. } => binding_sites(inner, out),
        _ => {
            proof { assert(expr_refs(out@) =~= expr_refs(old(out)@) + sites(*e)); }
        },
    }
}

// ---------------------------------------------------------------------------
// Node counts
// ---------------------------------------------------------------------------

/// How many parse-tree nodes an expression yields: at least `lo`, at most
/// `hi` (`None`: no bound), and, for a single node, what it may be (name,
/// whether a token). `unknown` when a silent rule reaches itself.
pub struct NodeCount {
    pub lo: u64,
    pub hi: Option<u64>,
    pub names: Vec<(String, bool)>,
    pub unknown: bool,
}

pub open spec fn zero_view() -> (u64, Option<u64>, Seq<(Seq<char>, bool)>, bool) {
    (0u64, Some(0u64), Seq::empty(), false)
}

pub open spec fn unknown_view() -> (u64, Option<u64>, Seq<(Seq<char>, bool)>, bool) {
    (0u64, None, Seq::empty(), true)
}

fn zero() -> (n: NodeCount)
    ensures
        count_view(n) == zero_view(),
{
    let n = NodeCount { lo: 0, hi: Some(0), names: Vec::new(), unknown: false };
    proof { assert(name_pairs(n.names@) =~= Seq::<(Seq<char>, bool)>::empty()); }
    n
}

/// A count as plain values: bounds, names with token-ness, and whether a
/// silent rule reached itself.
pub open spec fn count_view(n: NodeCount) -> (u64, Option<u64>, Seq<(Seq<char>, bool)>, bool) {
    (n.lo, n.hi, name_pairs(n.names@), n.unknown)
}

pub open spec fn name_pairs(v: Seq<(String, bool)>) -> Seq<(Seq<char>, bool)> {
    v.map_values(|p: (String, bool)| (p.0@, p.1))
}

/// Whether `v` names `n`.
pub open spec fn has_name(v: Seq<(Seq<char>, bool)>, n: Seq<char>) -> bool {
    exists|k: int| 0 <= k < v.len() && #[trigger] v[k].0 == n
}

/// `into` with each of `from` whose name it lacks appended, in order.
pub open spec fn merge_names(into: Seq<(Seq<char>, bool)>, from: Seq<(Seq<char>, bool)>) -> Seq<(Seq<char>, bool)>
    decreases from.len(),
{
    if from.len() == 0 {
        into
    } else {
        let m = merge_names(into, from.drop_last());
        if has_name(m, from.last().0) {
            m
        } else {
            m.push(from.last())
        }
    }
}

pub open spec fn sat_add(x: u64, y: u64) -> u64 {
    if x + y > u64::MAX {
        u64::MAX
    } else {
        (x + y) as u64
    }
}

fn one(name: &str, token: bool) -> (n: NodeCount)
    ensures
        count_view(n) == (1u64, Some(1u64), seq![(name@, token)], false),
{
    let mut names: Vec<(String, bool)> = Vec::new();
    names.push((owned(name), token));
    let n = NodeCount { lo: 1, hi: Some(1), names, unknown: false };
    proof { assert(name_pairs(n.names@) =~= seq![(name@, token)]); }
    n
}

fn unknown() -> (n: NodeCount)
    ensures
        count_view(n) == unknown_view(),
{
    let n = NodeCount { lo: 0, hi: None, names: Vec::new(), unknown: true };
    proof { assert(name_pairs(n.names@) =~= Seq::<(Seq<char>, bool)>::empty()); }
    n
}

fn add_names(into: &mut Vec<(String, bool)>, from: &Vec<(String, bool)>)
    ensures
        name_pairs(final(into)@) == merge_names(name_pairs(old(into)@), name_pairs(from@)),
{
    let ghost f = name_pairs(from@);
    let ghost i0 = name_pairs(into@);
    let mut i: usize = 0;
    proof { assert(f.take(0) =~= Seq::<(Seq<char>, bool)>::empty()); }
    while i < from.len()
        invariant
            i <= from@.len(),
            f == name_pairs(from@),
            name_pairs(into@) == merge_names(i0, f.take(i as int)),
        decreases from@.len() - i,
    {
        let mut present = false;
        let mut k: usize = 0;
        while k < into.len()
            invariant
                i < from@.len(),
                k <= into@.len(),
                present == exists|j: int| 0 <= j < k && #[trigger] into@[j].0@ == from@[i as int].0@,
            decreases into@.len() - k,
        {
            if str_eq(into[k].0.as_str(), from[i].0.as_str()) {
                present = true;
            }
            k = k + 1;
        }
        proof {
            assert(f.take(i + 1).drop_last() =~= f.take(i as int));
            assert(f.take(i + 1).last() == f[i as int]);
            let m = name_pairs(into@);
            if present {
                let j = choose|j: int| 0 <= j < into@.len() && #[trigger] into@[j].0@ == from@[i as int].0@;
                assert(m[j].0 == f[i as int].0);
            } else {
                assert forall|j: int| 0 <= j < m.len() implies #[trigger] m[j].0 != f[i as int].0 by {
                    assert(into@[j].0@ != from@[i as int].0@);
                }
            }
        }
        if !present {
            let ghost m0 = into@;
            into.push((owned(from[i].0.as_str()), from[i].1));
            proof { assert(name_pairs(into@) =~= name_pairs(m0).push(f[i as int])); }
        }
        i = i + 1;
    }
    proof { assert(f.take(f.len() as int) =~= f); }
}

/// Two counts in sequence: bounds add (saturating), names merge.
pub open spec fn sum_view(
    a: (u64, Option<u64>, Seq<(Seq<char>, bool)>, bool),
    b: (u64, Option<u64>, Seq<(Seq<char>, bool)>, bool),
) -> (u64, Option<u64>, Seq<(Seq<char>, bool)>, bool) {
    (sat_add(a.0, b.0), match (a.1, b.1) {
        (Some(x), Some(y)) => Some(sat_add(x, y)),
        _ => None,
    }, merge_names(a.2, b.2), a.3 || b.3)
}

/// Two counts as alternatives: the lesser low bound, the greater high one.
pub open spec fn either_view(
    a: (u64, Option<u64>, Seq<(Seq<char>, bool)>, bool),
    b: (u64, Option<u64>, Seq<(Seq<char>, bool)>, bool),
) -> (u64, Option<u64>, Seq<(Seq<char>, bool)>, bool) {
    (if a.0 <= b.0 {
        a.0
    } else {
        b.0
    }, match (a.1, b.1) {
        (Some(x), Some(y)) => Some(if x >= y {
            x
        } else {
            y
        }),
        _ => None,
    }, merge_names(a.2, b.2), a.3 || b.3)
}

fn sum(a: NodeCount, b: NodeCount) -> (n: NodeCount)
    ensures
        count_view(n) == sum_view(count_view(a), count_view(b)),
{
    let hi = match (a.hi, b.hi) {
        (Some(x), Some(y)) => Some(x.saturating_add(y)),
        _ => None,
    };
    let mut names = a.names;
    add_names(&mut names, &b.names);
    NodeCount { lo: a.lo.saturating_add(b.lo), hi, names, unknown: a.unknown || b.unknown }
}

fn either(a: NodeCount, b: NodeCount) -> (n: NodeCount)
    ensures
        count_view(n) == either_view(count_view(a), count_view(b)),
{
    let hi = match (a.hi, b.hi) {
        (Some(x), Some(y)) => Some(if x >= y { x } else { y }),
        _ => None,
    };
    let mut names = a.names;
    add_names(&mut names, &b.names);
    NodeCount { lo: if a.lo <= b.lo { a.lo } else { b.lo }, hi, names, unknown: a.unknown || b.unknown }
}

fn find_rule_def(ast: &Ast, name: &str) -> (r: Option<usize>)
    ensures
        r matches Some(i) ==> i < ast.rules@.len(),
        match r {
            Some(i) => ast.rules@[i as int].name.value@ == name@ && forall|j: int|
                0 <= j < i ==> #[trigger] ast.rules@[j].name.value@ != name@,
            None => forall|j: int| 0 <= j < ast.rules@.len() ==> #[trigger] ast.rules@[j].name.value@ != name@,
        },
{
    let mut i: usize = 0;
    while i < ast.rules.len()
        invariant
            i <= ast.rules@.len(),
            forall|j: int| 0 <= j < i ==> #[trigger] ast.rules@[j].name.value@ != name@,
        decreases ast.rules@.len() - i,
    {
        if str_eq(ast.rules[i].name.value.as_str(), name) {
            return Some(i);
        }
        i = i + 1;
    }
    None
}

fn visiting_has(visiting: &Vec<String>, name: &str) -> (b: bool)
    ensures
        b == exists|j: int| 0 <= j < visiting@.len() && #[trigger] visiting@[j]@ == name@,
{
    let mut i: usize = 0;
    while i < visiting.len()
        invariant
            i <= visiting@.len(),
            forall|j: int| 0 <= j < i ==> #[trigger] visiting@[j]@ != name@,
        decreases visiting@.len() - i,
    {
        if str_eq(visiting[i].as_str(), name) {
            return true;
        }
        i = i + 1;
    }
    false
}

/// The first rule named `n`, or -1.
pub open spec fn first_rule(ast: Ast, n: Seq<char>) -> int {
    if exists|i: int| 0 <= i < ast.rules@.len() && #[trigger] ast.rules@[i].name.value@ == n {
        choose|i: int|
            0 <= i < ast.rules@.len() && #[trigger] ast.rules@[i].name.value@ == n && forall|j: int|
                0 <= j < i ==> #[trigger] ast.rules@[j].name.value@ != n
    } else {
        -1
    }
}

pub open spec fn vstrs(v: Seq<String>) -> Seq<Seq<char>> {
    v.map_values(|s: String| s@)
}

pub open spec fn bodies(alts: Seq<crate::syntax::ast::Alternative>) -> Seq<Expr> {
    alts.map_values(|a: crate::syntax::ast::Alternative| a.body)
}

/// The nodes `e` yields, with `visiting` the silent rules being seen
/// through: tokens, non-silent rules and `expr` are one node each, a silent
/// rule counts as the choice of its alternatives, unknown when it reaches
/// itself.
pub open spec fn count_spec(ast: Ast, d: Seq<(String, DefKind)>, e: Expr, visiting: Seq<Seq<char>>) -> (
    u64,
    Option<u64>,
    Seq<(Seq<char>, bool)>,
    bool,
)
    decreases ast.rules@.len() - visiting.len(), e,
{
    match e.kind {
        ExprKind::Ref(name) => match lookup(d, name@) {
            Some(DefKind::Token) => (1u64, Some(1u64), seq![(name@, true)], false),
            Some(DefKind::Rule) => {
                let ri = first_rule(ast, name@);
                if ri < 0 {
                    zero_view()
                } else if !ast.rules@[ri].silent {
                    (1u64, Some(1u64), seq![(name@, false)], false)
                } else if visiting.contains(name@) || visiting.len() >= ast.rules@.len() {
                    unknown_view()
                } else {
                    match choice_count(ast, d, bodies(ast.rules@[ri].alternatives@), visiting.push(name@)) {
                        Some(c) => c,
                        None => zero_view(),
                    }
                }
            },
            Some(DefKind::Skip) => zero_view(),
            None => if name@ == "expr"@ {
                (1u64, Some(1u64), seq![(name@, false)], false)
            } else {
                zero_view()
            },
        },
        ExprKind::Sequence(parts) => seq_count(ast, d, parts@, visiting),
        ExprKind::Choice(parts) => match choice_count(ast, d, parts@, visiting) {
            Some(c) => c,
            None => zero_view(),
        },
        ExprKind::Repeat { inner, kind } => {
            let c = count_spec(ast, d, *inner, visiting);
            if c.1 == Some(0u64) && !c.3 {
                zero_view()
            } else {
                match kind {
                    RepeatKind::ZeroOrMore => (0u64, None, c.2, c.3),
                    RepeatKind::OneOrMore => (c.0, None, c.2, c.3),
                    RepeatKind::Optional => (0u64, c.1, c.2, c.3),
                }
            }
        },
        ExprKind::Bind { inner, .. } => count_spec(ast, d, *inner, visiting),
        _ => zero_view(),
    }
}

pub open spec fn seq_count(ast: Ast, d: Seq<(String, DefKind)>, parts: Seq<Expr>, visiting: Seq<Seq<char>>) -> (
    u64,
    Option<u64>,
    Seq<(Seq<char>, bool)>,
    bool,
)
    decreases ast.rules@.len() - visiting.len(), parts,
{
    if parts.len() == 0 {
        zero_view()
    } else {
        sum_view(seq_count(ast, d, parts.drop_last(), visiting), count_spec(ast, d, parts.last(), visiting))
    }
}

pub open spec fn choice_count(ast: Ast, d: Seq<(String, DefKind)>, parts: Seq<Expr>, visiting: Seq<Seq<char>>) -> Option<
    (u64, Option<u64>, Seq<(Seq<char>, bool)>, bool),
>
    decreases ast.rules@.len() - visiting.len(), parts,
{
    if parts.len() == 0 {
        None
    } else {
        let c = count_spec(ast, d, parts.last(), visiting);
        match choice_count(ast, d, parts.drop_last(), visiting) {
            None => Some(c),
            Some(prev) => Some(either_view(prev, c)),
        }
    }
}

/// Counts the nodes `e` yields. Tokens and non-silent rules (and `expr`)
/// are one node each; a silent rule is seen through; literals, ranges,
/// lookaheads and builtins are none.
fn count(ast: &Ast, res: &Resolution, e: &Expr, visiting: &mut Vec<String>) -> (n: NodeCount)
    ensures
        final(visiting)@ == old(visiting)@,
        count_view(n) == count_spec(*ast, res.defined@, *e, vstrs(old(visiting)@)),
    decreases ast.rules@.len() - old(visiting)@.len(), e,
{
    let ghost vis = vstrs(visiting@);
    let ghost d = res.defined@;
    match &e.kind {
        ExprKind::Ref(name) => {
            let n = name.as_str();
            proof { reveal_strlit("expr"); }
            match res.kind(n) {
                Some(DefKind::Token) => one(n, true),
                Some(DefKind::Rule) => match find_rule_def(ast, n) {
                    Some(ri) => {
                        proof {
                            let c = choose|i: int|
                                0 <= i < ast.rules@.len() && #[trigger] ast.rules@[i].name.value@ == n@ && forall|j: int|
                                    0 <= j < i ==> #[trigger] ast.rules@[j].name.value@ != n@;
                            assert(ast.rules@[ri as int].name.value@ == n@);
                            if c < ri {
                                assert(ast.rules@[c].name.value@ != n@);
                            } else if ri < c {
                                assert(ast.rules@[ri as int].name.value@ != n@);
                            }
                            assert(first_rule(*ast, n@) == ri);
                        }
                        let rule = &ast.rules[ri];
                        if !rule.silent {
                            return one(n, false);
                        }
                        let seen = visiting_has(visiting, n);
                        proof {
                            if seen {
                                let j = choose|j: int| 0 <= j < visiting@.len() && #[trigger] visiting@[j]@ == n@;
                                assert(vis[j] == n@);
                            } else {
                                assert forall|j: int| 0 <= j < vis.len() implies vis[j] != n@ by {
                                    assert(visiting@[j]@ != n@);
                                }
                            }
                        }
                        if seen || visiting.len() >= ast.rules.len() {
                            return unknown();
                        }
                        let ghost v0 = visiting@;
                        visiting.push(owned(n));
                        let ghost inner_vis = vstrs(visiting@);
                        let ghost bs = bodies(rule.alternatives@);
                        proof {
                            assert(inner_vis =~= vis.push(n@));
                            assert(bs.take(0) =~= Seq::<Expr>::empty());
                        }
                        let mut acc: Option<NodeCount> = None;
                        let mut a: usize = 0;
                        while a < rule.alternatives.len()
                            invariant
                                visiting@ == v0.push(visiting@.last()),
                                visiting@.len() == old(visiting)@.len() + 1,
                                old(visiting)@.len() < ast.rules@.len(),
                                v0 == old(visiting)@,
                                inner_vis == vstrs(visiting@),
                                a <= rule.alternatives@.len(),
                                bs == bodies(rule.alternatives@),
                                match acc {
                                    Some(c) => choice_count(*ast, d, bs.take(a as int), inner_vis) == Some(count_view(c)),
                                    None => choice_count(*ast, d, bs.take(a as int), inner_vis) is None,
                                },
                                d == res.defined@,
                            decreases rule.alternatives@.len() - a,
                        {
                            let c = count(ast, res, &rule.alternatives[a].body, visiting);
                            proof {
                                assert(bs.take(a + 1).drop_last() =~= bs.take(a as int));
                                assert(bs.take(a + 1).last() == rule.alternatives@[a as int].body);
                            }
                            acc = match acc {
                                None => Some(c),
                                Some(prev) => Some(either(prev, c)),
                            };
                            a = a + 1;
                        }
                        proof { assert(bs.take(bs.len() as int) =~= bs); }
                        visiting.pop();
                        proof { assert(visiting@ =~= v0); }
                        match acc {
                            Some(c) => c,
                            None => zero(),
                        }
                    },
                    None => {
                        proof {
                            if exists|i: int| 0 <= i < ast.rules@.len() && #[trigger] ast.rules@[i].name.value@ == n@ {
                                let i = choose|i: int| 0 <= i < ast.rules@.len() && #[trigger] ast.rules@[i].name.value@ == n@;
                                assert(ast.rules@[i].name.value@ != n@);
                            }
                        }
                        zero()
                    },
                },
                Some(DefKind::Skip) => zero(),
                None => if str_eq(n, "expr") {
                    one(n, false)
                } else {
                    zero()
                },
            }
        },
        ExprKind::Sequence(parts) => {
            let mut acc = zero();
            let mut i: usize = 0;
            proof {
                assert(decreases_to!(e => *parts));
                assert(parts@.take(0) =~= Seq::<Expr>::empty());
            }
            while i < parts.len()
                invariant
                    decreases_to!(e => *parts),
                    visiting@ == old(visiting)@,
                    vis == vstrs(old(visiting)@),
                    d == res.defined@,
                    i <= parts@.len(),
                    count_view(acc) == seq_count(*ast, d, parts@.take(i as int), vis),
                decreases parts@.len() - i,
            {
                proof {
                    assert(decreases_to!(*parts => parts[i as int]));
                    assert(parts@.take(i + 1).drop_last() =~= parts@.take(i as int));
                    assert(parts@.take(i + 1).last() == parts@[i as int]);
                }
                let c = count(ast, res, &parts[i], visiting);
                acc = sum(acc, c);
                i = i + 1;
            }
            proof { assert(parts@.take(parts@.len() as int) =~= parts@); }
            acc
        },
        ExprKind::Choice(parts) => {
            let mut acc: Option<NodeCount> = None;
            let mut i: usize = 0;
            proof {
                assert(decreases_to!(e => *parts));
                assert(parts@.take(0) =~= Seq::<Expr>::empty());
            }
            while i < parts.len()
                invariant
                    decreases_to!(e => *parts),
                    visiting@ == old(visiting)@,
                    vis == vstrs(old(visiting)@),
                    d == res.defined@,
                    i <= parts@.len(),
                    match acc {
                        Some(c) => choice_count(*ast, d, parts@.take(i as int), vis) == Some(count_view(c)),
                        None => choice_count(*ast, d, parts@.take(i as int), vis) is None,
                    },
                decreases parts@.len() - i,
            {
                proof {
                    assert(decreases_to!(*parts => parts[i as int]));
                    assert(parts@.take(i + 1).drop_last() =~= parts@.take(i as int));
                    assert(parts@.take(i + 1).last() == parts@[i as int]);
                }
                let c = count(ast, res, &parts[i], visiting);
                acc = match acc {
                    None => Some(c),
                    Some(prev) => Some(either(prev, c)),
                };
                i = i + 1;
            }
            proof { assert(parts@.take(parts@.len() as int) =~= parts@); }
            match acc {
                Some(c) => c,
                None => zero(),
            }
        },
        ExprKind::Repeat { inner, kind } => {
            let c = count(ast, res, inner, visiting);
            if c.hi == Some(0u64) && !c.unknown {
                return zero();
            }
            match kind {
                RepeatKind::ZeroOrMore => NodeCount { lo: 0, hi: None, names: c.names, unknown: c.unknown },
                RepeatKind::OneOrMore => NodeCount { lo: c.lo, hi: None, names: c.names, unknown: c.unknown },
                RepeatKind::Optional => NodeCount { lo: 0, hi: c.hi, names: c.names, unknown: c.unknown },
            }
        },
        ExprKind::Bind { inner, .. } => count(ast, res, inner, visiting),
        ExprKind::Lookahead { .. } | ExprKind::Literal { .. } | ExprKind::CharRange { .. } => zero(),
    }
}

/// Counts the nodes an alternative body yields.
pub fn count_nodes(ast: &Ast, res: &Resolution, e: &Expr) -> (n: NodeCount)
    ensures
        count_view(n) == count_spec(*ast, res.defined@, *e, Seq::empty()),
{
    let mut visiting: Vec<String> = Vec::new();
    proof { assert(vstrs(visiting@) =~= Seq::<Seq<char>>::empty()); }
    count(ast, res, e, &mut visiting)
}

/// Whether a transparent alternative yielding `c` is fine: it yields
/// exactly one node, always of the same rule, or its count is unknown.
pub open spec fn transparent_ok(c: (u64, Option<u64>, Seq<(Seq<char>, bool)>, bool)) -> bool {
    c.3 || (c.0 == 1 && c.1 == Some(1u64) && c.2.len() == 1 && !c.2[0].1)
}

/// What is wrong with a transparent alternative yielding `n`, said as what
/// it produces; `None` when it yields exactly one node of one rule, or when
/// the count is unknown.
pub fn transparency_problem(n: &NodeCount) -> (r: Option<String>)
    ensures
        n.unknown ==> r is None,
        !n.unknown && n.hi == Some(0u64) ==> (r matches Some(s) && s@ == "no node"@),
        (r is None) == transparent_ok(count_view(*n)),
{
    if n.unknown {
        return None;
    }
    match n.hi {
        Some(0) => return Some(owned("no node")),
        None => {
            let mut s = decimal_string(n.lo);
            s.append(" or more nodes");
            return Some(s);
        },
        Some(h) => {
            if n.lo != h {
                let mut s = owned("between ");
                s.append(decimal_string(n.lo).as_str());
                s.append(" and ");
                s.append(decimal_string(h).as_str());
                s.append(" nodes");
                return Some(s);
            }
            if h >= 2 {
                let mut s = decimal_string(h);
                s.append(" nodes");
                return Some(s);
            }
        },
    }
    // Exactly one node: fine when it is always the same rule.
    if n.names.len() == 1 {
        if n.names[0].1 {
            return Some(
                cat3("only the token `", n.names[0].0.as_str(), "`, and a token has no node of its own"),
            );
        }
        return None;
    }
    let mut s = owned("one node that may be any of ");
    let mut i: usize = 0;
    while i < n.names.len()
        decreases n.names@.len() - i,
    {
        if i > 0 {
            s.append(", ");
        }
        s.append("`");
        s.append(n.names[i].0.as_str());
        s.append("`");
        i = i + 1;
    }
    Some(s)
}

} // verus!
