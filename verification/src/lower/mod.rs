//! Lowers a `.nh` grammar to pest source.
//!
//! Bindings become node tags (`name:IDENT` emits `#name = IDENT`), reserved
//! words are guarded in both directions (keyword literals get an
//! identifier-boundary lookahead, and the identifier token rejects reserved
//! words), and operator alternations are sorted longest-first, so `<=` is
//! reachable and `a+++b` munches maximally. Only synthesised alternations are
//! sorted; a grammar's own ordered choices are emitted as written.

pub mod names;
pub mod pest_syntax;
pub mod resolve;
pub mod shape;

use vstd::prelude::*;
use crate::lower::resolve::{
    find_index, lemma_lookup_push, lemma_lookup_push_other, lemma_lookup_update,
    lemma_lookup_update_other, lookup, strs, DefKind, Resolution,
};
use crate::codegen::drift::{join, joined};
use crate::lower::shape::{card_of, occ, Occ};
use crate::operators::{has_error, sort_longest_first, Operator, OperatorTable};
use crate::syntax::ast::{Alternative, Ast, CaseMode, Expr, ExprKind, Fixity, RepeatKind, RuleDef};
use crate::syntax::error::{Diagnostic, Errors, Severity};
use crate::syntax::source::Span;
use crate::text::{cat2, cat3, owned, push_char, str_eq};

verus! {

/// The generated grammar plus the facts code generation needs about it.
pub struct Lowered {
    /// Complete pest source.
    pub pest: String,
    /// Labelled alternative → the pest rule that identifies it: the handler
    /// map.
    pub alternatives: Vec<LoweredAlternative>,
    /// Whether an `expr` rule was emitted.
    pub has_expr: bool,
    /// Rules with error recovery.
    pub recoveries: Vec<Recovery>,
    /// Literals promoted to their own rule so a parse error can name them:
    /// `(rule name, human description)`.
    pub expectations: Vec<(String, String)>,
    /// Non-fatal diagnostics produced while lowering.
    pub diagnostics: Vec<Diagnostic>,
    /// Every rule's node shape, in declaration order.
    pub rules: Vec<LoweredRule>,
    /// Rules that are pure alternations over labelled sub-rules: they carry
    /// no handler of their own.
    pub wrapper_rules: Vec<String>,
}

/// The shape of one rule, for generating an owned AST type.
#[derive(Debug)]
pub struct LoweredRule {
    /// The name as written in the grammar.
    pub name: String,
    /// The pest rule whose pair carries this node.
    pub pest_rule: String,
    pub shape: RuleShape,
    /// Whether the rule recovers, so the AST needs an error variant.
    pub recovers: bool,
}

#[derive(Debug)]
pub enum RuleShape {
    /// Exactly one labelled alternative: the rule is the alternative.
    Single { pest_rule: String },
    /// Several alternatives.
    Choice(Vec<LoweredVariant>),
    /// `rule atom = primary;`: no node of its own, it delegates to one child.
    Alias { child: Option<String> },
}

#[derive(Debug)]
pub enum LoweredVariant {
    /// A labelled alternative with a struct of its own.
    Labelled { label: String, pest_rule: String },
    /// `-> pass`, or unlabelled: whatever its single child evaluates to,
    /// named when that is one rule.
    Transparent { child: Option<String> },
}

#[derive(Debug)]
pub struct LoweredAlternative {
    pub rule: String,
    pub label: String,
    /// The generated pest rule name, e.g. `stmt_let`.
    pub pest_rule: String,
    /// The alternative as written in the grammar.
    pub source: String,
    /// Bindings in order of first occurrence, one per name: these become the
    /// view's named accessors.
    pub bindings: Vec<Binding>,
    pub place: bool,
}

/// A rule that recovers from a parse failure.
#[derive(Debug)]
pub struct Recovery {
    /// The grammar's rule name.
    pub rule: String,
    /// The generated rule that matches the skipped-over text.
    pub error_rule: String,
}

/// One `name:expr` binding, with everything a view accessor needs.
#[derive(Debug)]
pub struct Binding {
    pub name: String,
    pub cardinality: Cardinality,
    /// The token this binding resolves to, when it resolves to exactly one.
    pub token: Option<BoundToken>,
    /// `lazy`: the handler receives this unevaluated.
    pub lazy: bool,
    /// The rule this binding references, when it references exactly one.
    pub rule_ref: Option<String>,
}

#[derive(Debug)]
pub struct BoundToken {
    pub name: String,
    pub case_insensitive: bool,
}

/// How many times a binding can match, which decides the accessor's shape:
/// a node, an optional node, or a list.
#[derive(Clone, Copy, PartialEq, Eq, Structural, Debug)]
pub enum Cardinality {
    /// Exactly one. The grammar guarantees it is present.
    One,
    /// Zero or one.
    Optional,
    /// Any number.
    Many,
}

pub open spec fn combine_spec(outer: Cardinality, inner: Cardinality) -> Cardinality {
    if outer == Cardinality::Many || inner == Cardinality::Many {
        Cardinality::Many
    } else if outer == Cardinality::Optional || inner == Cardinality::Optional {
        Cardinality::Optional
    } else {
        Cardinality::One
    }
}

impl Cardinality {
    /// Combines an enclosing context with an inner one: `Many` dominates,
    /// then `Optional`.
    pub fn combine(self, inner: Cardinality) -> (c: Cardinality)
        ensures
            c == combine_spec(self, inner),
    {
        match (self, inner) {
            (Cardinality::Many, _) | (_, Cardinality::Many) => Cardinality::Many,
            (Cardinality::Optional, _) | (_, Cardinality::Optional) => Cardinality::Optional,
            _ => Cardinality::One,
        }
    }
}

/// Combining contexts is order-independent, `One` changes nothing, and
/// `Many` absorbs everything.
pub proof fn combine_laws(a: Cardinality, b: Cardinality, c: Cardinality)
    ensures
        combine_spec(a, b) == combine_spec(b, a),
        combine_spec(combine_spec(a, b), c) == combine_spec(a, combine_spec(b, c)),
        combine_spec(a, Cardinality::One) == a,
        combine_spec(a, Cardinality::Many) == Cardinality::Many,
{
}

// ---------------------------------------------------------------------------
// The lowering context
// ---------------------------------------------------------------------------

struct Ctx<'a> {
    ast: &'a Ast,
    table: &'a OperatorTable,
    res: &'a Resolution,
    fold_keywords: bool,
    /// token → reserved literals (declared plus word operators): guarded
    /// and rejected by the identifier token.
    reserved_words: Vec<(String, Vec<String>)>,
    /// token → guarded literals: boundary-guarded only, still identifiers.
    guarded_words: Vec<(String, Vec<String>)>,
    /// literal → generated guarded-keyword or operator rule name.
    keyword_rules: Vec<(String, String)>,
    /// Tokens whose `nh_cont_*` rule has been emitted.
    emitted_continuations: Vec<String>,
    emitted_expr: bool,
    wrapper_rules: Vec<String>,
    rule_shapes: Vec<LoweredRule>,
    recoveries: Vec<Recovery>,
    expectations: Vec<(String, String)>,
    /// `(target, literal, rule)`: keyed by target as well as literal, since
    /// `expect ")" in call` and `expect ")" in group` differ.
    expect_rules: Vec<(String, String, String)>,
    current_rule: Option<String>,
    current_label: Option<String>,
    generated: Vec<String>,
    alloc: names::Allocator,
    collected_alternatives: Vec<LoweredAlternative>,
    diagnostics: Vec<Diagnostic>,
}

/// Whether every collected alternative came from a labelled alternative of
/// `ast`, with one binding per name whose cardinality covers every
/// occurrence of that name in the alternative's body.
pub open spec fn alternatives_faithful(ast: Ast, alts: Seq<LoweredAlternative>) -> bool {
    forall|k: int| 0 <= k < alts.len() ==> #[trigger] alternative_faithful(ast, alts[k])
}

/// Whether `a` comes from alternative `i` of rule `r` of `ast`.
pub open spec fn from_alternative(ast: Ast, a: LoweredAlternative, r: int, i: int) -> bool {
    &&& 0 <= r < ast.rules@.len()
    &&& 0 <= i < ast.rules@[r].alternatives@.len()
    &&& a.rule@ == ast.rules@[r].name.value@
    &&& bindings_faithful(ast.rules@[r].alternatives@[i].body, a.bindings@)
}

pub open spec fn alternative_faithful(ast: Ast, a: LoweredAlternative) -> bool {
    exists|r: int, i: int| #[trigger] from_alternative(ast, a, r, i)
}

/// Whether alternative `i` of rule `r` has a lowered alternative in `alts`,
/// under its label.
pub open spec fn lowered_in(ast: Ast, alts: Seq<LoweredAlternative>, r: int, i: int) -> bool {
    exists|k: int|
        0 <= k < alts.len() && #[trigger] from_alternative(ast, alts[k], r, i) && alts[k].label@ == label_text(
            ast.rules@[r].alternatives@[i],
        )
}

/// Whether every labelled alternative (other than `pass`) of the first `nr`
/// rules is lowered in `alts`.
pub open spec fn labelled_lowered(ast: Ast, alts: Seq<LoweredAlternative>, nr: int) -> bool {
    forall|r: int, i: int|
        0 <= r < nr && r < ast.rules@.len() && 0 <= i < ast.rules@[r].alternatives@.len() && has_subrule(
            ast.rules@[r].alternatives@[i],
        ) ==> #[trigger] lowered_in(ast, alts, r, i)
}

proof fn lemma_lowered_prefix(ast: Ast, a: Seq<LoweredAlternative>, b: Seq<LoweredAlternative>, r: int, i: int)
    requires
        lowered_in(ast, a, r, i),
        b.len() >= a.len(),
        b.take(a.len() as int) == a,
    ensures
        lowered_in(ast, b, r, i),
{
    let k = choose|k: int|
        0 <= k < a.len() && #[trigger] from_alternative(ast, a[k], r, i) && a[k].label@ == label_text(
            ast.rules@[r].alternatives@[i],
        );
    assert(b.take(a.len() as int)[k] == b[k]);
    assert(from_alternative(ast, b[k], r, i));
}

/// What lowering a piece leaves alone.
spec fn same_frame(a: Ctx, b: Ctx) -> bool {
    &&& a.ast == b.ast
    &&& a.res == b.res
    &&& a.table == b.table
    &&& a.collected_alternatives == b.collected_alternatives
}

/// One binding per name, each with the cardinality of all its occurrences.
pub open spec fn bindings_faithful(body: Expr, bs: Seq<Binding>) -> bool {
    &&& forall|a: int, b: int| 0 <= a < b < bs.len() ==> #[trigger] bs[a].name@ != #[trigger] bs[b].name@
    &&& forall|a: int| 0 <= a < bs.len() ==> #[trigger] bs[a].cardinality == card_of(occ(body, bs[a].name@))
}

/// Whether `s` is among `v`.
fn contains_str(v: &Vec<String>, s: &str) -> (b: bool)
    ensures
        b == strs(v@).contains(s@),
{
    let mut i: usize = 0;
    while i < v.len()
        invariant
            i <= v@.len(),
            forall|j: int| 0 <= j < i ==> #[trigger] v@[j]@ != s@,
        decreases v@.len() - i,
    {
        if str_eq(v[i].as_str(), s) {
            assert(strs(v@)[i as int] == s@);
            return true;
        }
        i = i + 1;
    }
    proof {
        if strs(v@).contains(s@) {
            let j = choose|j: int| 0 <= j < strs(v@).len() && strs(v@)[j] == s@;
            assert(v@[j]@ == s@);
        }
    }
    false
}

pub open spec fn opt_strs(o: Option<Vec<String>>) -> Option<Seq<Seq<char>>> {
    match o {
        Some(v) => Some(strs(v@)),
        None => None,
    }
}

/// The `(token, words)` of each `reserved from` declaration.
pub open spec fn reserved_pairs(ast: Ast) -> Seq<(Seq<char>, Seq<Seq<char>>)> {
    ast.reserved@.map_values(|r: crate::syntax::ast::ReservedDef| (r.token.value@, word_values(r.words@)))
}

/// The `(token, words)` of each `guard from` declaration.
pub open spec fn guard_pairs(ast: Ast) -> Seq<(Seq<char>, Seq<Seq<char>>)> {
    ast.guards@.map_values(|g: crate::syntax::ast::GuardDef| (g.token.value@, word_values(g.words@)))
}

/// Every word declared for `t`, in order.
pub open spec fn words_for(items: Seq<(Seq<char>, Seq<Seq<char>>)>, t: Seq<char>) -> Seq<Seq<char>>
    decreases items.len(),
{
    if items.len() == 0 {
        Seq::empty()
    } else if items.last().0 == t {
        words_for(items.drop_last(), t) + items.last().1
    } else {
        words_for(items.drop_last(), t)
    }
}

/// The words declared for `t`, when some declaration names it.
pub open spec fn declared_for(items: Seq<(Seq<char>, Seq<Seq<char>>)>, t: Seq<char>) -> Option<Seq<Seq<char>>> {
    if exists|i: int| 0 <= i < items.len() && #[trigger] items[i].0 == t {
        Some(words_for(items, t))
    } else {
        None
    }
}

/// The spellings of the word operators among `ops`, in order.
pub open spec fn word_spellings(ops: Seq<Operator>) -> Seq<Seq<char>>
    decreases ops.len(),
{
    if ops.len() == 0 {
        Seq::empty()
    } else if ops.last().word {
        word_spellings(ops.drop_last()).push(ops.last().literal@)
    } else {
        word_spellings(ops.drop_last())
    }
}

pub open spec fn spellings_of(ops: Seq<&Operator>) -> Seq<Seq<char>> {
    ops.map_values(|o: &Operator| o.literal@)
}

/// `list` with each of `ws` that it lacks appended, in order.
pub open spec fn add_missing(list: Seq<Seq<char>>, ws: Seq<Seq<char>>) -> Seq<Seq<char>>
    decreases ws.len(),
{
    if ws.len() == 0 {
        list
    } else {
        let a = add_missing(list, ws.drop_last());
        if a.contains(ws.last()) {
            a
        } else {
            a.push(ws.last())
        }
    }
}

/// The token word operators are reserved from: the first `reserved from`
/// token, else the first `guard from` token.
pub open spec fn identifier_token(ast: Ast) -> Option<Seq<char>> {
    if ast.reserved@.len() > 0 {
        Some(ast.reserved@[0].token.value@)
    } else if ast.guards@.len() > 0 {
        Some(ast.guards@[0].token.value@)
    } else {
        None
    }
}

/// The words reserved from `t`: those declared, and for the identifier
/// token the word operators `ws` it does not already hold.
pub open spec fn reserved_for(ast: Ast, ws: Seq<Seq<char>>, t: Seq<char>) -> Option<Seq<Seq<char>>> {
    if ws.len() > 0 && identifier_token(ast) == Some(t) {
        Some(add_missing(words_for(reserved_pairs(ast), t), ws))
    } else {
        declared_for(reserved_pairs(ast), t)
    }
}

proof fn lemma_declared_words(items: Seq<(Seq<char>, Seq<Seq<char>>)>, t: Seq<char>)
    ensures
        !(exists|i: int| 0 <= i < items.len() && #[trigger] items[i].0 == t) ==> words_for(items, t) == Seq::<Seq<char>>::empty(),
    decreases items.len(),
{
    if items.len() > 0 {
        lemma_declared_words(items.drop_last(), t);
        if !(exists|i: int| 0 <= i < items.len() && #[trigger] items[i].0 == t) {
            assert(items.last().0 != t);
            assert(!(exists|i: int| 0 <= i < items.drop_last().len() && #[trigger] items.drop_last()[i].0 == t)) by {
                if exists|i: int| 0 <= i < items.drop_last().len() && #[trigger] items.drop_last()[i].0 == t {
                    let i = choose|i: int| 0 <= i < items.drop_last().len() && #[trigger] items.drop_last()[i].0 == t;
                    assert(items[i].0 == t);
                }
            }
        }
    }
}

/// One more declaration extends the words of its token and no other.
proof fn lemma_declared_step(
    items: Seq<(Seq<char>, Seq<Seq<char>>)>,
    i: int,
    before: Seq<(String, Vec<String>)>,
    after: Seq<(String, Vec<String>)>,
)
    requires
        0 <= i < items.len(),
        forall|t: Seq<char>| #[trigger] opt_strs(lookup(before, t)) == declared_for(items.take(i), t),
        lookup(after, items[i].0) matches Some(l) && strs(l@) == match lookup(before, items[i].0) {
            Some(o) => strs(o@),
            None => Seq::empty(),
        } + items[i].1,
        forall|k: Seq<char>| k != items[i].0 ==> #[trigger] lookup(after, k) == lookup(before, k),
    ensures
        forall|t: Seq<char>| #[trigger] opt_strs(lookup(after, t)) == declared_for(items.take(i + 1), t),
{
    let p = items.take(i);
    let q = items.take(i + 1);
    assert(q.drop_last() =~= p);
    assert(q.last() == items[i]);
    assert forall|t: Seq<char>| #[trigger] opt_strs(lookup(after, t)) == declared_for(q, t) by {
        lemma_declared_words(p, t);
        if t == items[i].0 {
            assert(q[i].0 == t);
            assert(opt_strs(lookup(before, t)) == declared_for(p, t));
        } else {
            assert(lookup(after, t) == lookup(before, t));
            assert(opt_strs(lookup(before, t)) == declared_for(p, t));
            if exists|j: int| 0 <= j < q.len() && #[trigger] q[j].0 == t {
                let j = choose|j: int| 0 <= j < q.len() && #[trigger] q[j].0 == t;
                assert(p[j].0 == t);
            }
            if exists|j: int| 0 <= j < p.len() && #[trigger] p[j].0 == t {
                let j = choose|j: int| 0 <= j < p.len() && #[trigger] p[j].0 == t;
                assert(q[j].0 == t);
            }
        }
    }
}

/// The words of a declaration, as plain values.
pub open spec fn word_values(words: Seq<crate::syntax::source::Spanned<String>>) -> Seq<Seq<char>> {
    words.map_values(|w: crate::syntax::source::Spanned<String>| w.value@)
}

/// Appends `words` to the list for `key`, creating it when absent.
fn extend_words(entries: &mut Vec<(String, Vec<String>)>, key: &str, words: &Vec<crate::syntax::source::Spanned<String>>)
    ensures
        lookup(final(entries)@, key@) matches Some(l) && strs(l@) == match lookup(old(entries)@, key@) {
            Some(o) => strs(o@),
            None => Seq::empty(),
        } + word_values(words@),
        forall|k: Seq<char>| k != key@ ==> #[trigger] lookup(final(entries)@, k) == lookup(old(entries)@, k),
{
    let ghost before = entries@;
    let found = find_index(entries, key);
    let mut list: Vec<String> = Vec::new();
    let ghost base: Seq<Seq<char>> = match lookup(before, key@) {
        Some(o) => strs(o@),
        None => Seq::empty(),
    };
    match found {
        Some(i) => {
            let mut k: usize = 0;
            while k < entries[i].1.len()
                invariant
                    entries@ == before,
                    i < before.len(),
                    lookup(before, key@) == Some(before[i as int].1),
                    base == strs(before[i as int].1@),
                    k <= before[i as int].1@.len(),
                    strs(list@) == base.take(k as int),
                decreases before[i as int].1@.len() - k,
            {
                let ghost l0 = list@;
                let x = owned(entries[i].1[k].as_str());
                list.push(x);
                proof {
                    assert(strs(list@) =~= strs(l0).push(x@));
                    assert(base[k as int] == x@);
                    assert(base.take(k + 1) =~= base.take(k as int).push(base[k as int]));
                }
                k = k + 1;
            }
            proof { assert(base.take(base.len() as int) =~= base); }
        },
        None => {
            proof { assert(strs(list@) =~= base); }
        },
    }
    let ghost mid = strs(list@);
    let mut k: usize = 0;
    while k < words.len()
        invariant
            k <= words@.len(),
            strs(list@) == mid + word_values(words@).take(k as int),
        decreases words@.len() - k,
    {
        let ghost l0 = list@;
        let x = owned(words[k].value.as_str());
        list.push(x);
        proof {
            assert(strs(list@) =~= strs(l0).push(x@));
            assert(word_values(words@)[k as int] == x@);
            assert(word_values(words@).take(k + 1) =~= word_values(words@).take(k as int).push(x@));
            assert(mid + word_values(words@).take(k + 1) =~= (mid + word_values(words@).take(k as int)).push(x@));
        }
        k = k + 1;
    }
    proof { assert(word_values(words@).take(words@.len() as int) =~= word_values(words@)); }
    let e = (owned(key), list);
    match found {
        Some(i) => {
            proof {
                lemma_lookup_update(before, i as int, key@, e.1);
                assert forall|k: Seq<char>| k != key@ implies #[trigger] lookup(before.update(i as int, e), k) == lookup(before, k) by {
                    lemma_lookup_update_other(before, i as int, e, k);
                }
            }
            entries.set(i, e);
        },
        None => {
            proof {
                lemma_lookup_push(before, key@, e.1);
                assert forall|k: Seq<char>| k != key@ implies #[trigger] lookup(before.push(e), k) == lookup(before, k) by {
                    lemma_lookup_push_other(before, e, k);
                }
            }
            entries.push(e);
        },
    }
}

/// The pest mark of a repetition: `*` for zero or more, `+` for one or more,
/// `?` for an optional term.
pub open spec fn repeat_mark(kind: RepeatKind) -> char {
    match kind {
        RepeatKind::ZeroOrMore => '*',
        RepeatKind::OneOrMore => '+',
        RepeatKind::Optional => '?',
    }
}

fn repeat_suffix(kind: RepeatKind) -> (r: &'static str)
    ensures
        r@ == crate::syntax::render::suffix_text(kind),
{
    match kind {
        RepeatKind::ZeroOrMore => "*",
        RepeatKind::OneOrMore => "+",
        RepeatKind::Optional => "?",
    }
}

/// Whether `e` mentions `expr` anywhere.
/// Whether `e` refers to `expr` anywhere.
pub open spec fn mentions(e: Expr) -> bool
    decreases e,
{
    match e.kind {
        ExprKind::Ref(name) => name@ == "expr"@,
        ExprKind::Sequence(parts) => mentions_seq(parts@),
        ExprKind::Choice(parts) => mentions_seq(parts@),
        ExprKind::Repeat { inner, .. } => mentions(*inner),
        ExprKind::Lookahead { inner, .. } => mentions(*inner),
        ExprKind::Bind { inner, .. } => mentions(*inner),
        _ => false,
    }
}

pub open spec fn mentions_seq(parts: Seq<Expr>) -> bool
    decreases parts,
{
    if parts.len() == 0 {
        false
    } else {
        mentions_seq(parts.drop_last()) || mentions(parts.last())
    }
}

fn mentions_expr(e: &Expr) -> (b: bool)
    ensures
        b == mentions(*e),
    decreases e,
{
    match &e.kind {
        ExprKind::Ref(name) => {
            proof { reveal_strlit("expr"); }
            str_eq(name.as_str(), "expr")
        },
        ExprKind::Sequence(parts) | ExprKind::Choice(parts) => {
            let mut i: usize = 0;
            proof {
                assert(decreases_to!(e => *parts));
                assert(parts@.take(0) =~= Seq::<Expr>::empty());
                assert(mentions(*e) == mentions_seq(parts@));
            }
            while i < parts.len()
                invariant
                    decreases_to!(e => *parts),
                    i <= parts@.len(),
                    !mentions_seq(parts@.take(i as int)),
                    mentions(*e) == mentions_seq(parts@),
                decreases parts@.len() - i,
            {
                proof {
                    assert(decreases_to!(*parts => parts[i as int]));
                    assert(parts@.take(i + 1).drop_last() =~= parts@.take(i as int));
                    assert(parts@.take(i + 1).last() == parts@[i as int]);
                }
                if mentions_expr(&parts[i]) {
                    proof {
                        lemma_mentions_prefix(parts@, i + 1);
                        assert(mentions(*e) == mentions_seq(parts@));
                    }
                    return true;
                }
                i = i + 1;
            }
            proof {
                assert(parts@.take(parts@.len() as int) =~= parts@);
                assert(mentions(*e) == mentions_seq(parts@));
            }
            false
        },
        ExprKind::Repeat { inner, .. } | ExprKind::Lookahead { inner, .. } | ExprKind::Bind { inner, .. } => mentions_expr(inner),
        ExprKind::Literal { .. } | ExprKind::CharRange { .. } => false,
    }
}

proof fn lemma_mentions_prefix(parts: Seq<Expr>, n: int)
    requires
        0 <= n <= parts.len(),
        mentions_seq(parts.take(n)),
    ensures
        mentions_seq(parts),
    decreases parts.len() - n,
{
    if n < parts.len() {
        assert(parts.take(n + 1).drop_last() =~= parts.take(n));
        lemma_mentions_prefix(parts, n + 1);
    } else {
        assert(parts.take(n) =~= parts);
    }
}

/// The rule a binding wraps, when it wraps exactly one (through `?`, `*`,
/// `+`). `expr` counts, since it is dispatched like one.
pub open spec fn bound_rule_spec(e: Expr, d: Seq<(String, DefKind)>) -> Option<Seq<char>>
    decreases e,
{
    match e.kind {
        ExprKind::Ref(name) => match lookup(d, name@) {
            Some(DefKind::Rule) => Some(name@),
            None => if name@ == "expr"@ {
                Some(name@)
            } else {
                None
            },
            _ => None,
        },
        ExprKind::Repeat { inner, .. } => bound_rule_spec(*inner, d),
        _ => None,
    }
}

/// The token a binding wraps, when it wraps exactly one, with whether it is
/// declared `case-insensitive`.
pub open spec fn bound_token_spec(e: Expr, res: Resolution) -> Option<(Seq<char>, bool)>
    decreases e,
{
    match e.kind {
        ExprKind::Ref(name) => match lookup(res.defined@, name@) {
            Some(DefKind::Token) => Some(
                (
                    name@,
                    exists|i: int|
                        0 <= i < res.case_insensitive_tokens@.len() && #[trigger] res.case_insensitive_tokens@[i]@
                            == name@,
                ),
            ),
            _ => None,
        },
        ExprKind::Repeat { inner, .. } => bound_token_spec(*inner, res),
        _ => None,
    }
}

pub open spec fn token_view(t: Option<BoundToken>) -> Option<(Seq<char>, bool)> {
    match t {
        Some(b) => Some((b.name@, b.case_insensitive)),
        None => None,
    }
}

pub open spec fn opt_string(o: Option<String>) -> Option<Seq<char>> {
    match o {
        Some(s) => Some(s@),
        None => None,
    }
}

fn bound_rule(e: &Expr, res: &Resolution) -> (r: Option<String>)
    ensures
        opt_string(r) == bound_rule_spec(*e, res.defined@),
    decreases e,
{
    proof { reveal_strlit("expr"); }
    match &e.kind {
        ExprKind::Ref(name) => match res.kind(name.as_str()) {
            Some(DefKind::Rule) => Some(owned(name.as_str())),
            None => if str_eq(name.as_str(), "expr") {
                Some(owned(name.as_str()))
            } else {
                None
            },
            _ => None,
        },
        ExprKind::Repeat { inner, .. } => bound_rule(inner, res),
        _ => None,
    }
}

/// The token a binding wraps, when it wraps exactly one.
fn bound_token(e: &Expr, res: &Resolution) -> (r: Option<BoundToken>)
    ensures
        token_view(r) == bound_token_spec(*e, *res),
    decreases e,
{
    match &e.kind {
        ExprKind::Ref(name) => match res.kind(name.as_str()) {
            Some(DefKind::Token) => Some(
                BoundToken {
                    name: owned(name.as_str()),
                    case_insensitive: res.is_case_insensitive(name.as_str()),
                },
            ),
            _ => None,
        },
        ExprKind::Repeat { inner, .. } => bound_token(inner, res),
        _ => None,
    }
}

/// A binding as plain values: name, cardinality, token, rule and laziness.
pub open spec fn binding_view(b: Binding) -> (Seq<char>, Cardinality, Option<(Seq<char>, bool)>, Option<Seq<char>>, bool) {
    (b.name@, b.cardinality, token_view(b.token), opt_string(b.rule_ref), b.lazy)
}

/// The bindings the binding sites `sites` of `body` give: one per name, at
/// its first site, with the cardinality of all its occurrences.
pub open spec fn bindings_from(sites: Seq<Expr>, body: Expr, res: Resolution) -> Seq<
    (Seq<char>, Cardinality, Option<(Seq<char>, bool)>, Option<Seq<char>>, bool),
>
    decreases sites.len(),
{
    if sites.len() == 0 {
        Seq::empty()
    } else {
        let prev = bindings_from(sites.drop_last(), body, res);
        match sites.last().kind {
            ExprKind::Bind { name, inner, lazy } => if exists|k: int|
                0 <= k < prev.len() && #[trigger] prev[k].0 == name.value@ {
                prev
            } else {
                prev.push(
                    (
                        name.value@,
                        card_of(occ(body, name.value@)),
                        bound_token_spec(*inner, res),
                        bound_rule_spec(*inner, res.defined@),
                        lazy,
                    ),
                )
            },
            _ => prev,
        }
    }
}

/// Collects the bindings of an alternative body: one per name, in order of
/// first occurrence, each with the cardinality of all its occurrences.
fn collect_bindings(body: &Expr, res: &Resolution) -> (bs: Vec<Binding>)
    ensures
        bindings_faithful(*body, bs@),
        bs@.map_values(|b: Binding| binding_view(b)) == bindings_from(shape::sites(*body), *body, *res),
{
    let mut firsts: Vec<&Expr> = Vec::new();
    shape::binding_sites(body, &mut firsts);
    let ghost st = shape::sites(*body);
    proof {
        assert(shape::expr_refs(firsts@) =~= st);
        assert(st.take(0) =~= Seq::<Expr>::empty());
    }
    let mut out: Vec<Binding> = Vec::new();
    let mut i: usize = 0;
    while i < firsts.len()
        invariant
            bindings_faithful(*body, out@),
            i <= firsts@.len(),
            shape::expr_refs(firsts@) == st,
            out@.map_values(|b: Binding| binding_view(b)) == bindings_from(st.take(i as int), *body, *res),
        decreases firsts@.len() - i,
    {
        proof {
            assert(st.take(i + 1).drop_last() =~= st.take(i as int));
            assert(st.take(i + 1).last() == *firsts@[i as int]);
        }
        let ghost ov = out@.map_values(|b: Binding| binding_view(b));
        match &firsts[i].kind {
            ExprKind::Bind { name, inner, lazy } => {
                let mut seen = false;
                let mut k: usize = 0;
                while k < out.len()
                    invariant
                        k <= out@.len(),
                        !seen ==> forall|m: int| 0 <= m < k ==> #[trigger] out@[m].name@ != name.value@,
                        seen ==> exists|m: int| 0 <= m < k && #[trigger] out@[m].name@ == name.value@,
                    decreases out@.len() - k,
                {
                    if str_eq(out[k].name.as_str(), name.value.as_str()) {
                        seen = true;
                    }
                    k = k + 1;
                }
                proof {
                    if seen {
                        let m = choose|m: int| 0 <= m < out@.len() && #[trigger] out@[m].name@ == name.value@;
                        assert(ov[m].0 == name.value@);
                    } else {
                        assert forall|m: int| 0 <= m < ov.len() implies #[trigger] ov[m].0 != name.value@ by {
                            assert(out@[m].name@ != name.value@);
                        }
                    }
                }
                if !seen {
                    let o = shape::occurrences(body, name.value.as_str());
                    let cardinality = shape::cardinality_of(o);
                    let b = Binding {
                        name: owned(name.value.as_str()),
                        cardinality,
                        token: bound_token(inner, res),
                        rule_ref: bound_rule(inner, res),
                        lazy: *lazy,
                    };
                    let ghost o0 = out@;
                    out.push(b);
                    proof {
                        assert(out@.map_values(|b: Binding| binding_view(b)) =~= o0.map_values(|b: Binding| binding_view(b)).push(binding_view(b)));
                    }
                }
            },
            _ => {},
        }
        i = i + 1;
    }
    proof { assert(st.take(i as int) =~= st); }
    out
}

/// Every rule reference in `e` (and `expr`), skipping tokens, literals and
/// lookaheads, which carry no node the AST would name.
pub open spec fn rules_in(e: Expr, d: Seq<(String, DefKind)>) -> Seq<Seq<char>>
    decreases e,
{
    match e.kind {
        ExprKind::Ref(name) => match lookup(d, name@) {
            Some(DefKind::Rule) => seq![name@],
            None => if name@ == "expr"@ {
                seq![name@]
            } else {
                Seq::empty()
            },
            _ => Seq::empty(),
        },
        ExprKind::Sequence(parts) => rules_in_seq(parts@, d),
        ExprKind::Choice(parts) => rules_in_seq(parts@, d),
        ExprKind::Repeat { inner, .. } => rules_in(*inner, d),
        ExprKind::Bind { inner, .. } => rules_in(*inner, d),
        _ => Seq::empty(),
    }
}

pub open spec fn rules_in_seq(parts: Seq<Expr>, d: Seq<(String, DefKind)>) -> Seq<Seq<char>>
    decreases parts,
{
    if parts.len() == 0 {
        Seq::empty()
    } else {
        rules_in_seq(parts.drop_last(), d) + rules_in(parts.last(), d)
    }
}

/// Whether some alternative of the grammar refers to `expr`.
pub open spec fn grammar_mentions_expr(ast: Ast) -> bool {
    exists|i: int, a: int|
        0 <= i < ast.rules@.len() && 0 <= a < ast.rules@[i].alternatives@.len() && mentions(
            #[trigger] ast.rules@[i].alternatives@[a].body,
        )
}

/// Whether alternative `alt` carries the label `l`.
pub open spec fn labelled(alt: Alternative, l: Seq<char>) -> bool {
    alt.label matches Some(x) && x.value@ == l
}

/// Whether an `expect` target names a rule, or `rule.label` a labelled
/// alternative of the first rule of that name.
pub open spec fn expect_target_ok(ast: Ast, t: Seq<Seq<char>>) -> bool {
    &&& t.len() == 1 || t.len() == 2
    &&& shape::first_rule(ast, t[0]) >= 0
    &&& t.len() == 2 ==> exists|i: int|
        0 <= i < ast.rules@[shape::first_rule(ast, t[0])].alternatives@.len() && labelled(
            #[trigger] ast.rules@[shape::first_rule(ast, t[0])].alternatives@[i],
            t[1],
        )
}

/// Whether an expectation rule is the one for `literal` at `target`.
pub open spec fn expect_keyed(e: (String, String, String), target: Seq<char>, literal: Seq<char>) -> bool {
    e.0@ == target && e.1@ == literal
}

/// The name emitted for a reference to `name`.
pub open spec fn pest_name_spec(res: Resolution, name: Seq<char>) -> Seq<char> {
    match lookup(res.renamed@, name) {
        Some(n) => n@,
        None => match lookup(res.defined@, name) {
            Some(DefKind::Skip) => "nh_skip_"@ + name,
            _ => name,
        },
    }
}

/// Whether `l` is a reserved or guarded word.
spec fn is_keyword(c: Ctx, l: Seq<char>) -> bool {
    is_word_of(c.reserved_words@, l) || is_word_of(c.guarded_words@, l)
}

/// A literal in pest: its guarded keyword rule, else its expectation rule
/// where lowering is, else the string itself.
spec fn literal_text(c: Ctx, l: Seq<char>, ci: bool) -> Seq<char> {
    if is_keyword(c, l) {
        match lookup(c.keyword_rules@, l) {
            Some(m) => m@,
            None => Seq::empty(),
        }
    } else {
        match expectation_in(c, l) {
            Some(n) => n,
            None => pest_syntax::string_spec(l, ci),
        }
    }
}

spec fn expectation_in(c: Ctx, literal: Seq<char>) -> Option<Seq<char>> {
    match c.current_rule {
        None => None,
        Some(rule) => match c.current_label {
            Some(label) if expect_rule_for(c.expect_rules@, rule@ + "."@ + label@, literal) is Some => expect_rule_for(
                c.expect_rules@,
                rule@ + "."@ + label@,
                literal,
            ),
            _ => expect_rule_for(c.expect_rules@, rule@, literal),
        },
    }
}

/// `e` as a pest expression, in context `c`; `fold` makes literals
/// case-insensitive.
spec fn pest_of(e: Expr, fold: bool, c: Ctx) -> Seq<char>
    decreases e,
{
    match e.kind {
        ExprKind::Sequence(parts) => crate::codegen::drift::joined(seq_items(parts@, fold, c), " ~ "@),
        ExprKind::Choice(parts) => crate::codegen::drift::joined(choice_items(parts@, fold, c), " | "@),
        ExprKind::Repeat { inner, kind } => pest_syntax::group_spec(pest_of(*inner, fold, c))
            + crate::syntax::render::suffix_text(kind),
        ExprKind::Lookahead { inner, negative } => (if negative {
            "!"@
        } else {
            "&"@
        }) + pest_syntax::group_spec(pest_of(*inner, fold, c)),
        ExprKind::Bind { name, inner, .. } => match inner.kind {
            ExprKind::Repeat { inner: repeated, kind } => "(#"@ + name.value@ + " = "@ + pest_syntax::group_spec(
                pest_of(*repeated, fold, c),
            ) + ")"@ + crate::syntax::render::suffix_text(kind),
            _ => "#"@ + name.value@ + " = "@ + pest_syntax::group_spec(pest_of(*inner, fold, c)),
        },
        ExprKind::Literal { value, case_insensitive } => literal_text(
            c,
            value@,
            case_insensitive || fold || c.fold_keywords,
        ),
        ExprKind::CharRange { lo, hi } => match pest_syntax::char_range_spec(lo@, hi@) {
            Some(r) => r,
            None => "ANY"@,
        },
        ExprKind::Ref(name) => pest_name_spec(*c.res, name@),
    }
}

spec fn seq_items(parts: Seq<Expr>, fold: bool, c: Ctx) -> Seq<Seq<char>>
    decreases parts,
{
    if parts.len() == 0 {
        Seq::empty()
    } else {
        seq_items(parts.drop_last(), fold, c).push(
            match parts.last().kind {
                ExprKind::Choice(_) => "("@ + pest_of(parts.last(), fold, c) + ")"@,
                _ => pest_of(parts.last(), fold, c),
            },
        )
    }
}

spec fn choice_items(parts: Seq<Expr>, fold: bool, c: Ctx) -> Seq<Seq<char>>
    decreases parts,
{
    if parts.len() == 0 {
        Seq::empty()
    } else {
        choice_items(parts.drop_last(), fold, c).push(pest_of(parts.last(), fold, c))
    }
}

/// Whether every keyword literal of `e` has its rule in `c`.
spec fn keywords_ready(e: Expr, c: Ctx) -> bool
    decreases e,
{
    match e.kind {
        ExprKind::Sequence(parts) => keywords_ready_seq(parts@, c),
        ExprKind::Choice(parts) => keywords_ready_seq(parts@, c),
        ExprKind::Repeat { inner, .. } => keywords_ready(*inner, c),
        ExprKind::Lookahead { inner, .. } => keywords_ready(*inner, c),
        ExprKind::Bind { inner, .. } => keywords_ready(*inner, c),
        ExprKind::Literal { value, .. } => is_keyword(c, value@) ==> lookup(c.keyword_rules@, value@) is Some,
        _ => true,
    }
}

spec fn keywords_ready_seq(parts: Seq<Expr>, c: Ctx) -> bool
    decreases parts,
{
    if parts.len() == 0 {
        true
    } else {
        keywords_ready_seq(parts.drop_last(), c) && keywords_ready(parts.last(), c)
    }
}

/// What lowering an expression keeps: everything a literal's text reads,
/// and every keyword rule already made.
spec fn same_words(a: Ctx, b: Ctx) -> bool {
    &&& a.res == b.res
    &&& a.reserved_words == b.reserved_words
    &&& a.guarded_words == b.guarded_words
    &&& a.fold_keywords == b.fold_keywords
    &&& a.expect_rules == b.expect_rules
    &&& a.current_rule == b.current_rule
    &&& a.current_label == b.current_label
    &&& forall|k: Seq<char>| #[trigger] lookup(a.keyword_rules@, k) is Some ==> lookup(b.keyword_rules@, k) == lookup(a.keyword_rules@, k)
}

/// Whether an alternative gets a sub-rule of its own: a label other than
/// `pass`.
pub open spec fn has_subrule(alt: Alternative) -> bool {
    alt.label matches Some(l) && l.value@ != "pass"@
}

pub open spec fn label_text(alt: Alternative) -> Seq<char> {
    match alt.label {
        Some(l) => l.value@,
        None => Seq::empty(),
    }
}

pub open spec fn modifier_text(silent: bool) -> Seq<char> {
    if silent {
        "_"@
    } else {
        Seq::empty()
    }
}

/// The choice items for the first `n` alternatives of a rule emitted as
/// `rn`, alternative `a` lowered to `bodies[a]`: a labelled one by its
/// sub-rule's name, another by its body.
pub open spec fn choice_items_upto(rn: Seq<char>, alts: Seq<Alternative>, bodies: Seq<Seq<char>>, n: int) -> Seq<Seq<char>>
    decreases n,
{
    if n <= 0 {
        Seq::empty()
    } else {
        choice_items_upto(rn, alts, bodies, n - 1).push(
            if has_subrule(alts[n - 1]) {
                rn + "_"@ + label_text(alts[n - 1])
            } else {
                bodies[n - 1]
            },
        )
    }
}

/// The sub-rules of the first `n` alternatives, one per labelled one.
pub open spec fn subrules_upto(rn: Seq<char>, alts: Seq<Alternative>, bodies: Seq<Seq<char>>, n: int) -> Seq<Seq<char>>
    decreases n,
{
    if n <= 0 {
        Seq::empty()
    } else if has_subrule(alts[n - 1]) {
        subrules_upto(rn, alts, bodies, n - 1).push(
            rn + "_"@ + label_text(alts[n - 1]) + " = { "@ + bodies[n - 1] + " }"@,
        )
    } else {
        subrules_upto(rn, alts, bodies, n - 1)
    }
}

/// Each line of `v` followed by a line break.
pub open spec fn lines_of(v: Seq<Seq<char>>) -> Seq<char>
    decreases v.len(),
{
    if v.len() == 0 {
        Seq::empty()
    } else {
        lines_of(v.drop_last()) + v.last() + "\n"@
    }
}

/// A rule of several alternatives (or one `pass` or unlabelled one): the
/// choice under `head`, then the sub-rules.
pub open spec fn choice_rule_text(head: Seq<char>, rn: Seq<char>, rule: RuleDef, bodies: Seq<Seq<char>>) -> Seq<char> {
    let alts = rule.alternatives@;
    head + " = "@ + modifier_text(rule.silent) + "{ "@ + crate::codegen::drift::joined(
        choice_items_upto(rn, alts, bodies, alts.len() as int),
        " | "@,
    ) + " }\n"@ + lines_of(subrules_upto(rn, alts, bodies, alts.len() as int))
}

/// Whether `c` is the context an alternative of `rule` was lowered in:
/// the words and expectations of `o`, inside `rule`, under the
/// alternative's label.
spec fn lowering_in(c: Ctx, o: Ctx, rule: RuleDef, alt: Alternative) -> bool {
    &&& c.res == o.res
    &&& c.reserved_words == o.reserved_words
    &&& c.guarded_words == o.guarded_words
    &&& c.fold_keywords == o.fold_keywords
    &&& c.expect_rules == o.expect_rules
    &&& opt_string(c.current_rule) == Some(rule.name.value@)
    &&& opt_string(c.current_label) == match alt.label {
        Some(l) => Some(l.value@),
        None => None,
    }
}

/// Whether `bodies` are the alternatives of `rule` lowered, alternative
/// `a` in context `cs[a]`, which `lowering_in` allows.
spec fn bodies_in(bodies: Seq<Seq<char>>, cs: Seq<Ctx>, o: Ctx, rule: RuleDef) -> bool {
    &&& bodies.len() == rule.alternatives@.len()
    &&& cs.len() == bodies.len()
    &&& forall|a: int|
        0 <= a < bodies.len() ==> lowering_in(#[trigger] cs[a], o, rule, rule.alternatives@[a]) && bodies[a] == pest_of(
            rule.alternatives@[a].body,
            false,
            cs[a],
        )
}

/// Whether the rule has one labelled alternative (not `pass`) and no
/// recovery, and so is emitted as that alternative itself.
pub open spec fn single_rule(ast: Ast, rule: RuleDef) -> bool {
    &&& !recovered(ast, rule.name.value@)
    &&& rule.alternatives@.len() == 1
    &&& has_subrule(rule.alternatives@[0])
}

pub open spec fn recovered(ast: Ast, name: Seq<char>) -> bool {
    exists|j: int| 0 <= j < ast.recovers@.len() && #[trigger] ast.recovers@[j].rule.value@ == name
}

/// Whether `b` has `a`'s words, expectations and place in the grammar.
spec fn keeps_words(a: Ctx, b: Ctx) -> bool {
    &&& a.res == b.res
    &&& a.reserved_words == b.reserved_words
    &&& a.guarded_words == b.guarded_words
    &&& a.fold_keywords == b.fold_keywords
    &&& a.expect_rules == b.expect_rules
    &&& a.current_rule == b.current_rule
    &&& a.current_label == b.current_label
}

proof fn lemma_items_prefix(rn: Seq<char>, alts: Seq<Alternative>, x: Seq<Seq<char>>, y: Seq<Seq<char>>, n: int)
    requires
        forall|i: int| 0 <= i < n ==> #[trigger] x[i] == y[i],
    ensures
        choice_items_upto(rn, alts, x, n) == choice_items_upto(rn, alts, y, n),
        subrules_upto(rn, alts, x, n) == subrules_upto(rn, alts, y, n),
    decreases n,
{
    if n > 0 {
        lemma_items_prefix(rn, alts, x, y, n - 1);
        assert(x[n - 1] == y[n - 1]);
    }
}

proof fn lemma_bodies_in_same(bodies: Seq<Seq<char>>, cs: Seq<Ctx>, o1: Ctx, o2: Ctx, rule: RuleDef)
    requires
        bodies_in(bodies, cs, o1, rule),
        o1.res == o2.res,
        o1.reserved_words == o2.reserved_words,
        o1.guarded_words == o2.guarded_words,
        o1.fold_keywords == o2.fold_keywords,
        o1.expect_rules == o2.expect_rules,
    ensures
        bodies_in(bodies, cs, o2, rule),
{
    assert forall|a: int| 0 <= a < bodies.len() implies lowering_in(#[trigger] cs[a], o2, rule, rule.alternatives@[a]) by {
        assert(lowering_in(cs[a], o1, rule, rule.alternatives@[a]));
    }
}

proof fn lemma_same_words_trans(a: Ctx, b: Ctx, c: Ctx)
    requires
        same_words(a, b),
        same_words(b, c),
    ensures
        same_words(a, c),
{
}

/// Lowering more keeps what an expression lowered to.
proof fn lemma_pest_of_stable(e: Expr, fold: bool, a: Ctx, b: Ctx)
    requires
        same_words(a, b),
        keywords_ready(e, a),
    ensures
        pest_of(e, fold, a) == pest_of(e, fold, b),
        keywords_ready(e, b),
    decreases e,
{
    match e.kind {
        ExprKind::Sequence(parts) => {
            lemma_items_stable(parts@, fold, a, b);
        },
        ExprKind::Choice(parts) => {
            lemma_items_stable(parts@, fold, a, b);
        },
        ExprKind::Repeat { inner, .. } => lemma_pest_of_stable(*inner, fold, a, b),
        ExprKind::Lookahead { inner, .. } => lemma_pest_of_stable(*inner, fold, a, b),
        ExprKind::Bind { inner, .. } => {
            lemma_pest_of_stable(*inner, fold, a, b);
            match inner.kind {
                ExprKind::Repeat { inner: repeated, .. } => {
                    assert(keywords_ready(*inner, a));
                    assert(keywords_ready(*repeated, a));
                    lemma_pest_of_stable(*repeated, fold, a, b);
                },
                _ => {},
            }
        },
        ExprKind::Literal { value, .. } => {
            if is_keyword(a, value@) {
                assert(lookup(a.keyword_rules@, value@) is Some);
            }
        },
        _ => {},
    }
}

proof fn lemma_items_stable(parts: Seq<Expr>, fold: bool, a: Ctx, b: Ctx)
    requires
        same_words(a, b),
        keywords_ready_seq(parts, a),
    ensures
        seq_items(parts, fold, a) == seq_items(parts, fold, b),
        choice_items(parts, fold, a) == choice_items(parts, fold, b),
        keywords_ready_seq(parts, b),
    decreases parts,
{
    if parts.len() > 0 {
        lemma_items_stable(parts.drop_last(), fold, a, b);
        lemma_pest_of_stable(parts.last(), fold, a, b);
    }
}

/// A token's body in pest: guarded against its reserved words, if any.
spec fn token_body(t: crate::syntax::ast::TokenDef, c: Ctx) -> Seq<char> {
    let b = pest_of(t.body, t.case_insensitive, c);
    match lookup(c.reserved_words@, t.name.value@) {
        Some(ws) if ws@.len() > 0 => "!"@ + "nh_reserved_"@ + t.name.value@ + " ~ "@ + pest_syntax::group_spec(b),
        _ => b,
    }
}

spec fn token_line(t: crate::syntax::ast::TokenDef, c: Ctx) -> Seq<char> {
    pest_name_spec(*c.res, t.name.value@) + " = "@ + (if t.atomic {
        "@"@
    } else {
        "$"@
    }) + "{ "@ + token_body(t, c) + " }\n"@
}

spec fn token_lines(ts: Seq<crate::syntax::ast::TokenDef>, c: Ctx) -> Seq<char>
    decreases ts.len(),
{
    if ts.len() == 0 {
        Seq::empty()
    } else {
        token_lines(ts.drop_last(), c) + token_line(ts.last(), c)
    }
}

spec fn tokens_ready(ts: Seq<crate::syntax::ast::TokenDef>, c: Ctx) -> bool {
    forall|i: int| 0 <= i < ts.len() ==> keywords_ready(#[trigger] ts[i].body, c)
}

proof fn lemma_tokens_stable(ts: Seq<crate::syntax::ast::TokenDef>, a: Ctx, b: Ctx)
    requires
        same_words(a, b),
        tokens_ready(ts, a),
    ensures
        token_lines(ts, a) == token_lines(ts, b),
        tokens_ready(ts, b),
    decreases ts.len(),
{
    if ts.len() > 0 {
        assert(tokens_ready(ts.drop_last(), a)) by {
            assert forall|i: int| 0 <= i < ts.drop_last().len() implies keywords_ready(#[trigger] ts.drop_last()[i].body, a) by {
                assert(ts.drop_last()[i] == ts[i]);
            }
        }
        lemma_tokens_stable(ts.drop_last(), a, b);
        assert(keywords_ready(ts[ts.len() - 1].body, a));
        lemma_pest_of_stable(ts.last().body, ts.last().case_insensitive, a, b);
        assert forall|i: int| 0 <= i < ts.len() implies keywords_ready(#[trigger] ts[i].body, b) by {
            if i < ts.len() - 1 {
                assert(ts.drop_last()[i] == ts[i]);
            }
        }
    }
}

fn copy_strings(src: &Vec<String>) -> (r: Vec<String>)
    ensures
        strs(r@) == strs(src@),
{
    let mut r: Vec<String> = Vec::new();
    let mut k: usize = 0;
    while k < src.len()
        invariant
            k <= src@.len(),
            strs(r@) == strs(src@).take(k as int),
        decreases src@.len() - k,
    {
        let ghost r0 = r@;
        let x = owned(src[k].as_str());
        r.push(x);
        proof {
            assert(strs(r@) =~= strs(r0).push(x@));
            assert(strs(src@).take(k + 1) =~= strs(src@).take(k as int).push(x@));
        }
        k = k + 1;
    }
    proof { assert(strs(src@).take(src@.len() as int) =~= strs(src@)); }
    r
}

/// An operator's rule body: its literal, and for a word operator a
/// boundary guard after it when the grammar has an identifier token.
pub open spec fn operator_body(op: Operator, ast: Ast) -> Seq<char> {
    if op.word {
        if ast.reserved@.len() > 0 {
            pest_syntax::string_spec(op.literal@, true) + " ~ !"@ + "nh_cont_"@ + ast.reserved@[0].token.value@
        } else {
            pest_syntax::string_spec(op.literal@, true)
        }
    } else {
        pest_syntax::string_spec(op.literal@, false)
    }
}

/// Whether the `expr` rule is wanted: the table has operators or a rule
/// refers to `expr`, and the table names an atom.
spec fn expr_wanted(c: Ctx) -> bool {
    &&& !(forall|i: int| 0 <= i < c.table.tiers@.len() ==> #[trigger] c.table.tiers@[i].operators@.len() == 0)
        || grammar_mentions_expr(*c.ast)
    &&& c.table.atom_rule is Some
}

spec fn fixity_count(c: Ctx, f: Fixity) -> nat {
    crate::operators::ops_of_fixity(c.table.tiers@, f).len()
}

/// The `expr` rule's body: prefix operators, the atom and postfix
/// operators make a term, and infix operators join terms.
spec fn expr_body(c: Ctx) -> Seq<char> {
    let atom = pest_name_spec(*c.res, c.table.atom_rule->0@);
    let term = (if fixity_count(c, Fixity::Prefix) > 0 {
        "nh_pre_op"@ + "* ~ "@
    } else {
        Seq::empty()
    }) + atom + (if fixity_count(c, Fixity::Postfix) > 0 {
        " ~ "@ + "nh_post_op"@ + "*"@
    } else {
        Seq::empty()
    });
    if fixity_count(c, Fixity::Left) + fixity_count(c, Fixity::Right) > 0 {
        term + " ~ ("@ + "nh_bin_op"@ + " ~ "@ + term + ")*"@
    } else {
        term
    }
}

pub open spec fn expect_pairs(rules: Seq<(String, String, String)>) -> Seq<(Seq<char>, Seq<char>)> {
    rules.map_values(|r: (String, String, String)| (r.0@, r.1@))
}

pub open spec fn expect_key(ex: crate::syntax::ast::ExpectDef) -> (Seq<char>, Seq<char>) {
    (joined(ex.target@.map_values(|t: crate::syntax::source::Spanned<String>| t.value@), "."@), ex.literal.value@)
}

/// Whether `ex` is promoted, given the keys promoted before it.
pub open spec fn expect_step_ok(ast: Ast, keys: Seq<(Seq<char>, Seq<char>)>, ex: crate::syntax::ast::ExpectDef) -> bool {
    expect_target_ok(ast, ex.target@.map_values(|t: crate::syntax::source::Spanned<String>| t.value@)) && !keys.contains(
        expect_key(ex),
    )
}

/// The `(target, literal)` keys after promoting each of `exps` in order:
/// one with an unknown target, or already promoted, adds nothing.
pub open spec fn expects_after(
    keys: Seq<(Seq<char>, Seq<char>)>,
    exps: Seq<crate::syntax::ast::ExpectDef>,
    ast: Ast,
) -> Seq<(Seq<char>, Seq<char>)>
    decreases exps.len(),
{
    if exps.len() == 0 {
        keys
    } else {
        let prev = expects_after(keys, exps.drop_last(), ast);
        let t = exps.last().target@.map_values(|t: crate::syntax::source::Spanned<String>| t.value@);
        let k = (joined(t, "."@), exps.last().literal.value@);
        if expect_target_ok(ast, t) && !prev.contains(k) {
            prev.push(k)
        } else {
            prev
        }
    }
}

/// How many of `exps` are refused: an unknown target, or a second message
/// for one literal in one place.
pub open spec fn expect_errors(keys: Seq<(Seq<char>, Seq<char>)>, exps: Seq<crate::syntax::ast::ExpectDef>, ast: Ast) -> nat
    decreases exps.len(),
{
    if exps.len() == 0 {
        0
    } else {
        let prev = expects_after(keys, exps.drop_last(), ast);
        let t = exps.last().target@.map_values(|t: crate::syntax::source::Spanned<String>| t.value@);
        let k = (joined(t, "."@), exps.last().literal.value@);
        expect_errors(keys, exps.drop_last(), ast) + if expect_target_ok(ast, t) && !prev.contains(k) {
            0nat
        } else {
            1nat
        }
    }
}

/// Whether some list of `entries` holds `w`.
pub open spec fn is_word_of(entries: Seq<(String, Vec<String>)>, w: Seq<char>) -> bool {
    exists|j: int| 0 <= j < entries.len() && strs(#[trigger] entries[j].1@).contains(w)
}

/// The emitted rule name of each skip.
pub open spec fn skip_names(skips: Seq<crate::syntax::ast::SkipDef>) -> Seq<Seq<char>> {
    skips.map_values(|s: crate::syntax::ast::SkipDef| "nh_skip_"@ + s.name.value@)
}

/// One silent rule per skip, each with its lowered body.
pub open spec fn skip_rules(names: Seq<Seq<char>>, bodies: Seq<Seq<char>>) -> Seq<char>
    decreases names.len(),
{
    if names.len() == 0 || bodies.len() == 0 {
        Seq::empty()
    } else {
        skip_rules(names.drop_last(), bodies.drop_last()) + names.last() + " = _{ "@ + bodies.last() + " }\n"@
    }
}

/// How many of `bs` are `lazy` with no rule to defer.
pub open spec fn idle_lazies(bs: Seq<Binding>) -> nat
    decreases bs.len(),
{
    if bs.len() == 0 {
        0
    } else {
        idle_lazies(bs.drop_last()) + if bs.last().lazy && bs.last().rule_ref is None {
            1nat
        } else {
            0nat
        }
    }
}

/// Each of `w` as a pest string literal.
pub open spec fn quoted_words(w: Seq<Seq<char>>, fold: bool) -> Seq<Seq<char>>
    decreases w.len(),
{
    if w.len() == 0 {
        Seq::empty()
    } else {
        quoted_words(w.drop_last(), fold).push(pest_syntax::string_spec(w.last(), fold))
    }
}

/// The rule rejecting the reserved words `w` of `token` as identifiers.
pub open spec fn guard_line(name: Seq<char>, w: Seq<Seq<char>>, fold: bool, token: Seq<char>) -> Seq<char> {
    name + " = @{ ("@ + crate::codegen::drift::joined(quoted_words(w, fold), " | "@) + ") ~ !"@ + "nh_cont_"@
        + token + " }"@
}

/// What may continue an identifier of `token`, in pest: its derived
/// fragments, else letters, digits and `_`.
pub open spec fn continuation_body(res: Resolution, token: Seq<char>) -> Seq<char> {
    match lookup(res.continuations@, token) {
        Some(parts) if parts@.len() > 0 => crate::codegen::drift::joined(strs(parts@), " | "@),
        _ => "ASCII_ALPHANUMERIC | \"_\""@,
    }
}

/// The rule of the first expectation for `literal` at `target`.
pub open spec fn expect_rule_for(rules: Seq<(String, String, String)>, target: Seq<char>, literal: Seq<char>) -> Option<
    Seq<char>,
> {
    if exists|i: int| 0 <= i < rules.len() && expect_keyed(#[trigger] rules[i], target, literal) {
        let i = choose|i: int|
            0 <= i < rules.len() && expect_keyed(#[trigger] rules[i], target, literal) && forall|j: int|
                0 <= j < i ==> !expect_keyed(#[trigger] rules[j], target, literal);
        Some(rules[i].2@)
    } else {
        None
    }
}

proof fn lemma_expect_rule_for(rules: Seq<(String, String, String)>, target: Seq<char>, literal: Seq<char>, i: int)
    requires
        i == -1 ==> forall|j: int| 0 <= j < rules.len() ==> !expect_keyed(#[trigger] rules[j], target, literal),
        i != -1 ==> 0 <= i < rules.len() && expect_keyed(rules[i], target, literal) && forall|j: int|
            0 <= j < i ==> !expect_keyed(#[trigger] rules[j], target, literal),
    ensures
        expect_rule_for(rules, target, literal) == if i == -1 {
            None
        } else {
            Some(rules[i].2@)
        },
{
    if i != -1 {
        assert(expect_keyed(rules[i], target, literal));
        let c = choose|c: int|
            0 <= c < rules.len() && expect_keyed(#[trigger] rules[c], target, literal) && forall|j: int|
                0 <= j < c ==> !expect_keyed(#[trigger] rules[j], target, literal);
        if c < i {
            assert(!expect_keyed(rules[c], target, literal));
        } else if i < c {
            assert(!expect_keyed(rules[i], target, literal));
        }
    } else {
        if exists|k: int| 0 <= k < rules.len() && expect_keyed(#[trigger] rules[k], target, literal) {
            let k = choose|k: int| 0 <= k < rules.len() && expect_keyed(#[trigger] rules[k], target, literal);
            assert(!expect_keyed(rules[k], target, literal));
        }
    }
}

proof fn lemma_first_rule_is(ast: Ast, n: Seq<char>, i: int)
    requires
        0 <= i < ast.rules@.len(),
        ast.rules@[i].name.value@ == n,
        forall|j: int| 0 <= j < i ==> #[trigger] ast.rules@[j].name.value@ != n,
    ensures
        shape::first_rule(ast, n) == i,
{
    assert(ast.rules@[i].name.value@ == n);
    let c = choose|c: int|
        0 <= c < ast.rules@.len() && #[trigger] ast.rules@[c].name.value@ == n && forall|j: int|
            0 <= j < c ==> #[trigger] ast.rules@[j].name.value@ != n;
    if c < i {
        assert(ast.rules@[c].name.value@ != n);
    } else if i < c {
        assert(ast.rules@[i].name.value@ != n);
    }
}

impl<'a> Ctx<'a> {
    /// Gathers reserved words per token, adding word operators
    /// automatically: `word "AND"` is reserved without restating it.
    fn collect_reserved_words(&mut self)
        requires
            old(self).reserved_words@.len() == 0,
            old(self).guarded_words@.len() == 0,
        ensures
            same_frame(*old(self), *final(self)),
            forall|t: Seq<char>|
                #[trigger] opt_strs(lookup(final(self).reserved_words@, t)) == reserved_for(
                    *old(self).ast,
                    word_spellings(crate::operators::flat_ops(old(self).table.tiers@)),
                    t,
                ),
            forall|t: Seq<char>|
                #[trigger] opt_strs(lookup(final(self).guarded_words@, t)) == declared_for(guard_pairs(*old(self).ast), t),
            final(self).keyword_rules == old(self).keyword_rules,
            (word_spellings(crate::operators::flat_ops(old(self).table.tiers@)).len() > 0
                && identifier_token(*old(self).ast) is None) ==> {
                &&& final(self).diagnostics@.len() == old(self).diagnostics@.len() + 1
                &&& final(self).diagnostics@.take(old(self).diagnostics@.len() as int) == old(self).diagnostics@
                &&& final(self).diagnostics@.last().severity == Severity::Error
            },
            !(word_spellings(crate::operators::flat_ops(old(self).table.tiers@)).len() > 0
                && identifier_token(*old(self).ast) is None) ==> final(self).diagnostics@ == old(self).diagnostics@,
    {
        let ast = self.ast;
        let ghost rp = reserved_pairs(*ast);
        let ghost gp = guard_pairs(*ast);
        let mut i: usize = 0;
        proof { assert(rp.take(0) =~= Seq::<(Seq<char>, Seq<Seq<char>>)>::empty()); }
        while i < ast.reserved.len()
            invariant
                same_frame(*old(self), *self),
                self.ast == ast,
                rp == reserved_pairs(*ast),
                i <= ast.reserved@.len(),
                self.guarded_words@.len() == 0,
                self.keyword_rules == old(self).keyword_rules,
                self.diagnostics@ == old(self).diagnostics@,
                forall|t: Seq<char>| #[trigger] opt_strs(lookup(self.reserved_words@, t)) == declared_for(rp.take(i as int), t),
            decreases ast.reserved@.len() - i,
        {
            let ghost before = self.reserved_words@;
            extend_words(&mut self.reserved_words, ast.reserved[i].token.value.as_str(), &ast.reserved[i].words);
            proof { lemma_declared_step(rp, i as int, before, self.reserved_words@); }
            i = i + 1;
        }
        proof { assert(rp.take(rp.len() as int) =~= rp); }
        let mut i: usize = 0;
        proof { assert(gp.take(0) =~= Seq::<(Seq<char>, Seq<Seq<char>>)>::empty()); }
        while i < ast.guards.len()
            invariant
                same_frame(*old(self), *self),
                self.ast == ast,
                gp == guard_pairs(*ast),
                rp == reserved_pairs(*ast),
                i <= ast.guards@.len(),
                self.keyword_rules == old(self).keyword_rules,
                self.diagnostics@ == old(self).diagnostics@,
                forall|t: Seq<char>| #[trigger] opt_strs(lookup(self.reserved_words@, t)) == declared_for(rp, t),
                forall|t: Seq<char>| #[trigger] opt_strs(lookup(self.guarded_words@, t)) == declared_for(gp.take(i as int), t),
            decreases ast.guards@.len() - i,
        {
            let ghost before = self.guarded_words@;
            extend_words(&mut self.guarded_words, ast.guards[i].token.value.as_str(), &ast.guards[i].words);
            proof { lemma_declared_step(gp, i as int, before, self.guarded_words@); }
            i = i + 1;
        }
        proof { assert(gp.take(gp.len() as int) =~= gp); }

        let ops = self.table.operators();
        let ghost all = crate::operators::flat_ops(self.table.tiers@);
        let mut word_ops: Vec<&Operator> = Vec::new();
        let mut k: usize = 0;
        proof {
            assert(crate::operators::derefs(ops@).take(0) =~= Seq::<Operator>::empty());
            assert(spellings_of(word_ops@) =~= Seq::<Seq<char>>::empty());
        }
        while k < ops.len()
            invariant
                k <= ops@.len(),
                crate::operators::derefs(ops@) == all,
                spellings_of(word_ops@) == word_spellings(all.take(k as int)),
            decreases ops@.len() - k,
        {
            proof {
                assert(all.take(k + 1).drop_last() =~= all.take(k as int));
                assert(all.take(k + 1).last() == *ops@[k as int]);
            }
            if ops[k].word {
                let ghost w0 = word_ops@;
                word_ops.push(ops[k]);
                proof { assert(spellings_of(word_ops@) =~= spellings_of(w0).push(ops@[k as int].literal@)); }
            }
            k = k + 1;
        }
        let ghost ws = word_spellings(all);
        proof { assert(all.take(all.len() as int) =~= all); }
        if word_ops.len() == 0 {
            proof {
                assert forall|t: Seq<char>| #[trigger] opt_strs(lookup(self.reserved_words@, t)) == reserved_for(*ast, ws, t) by {
                    lemma_declared_words(rp, t);
                }
            }
            return;
        }

        let ident: Option<&str> = if ast.reserved.len() > 0 {
            Some(ast.reserved[0].token.value.as_str())
        } else if ast.guards.len() > 0 {
            Some(ast.guards[0].token.value.as_str())
        } else {
            None
        };
        match ident {
            Some(token) => {
                // Word operators are reserved, not merely guarded: `AND`
                // cannot also be a variable name.
                let ghost before = self.reserved_words@;
                let found = find_index(&self.reserved_words, token);
                let mut list: Vec<String> = Vec::new();
                let ghost base = words_for(rp, token@);
                proof {
                    lemma_declared_words(rp, token@);
                    assert(opt_strs(lookup(before, token@)) == declared_for(rp, token@));
                }
                match found {
                    Some(idx) => {
                        let mut j: usize = 0;
                        while j < self.reserved_words[idx].1.len()
                            invariant
                                self.reserved_words@ == before,
                                idx < before.len(),
                                lookup(before, token@) == Some(before[idx as int].1),
                                base == strs(before[idx as int].1@),
                                j <= before[idx as int].1@.len(),
                                strs(list@) == base.take(j as int),
                            decreases before[idx as int].1@.len() - j,
                        {
                            let ghost l0 = list@;
                            let x = owned(self.reserved_words[idx].1[j].as_str());
                            list.push(x);
                            proof {
                                assert(strs(list@) =~= strs(l0).push(x@));
                                assert(base.take(j + 1) =~= base.take(j as int).push(base[j as int]));
                            }
                            j = j + 1;
                        }
                        proof { assert(base.take(base.len() as int) =~= base); }
                    },
                    None => {
                        proof { assert(strs(list@) =~= base); }
                    },
                }
                let mut k: usize = 0;
                proof { assert(ws.take(0) =~= Seq::<Seq<char>>::empty()); }
                while k < word_ops.len()
                    invariant
                        k <= word_ops@.len(),
                        spellings_of(word_ops@) == ws,
                        strs(list@) == add_missing(base, ws.take(k as int)),
                    decreases word_ops@.len() - k,
                {
                    let w = word_ops[k].literal.as_str();
                    proof {
                        assert(ws.take(k + 1).drop_last() =~= ws.take(k as int));
                        assert(ws.take(k + 1).last() == w@);
                    }
                    if !contains_str(&list, w) {
                        let ghost l0 = list@;
                        let x = owned(w);
                        list.push(x);
                        proof { assert(strs(list@) =~= strs(l0).push(x@)); }
                    }
                    k = k + 1;
                }
                proof { assert(ws.take(ws.len() as int) =~= ws); }
                let e = (owned(token), list);
                proof {
                    assert(identifier_token(*ast) == Some(token@));
                }
                match found {
                    Some(idx) => {
                        proof {
                            lemma_lookup_update(before, idx as int, token@, e.1);
                            assert forall|t: Seq<char>| t != token@ implies #[trigger] lookup(before.update(idx as int, e), t) == lookup(before, t) by {
                                lemma_lookup_update_other(before, idx as int, e, t);
                            }
                        }
                        self.reserved_words.set(idx, e);
                    },
                    None => {
                        proof {
                            lemma_lookup_push(before, token@, e.1);
                            assert forall|t: Seq<char>| t != token@ implies #[trigger] lookup(before.push(e), t) == lookup(before, t) by {
                                lemma_lookup_push_other(before, e, t);
                            }
                        }
                        self.reserved_words.push(e);
                    },
                }
                proof {
                    assert forall|t: Seq<char>| #[trigger] opt_strs(lookup(self.reserved_words@, t)) == reserved_for(*ast, ws, t) by {
                        lemma_declared_words(rp, t);
                        if t != token@ {
                            assert(lookup(self.reserved_words@, t) == lookup(before, t));
                        }
                    }
                }
            },
            None => {
                let d = Diagnostic::error("word operators need an identifier token to be guarded against").help(
                    "add `reserved from <TOKEN> { }` or `guard from <TOKEN> { }` naming the grammar's identifier token; word operators are added automatically",
                );
                let d = match word_ops[0].span {
                    Some(s) => d.at(s),
                    None => d,
                };
                let ghost before = self.diagnostics@;
                self.diagnostics.push(d);
                proof {
                    assert(self.diagnostics@.take(before.len() as int) =~= before);
                    assert forall|t: Seq<char>| #[trigger] opt_strs(lookup(self.reserved_words@, t)) == reserved_for(*ast, ws, t) by {
                        lemma_declared_words(rp, t);
                    }
                }
            },
        }
    }

    fn find_rule(&self, name: &str) -> (r: Option<usize>)
        ensures
            r matches Some(i) ==> i < self.ast.rules@.len(),
            match r {
                Some(i) => i == shape::first_rule(*self.ast, name@),
                None => shape::first_rule(*self.ast, name@) == -1,
            },
    {
        let mut i: usize = 0;
        while i < self.ast.rules.len()
            invariant
                i <= self.ast.rules@.len(),
                forall|j: int| 0 <= j < i ==> #[trigger] self.ast.rules@[j].name.value@ != name@,
            decreases self.ast.rules@.len() - i,
        {
            if str_eq(self.ast.rules[i].name.value.as_str(), name) {
                proof { lemma_first_rule_is(*self.ast, name@, i as int); }
                return Some(i);
            }
            i = i + 1;
        }
        proof {
            if exists|k: int| 0 <= k < self.ast.rules@.len() && #[trigger] self.ast.rules@[k].name.value@ == name@ {
                let k = choose|k: int| 0 <= k < self.ast.rules@.len() && #[trigger] self.ast.rules@[k].name.value@ == name@;
                assert(self.ast.rules@[k].name.value@ != name@);
            }
        }
        None
    }

    /// Whether an `expect` target names a real rule, or `rule.label` a real
    /// alternative of one.
    fn expect_target_exists(&self, target: &Vec<crate::syntax::source::Spanned<String>>) -> (b: bool)
        ensures
            b == expect_target_ok(*self.ast, target@.map_values(|t: crate::syntax::source::Spanned<String>| t.value@)),
    {
        let ghost tv = target@.map_values(|t: crate::syntax::source::Spanned<String>| t.value@);
        if target.len() == 0 {
            return false;
        }
        let r = match self.find_rule(target[0].value.as_str()) {
            Some(r) => r,
            None => return false,
        };
        if target.len() == 1 {
            return true;
        }
        if target.len() != 2 {
            return false;
        }
        let rule = &self.ast.rules[r];
        let mut i: usize = 0;
        while i < rule.alternatives.len()
            invariant
                target@.len() == 2,
                tv == target@.map_values(|t: crate::syntax::source::Spanned<String>| t.value@),
                r < self.ast.rules@.len(),
                *rule == self.ast.rules@[r as int],
                r as int == shape::first_rule(*self.ast, tv[0]),
                i <= rule.alternatives@.len(),
                forall|j: int| 0 <= j < i ==> !labelled(#[trigger] rule.alternatives@[j], target@[1].value@),
            decreases rule.alternatives@.len() - i,
        {
            match &rule.alternatives[i].label {
                Some(l) => if str_eq(l.value.as_str(), target[1].value.as_str()) {
                    proof { assert(labelled(rule.alternatives@[i as int], tv[1])); }
                    return true;
                },
                None => {},
            }
            i = i + 1;
        }
        false
    }

    fn find_expect(&self, target: &str, literal: &str) -> (r: Option<usize>)
        ensures
            r matches Some(i) ==> i < self.expect_rules@.len(),
            match r {
                Some(i) => expect_keyed(self.expect_rules@[i as int], target@, literal@) && forall|j: int|
                    0 <= j < i ==> !expect_keyed(#[trigger] self.expect_rules@[j], target@, literal@),
                None => forall|j: int|
                    0 <= j < self.expect_rules@.len() ==> !expect_keyed(#[trigger] self.expect_rules@[j], target@, literal@),
            },
    {
        let mut i: usize = 0;
        while i < self.expect_rules.len()
            invariant
                i <= self.expect_rules@.len(),
                forall|j: int| 0 <= j < i ==> !expect_keyed(#[trigger] self.expect_rules@[j], target@, literal@),
            decreases self.expect_rules@.len() - i,
        {
            if str_eq(self.expect_rules[i].0.as_str(), target) && str_eq(self.expect_rules[i].1.as_str(), literal) {
                return Some(i);
            }
            i = i + 1;
        }
        None
    }

    /// Promotes each `expect` literal to its own (silent) rule, so a parse
    /// error can name it.
    /// Promotes one `expect` literal to its own silent rule, or reports
    /// why it cannot be.
    #[verifier::spinoff_prover]
    fn promote_expect(&mut self, ex: &crate::syntax::ast::ExpectDef)
        ensures
            same_frame(*old(self), *final(self)),
            expect_pairs(final(self).expect_rules@) == if expect_step_ok(*old(self).ast, expect_pairs(old(self).expect_rules@), *ex) {
                expect_pairs(old(self).expect_rules@).push(expect_key(*ex))
            } else {
                expect_pairs(old(self).expect_rules@)
            },
            final(self).diagnostics@.len() == old(self).diagnostics@.len() + if expect_step_ok(
                *old(self).ast,
                expect_pairs(old(self).expect_rules@),
                *ex,
            ) {
                0nat
            } else {
                1nat
            },
            final(self).diagnostics@.take(old(self).diagnostics@.len() as int) == old(self).diagnostics@,
            final(self).expectations@.len() - old(self).expectations@.len() == final(self).expect_rules@.len()
                - old(self).expect_rules@.len(),
    {
        let literal = ex.literal.value.as_str();
        let mut parts: Vec<String> = Vec::new();
        let mut k: usize = 0;
        let ghost tv = ex.target@.map_values(|t: crate::syntax::source::Spanned<String>| t.value@);
        proof { assert(strs(parts@) =~= tv.take(0)); }
        while k < ex.target.len()
            invariant
                same_frame(*old(self), *self),
                k <= ex.target@.len(),
                tv == ex.target@.map_values(|t: crate::syntax::source::Spanned<String>| t.value@),
                strs(parts@) == tv.take(k as int),
            decreases ex.target@.len() - k,
        {
            let ghost p0 = parts@;
            let x = owned(ex.target[k].value.as_str());
            parts.push(x);
            proof {
                assert(strs(parts@) =~= strs(p0).push(x@));
                assert(tv.take(k + 1) =~= tv.take(k as int).push(x@));
            }
            k = k + 1;
        }
        proof { assert(tv.take(tv.len() as int) =~= tv); }
        let key = join(&parts, ".");
        let ghost before = self.diagnostics@;
        let ghost pairs = expect_pairs(self.expect_rules@);
        proof {
            assert(key@ == joined(tv, "."@));
        }
        let ok = self.expect_target_exists(&ex.target);
        let dup = if ok { self.find_expect(key.as_str(), literal).is_some() } else { false };
        proof {
            if ok {
                if dup {
                    let j = choose|j: int| 0 <= j < self.expect_rules@.len() && expect_keyed(#[trigger] self.expect_rules@[j], key@, literal@);
                    assert(pairs[j] == (key@, literal@));
                } else {
                    assert(!pairs.contains((key@, literal@))) by {
                        if pairs.contains((key@, literal@)) {
                            let j = choose|j: int| 0 <= j < pairs.len() && pairs[j] == (key@, literal@);
                            assert(expect_keyed(self.expect_rules@[j], key@, literal@));
                        }
                    }
                }
            }
        }

        if !ok {
            self.diagnostics.push(
                Diagnostic::error(cat3("`expect` names unknown target `", key.as_str(), "`").as_str()).at(
                    ex.span,
                ).help("the target is a rule name, or `rule.label` for one alternative of it"),
            );
        } else if dup {
            let msg = crate::text::cat5("`", literal, "` already has an `expect` message in `", key.as_str(), "`");
            self.diagnostics.push(
                Diagnostic::error(msg.as_str()).at(ex.span).help(
                    "two messages for the same literal in the same place; keep one",
                ),
            );
        } else {
            let name = self.alloc.allocate(names::expectation(key.as_str(), literal).as_str());
            let lit = pest_syntax::string(literal, self.fold_keywords);
            // Silent: the rule exists only so pest can name it in an
            // error, and must not change the shape of the tree.
            let line = crate::text::cat5(name.as_str(), " = _{ ", lit.as_str(), " }", "");
            self.generated.push(line);
            let ghost r0 = self.expect_rules@;
            self.expect_rules.push((owned(key.as_str()), owned(literal), owned(name.as_str())));
            proof { assert(expect_pairs(self.expect_rules@) =~= expect_pairs(r0).push((key@, literal@))); }
            self.expectations.push((name, owned(ex.message.value.as_str())));
        }
        proof { assert(self.diagnostics@.take(before.len() as int) =~= before); }
    }

    #[verifier::rlimit(60)]
    #[verifier::spinoff_prover]
    fn collect_expectations(&mut self)
        ensures
            same_frame(*old(self), *final(self)),
            expect_pairs(final(self).expect_rules@) == expects_after(
                expect_pairs(old(self).expect_rules@),
                old(self).ast.expects@,
                *old(self).ast,
            ),
            final(self).diagnostics@.len() == old(self).diagnostics@.len() + expect_errors(
                expect_pairs(old(self).expect_rules@),
                old(self).ast.expects@,
                *old(self).ast,
            ),
            final(self).diagnostics@.take(old(self).diagnostics@.len() as int) == old(self).diagnostics@,
            final(self).expectations@.len() - old(self).expectations@.len() == final(self).expect_rules@.len()
                - old(self).expect_rules@.len(),
    {
        let ast = self.ast;
        let ghost v0 = expect_pairs(self.expect_rules@);
        let ghost d0 = self.diagnostics@;
        let ghost x0 = self.expectations@.len() as int - self.expect_rules@.len() as int;
        let mut e: usize = 0;
        proof {
            assert(ast.expects@.take(0) =~= Seq::<crate::syntax::ast::ExpectDef>::empty());
            assert(d0.take(d0.len() as int) =~= d0);
        }
        while e < ast.expects.len()
            invariant
                same_frame(*old(self), *self),
                self.ast == ast,
                e <= ast.expects@.len(),
                v0 == expect_pairs(old(self).expect_rules@),
                d0 == old(self).diagnostics@,
                x0 == old(self).expectations@.len() as int - old(self).expect_rules@.len() as int,
                expect_pairs(self.expect_rules@) == expects_after(v0, ast.expects@.take(e as int), *ast),
                self.diagnostics@.len() == d0.len() + expect_errors(v0, ast.expects@.take(e as int), *ast),
                self.diagnostics@.take(d0.len() as int) == d0,
                self.expectations@.len() as int - self.expect_rules@.len() as int == x0,
            decreases ast.expects@.len() - e,
        {
            let ex = &ast.expects[e];
            proof {
                assert(ast.expects@.take(e + 1).drop_last() =~= ast.expects@.take(e as int));
                assert(ast.expects@.take(e + 1).last() == ast.expects@[e as int]);
            }
            let ghost s0 = *self;
            self.promote_expect(ex);
            proof {
                assert(self.diagnostics@.take(d0.len() as int) =~= s0.diagnostics@.take(d0.len() as int));
            }
            e = e + 1;
        }
        proof { assert(ast.expects@.take(ast.expects@.len() as int) =~= ast.expects@); }
    }

    /// The expectation rule for `literal` where lowering is: a `rule.label`
    /// target wins over a whole-rule one.
    fn expectation_for(&self, literal: &str) -> (r: Option<String>)
        ensures
            opt_string(r) == match self.current_rule {
                None => None,
                Some(rule) => match self.current_label {
                    Some(label) if expect_rule_for(self.expect_rules@, rule@ + "."@ + label@, literal@) is Some =>
                        expect_rule_for(self.expect_rules@, rule@ + "."@ + label@, literal@),
                    _ => expect_rule_for(self.expect_rules@, rule@, literal@),
                },
            },
    {
        let rule = match &self.current_rule {
            Some(r) => r.as_str(),
            None => return None,
        };
        match &self.current_label {
            Some(label) => {
                let key = cat3(rule, ".", label.as_str());
                match self.find_expect(key.as_str(), literal) {
                    Some(i) => {
                        proof { lemma_expect_rule_for(self.expect_rules@, key@, literal@, i as int); }
                        return Some(owned(self.expect_rules[i].2.as_str()));
                    },
                    None => {
                        proof { lemma_expect_rule_for(self.expect_rules@, key@, literal@, -1); }
                    },
                }
            },
            None => {},
        }
        match self.find_expect(rule, literal) {
            Some(i) => {
                proof { lemma_expect_rule_for(self.expect_rules@, rule@, literal@, i as int); }
                Some(owned(self.expect_rules[i].2.as_str()))
            },
            None => {
                proof { lemma_expect_rule_for(self.expect_rules@, rule@, literal@, -1); }
                None
            },
        }
    }

    /// All `skip` definitions are unioned into pest's `WHITESPACE`.
    fn emit_skips(&mut self, out: &mut String)
        ensures
            same_frame(*old(self), *final(self)),
            old(self).ast.skips@.len() == 0 ==> final(out)@ == old(out)@,
            old(self).ast.skips@.len() > 0 ==> exists|bodies: Seq<Seq<char>>|
                #![trigger skip_rules(skip_names(old(self).ast.skips@), bodies)]
                bodies.len() == old(self).ast.skips@.len() && final(out)@ == old(out)@ + "// Implicit skipping\n"@
                    + skip_rules(skip_names(old(self).ast.skips@), bodies) + "WHITESPACE = _{ "@
                    + crate::codegen::drift::joined(skip_names(old(self).ast.skips@), " | "@) + " }\n\n"@,
    {
        let ast = self.ast;
        if ast.skips.len() == 0 {
            return;
        }
        let ghost names = skip_names(ast.skips@);
        out.append("// Implicit skipping\n");
        let ghost o1 = out@;
        let ghost mut bodies: Seq<Seq<char>> = Seq::empty();
        let mut parts: Vec<String> = Vec::new();
        let mut i: usize = 0;
        proof { assert(names.take(0) =~= Seq::<Seq<char>>::empty()); }
        while i < ast.skips.len()
            invariant
                same_frame(*old(self), *self),
                self.ast == ast,
                names == skip_names(ast.skips@),
                i <= ast.skips@.len(),
                bodies.len() == i,
                strs(parts@) == names.take(i as int),
                out@ == o1 + skip_rules(names.take(i as int), bodies),
            decreases ast.skips@.len() - i,
        {
            let s = &ast.skips[i];
            let rule = names::skip(s.name.value.as_str());
            let body = self.expr(&s.body, false);
            let ghost o2 = out@;
            out.append(rule.as_str());
            out.append(" = _{ ");
            out.append(body.as_str());
            out.append(" }\n");
            let ghost p0 = parts@;
            parts.push(rule);
            proof {
                let nb = bodies.push(body@);
                assert(names.take(i + 1).drop_last() =~= names.take(i as int));
                assert(names.take(i + 1).last() == rule@);
                assert(nb.drop_last() =~= bodies);
                assert(strs(parts@) =~= strs(p0).push(rule@));
                assert(out@ =~= o1 + skip_rules(names.take(i + 1), nb));
                bodies = nb;
            }
            i = i + 1;
        }
        proof { assert(names.take(i as int) =~= names); }
        out.append("WHITESPACE = _{ ");
        out.append(join(&parts, " | ").as_str());
        out.append(" }\n\n");
        proof {
            assert(out@ =~= old(out)@ + "// Implicit skipping\n"@ + skip_rules(names, bodies) + "WHITESPACE = _{ "@
                + crate::codegen::drift::joined(names, " | "@) + " }\n\n"@);
        }
    }

    /// A token's body in pest, guarded against its reserved words.
    fn token_pest(&mut self, t: &crate::syntax::ast::TokenDef) -> (body: String)
        ensures
            same_frame(*old(self), *final(self)),
            same_words(*old(self), *final(self)),
            keywords_ready(t.body, *final(self)),
            body@ == token_body(*t, *final(self)),
    {
        let body = self.expr(&t.body, t.case_insensitive);
        let ghost s1 = *self;
        // A token with reserved words must reject them.
        let found = find_index(&self.reserved_words, t.name.value.as_str());
        let guarded = match found {
            Some(idx) => self.reserved_words[idx].1.len() > 0,
            None => false,
        };
        let body = if guarded {
            let idx = found.unwrap();
            let words = copy_strings(&self.reserved_words[idx].1);
            let guard = self.emit_reserved_guard(t.name.value.as_str(), &words);
            let g = pest_syntax::group(body.as_str());
            let r = crate::text::cat5("!", guard.as_str(), " ~ ", g.as_str(), "");
            proof {
                reveal_strlit("");
                assert(r@ =~= "!"@ + guard@ + " ~ "@ + g@);
            }
            r
        } else {
            body
        };
        proof {
            lemma_same_words_trans(*old(self), s1, *self);
            lemma_pest_of_stable(t.body, t.case_insensitive, s1, *self);
            assert(body@ == token_body(*t, *self));
        }
        body
    }

    #[verifier::spinoff_prover]
    fn emit_tokens(&mut self, out: &mut String)
        ensures
            same_frame(*old(self), *final(self)),
            same_words(*old(self), *final(self)),
            old(self).ast.tokens@.len() == 0 ==> final(out)@ == old(out)@,
            old(self).ast.tokens@.len() > 0 ==> final(out)@ == old(out)@ + "// Tokens\n"@ + token_lines(
                old(self).ast.tokens@,
                *final(self),
            ) + "\n"@,
    {
        let ast = self.ast;
        if ast.tokens.len() == 0 {
            return;
        }
        out.append("// Tokens\n");
        let ghost o1 = out@;
        let mut i: usize = 0;
        proof { assert(ast.tokens@.take(0) =~= Seq::<crate::syntax::ast::TokenDef>::empty()); }
        while i < ast.tokens.len()
            invariant
                same_frame(*old(self), *self),
                same_words(*old(self), *self),
                self.ast == ast,
                i <= ast.tokens@.len(),
                out@ == o1 + token_lines(ast.tokens@.take(i as int), *self),
                tokens_ready(ast.tokens@.take(i as int), *self),
            decreases ast.tokens@.len() - i,
        {
            let t = &ast.tokens[i];
            proof {
                assert(ast.tokens@.take(i + 1).drop_last() =~= ast.tokens@.take(i as int));
                assert(ast.tokens@.take(i + 1).last() == ast.tokens@[i as int]);
            }
            let ghost s0 = *self;
            let body = self.token_pest(t);
            proof {
                lemma_same_words_trans(*old(self), s0, *self);
                lemma_tokens_stable(ast.tokens@.take(i as int), s0, *self);
            }
            // `@` is atomic; anything else is compound-atomic (`$`): no
            // implicit whitespace inside a token either way.
            let modifier = if t.atomic { "@" } else { "$" };
            let ghost o2 = out@;
            out.append(self.res.pest_name(t.name.value.as_str()).as_str());
            out.append(" = ");
            out.append(modifier);
            out.append("{ ");
            out.append(body.as_str());
            out.append(" }\n");
            proof {
                assert(out@ =~= o2 + token_line(*t, *self));
                assert(out@ =~= o1 + token_lines(ast.tokens@.take(i + 1), *self));
            }
            i = i + 1;
        }
        proof { assert(ast.tokens@.take(ast.tokens@.len() as int) =~= ast.tokens@); }
        out.append("\n");
    }

    /// Emits `nh_cont_TOKEN` and `nh_reserved_TOKEN`, returning the latter.
    fn emit_reserved_guard(&mut self, token: &str, words: &Vec<String>) -> (s: String)
        ensures
            same_frame(*old(self), *final(self)),
            s@ == "nh_reserved_"@ + token@,
            final(self).generated@.len() > 0,
            exists|w: Seq<Seq<char>>|
                #![trigger guard_line(s@, w, old(self).fold_keywords, token@)]
                w.to_multiset() == strs(words@).to_multiset() && (forall|i: int, j: int|
                    0 <= i < j < w.len() ==> !word_before(#[trigger] w[j], #[trigger] w[i]))
                    && final(self).generated@.last()@ == guard_line(s@, w, old(self).fold_keywords, token@),
            final(self).diagnostics == old(self).diagnostics,
            final(self).keyword_rules == old(self).keyword_rules,
            same_words(*old(self), *final(self)),
    {
        let cont = self.continuation_rule(token);
        let reserved = names::reserved(token);
        // Longest first, as operator alternations are sorted.
        let sorted = sort_words(words);
        let ghost w = strs(sorted@);
        let mut alts: Vec<String> = Vec::new();
        let mut k: usize = 0;
        proof { assert(strs(alts@) =~= quoted_words(w.take(0), self.fold_keywords)); }
        while k < sorted.len()
            invariant
                same_frame(*old(self), *self),
                self.fold_keywords == old(self).fold_keywords,
                w == strs(sorted@),
                k <= sorted@.len(),
                strs(alts@) == quoted_words(w.take(k as int), self.fold_keywords),
            decreases sorted@.len() - k,
        {
            let ghost a0 = alts@;
            alts.push(pest_syntax::string(sorted[k].as_str(), self.fold_keywords));
            proof {
                assert(w.take(k + 1).drop_last() =~= w.take(k as int));
                assert(strs(alts@) =~= quoted_words(w.take(k + 1), self.fold_keywords));
            }
            k = k + 1;
        }
        proof { assert(w.take(w.len() as int) =~= w); }
        let mut line = owned(reserved.as_str());
        line.append(" = @{ (");
        line.append(join(&alts, " | ").as_str());
        line.append(") ~ !");
        line.append(cont.as_str());
        line.append(" }");
        proof {
            assert(line@ =~= guard_line(reserved@, w, self.fold_keywords, token@));
            assert(forall|i: int, j: int| 0 <= i < j < w.len() ==> !word_before(#[trigger] w[j], #[trigger] w[i]));
        }
        self.generated.push(line);
        reserved
    }

    /// Emits `nh_cont_TOKEN` once, returning its name.
    fn continuation_rule(&mut self, token: &str) -> (s: String)
        ensures
            same_frame(*old(self), *final(self)),
            s@ == "nh_cont_"@ + token@,
            strs(old(self).emitted_continuations@).contains(token@) ==> final(self).emitted_continuations
                == old(self).emitted_continuations && final(self).generated == old(self).generated,
            !strs(old(self).emitted_continuations@).contains(token@) ==> {
                &&& strs(final(self).emitted_continuations@) == strs(old(self).emitted_continuations@).push(token@)
                &&& strs(final(self).generated@) == strs(old(self).generated@).push(
                    s@ + " = _{ "@ + continuation_body(*old(self).res, token@) + " }"@,
                )
            },
            final(self).diagnostics == old(self).diagnostics,
            final(self).keyword_rules == old(self).keyword_rules,
            final(self).reserved_words == old(self).reserved_words,
            final(self).guarded_words == old(self).guarded_words,
            final(self).fold_keywords == old(self).fold_keywords,
            final(self).expect_rules == old(self).expect_rules,
            final(self).current_rule == old(self).current_rule,
            final(self).current_label == old(self).current_label,
    {
        let name = names::continuation(token);
        if contains_str(&self.emitted_continuations, token) {
            return name;
        }
        let ghost e0 = self.emitted_continuations@;
        let ghost g0 = self.generated@;
        self.emitted_continuations.push(owned(token));
        proof { assert(strs(self.emitted_continuations@) =~= strs(e0).push(token@)); }
        let body = match self.res.continuation_of(token) {
            Some(parts) if parts.len() > 0 => join(parts, " | "),
            _ => owned("ASCII_ALPHANUMERIC | \"_\""),
        };
        proof { assert(body@ == continuation_body(*self.res, token@)); }
        let line = crate::text::cat5(name.as_str(), " = _{ ", body.as_str(), " }", "");
        proof {
            reveal_strlit("");
            assert(line@ =~= name@ + " = _{ "@ + body@ + " }"@);
        }
        self.generated.push(line);
        proof { assert(strs(self.generated@) =~= strs(g0).push(line@)); }
        name
    }

    /// Whether any rule body mentions `expr`.
    fn references_expr(&self) -> (b: bool)
        ensures
            b == grammar_mentions_expr(*self.ast),
    {
        let mut r: usize = 0;
        while r < self.ast.rules.len()
            invariant
                r <= self.ast.rules@.len(),
                forall|i: int, a: int|
                    0 <= i < r && 0 <= a < self.ast.rules@[i].alternatives@.len() ==> !mentions(
                        #[trigger] self.ast.rules@[i].alternatives@[a].body,
                    ),
            decreases self.ast.rules@.len() - r,
        {
            let rule = &self.ast.rules[r];
            let mut a: usize = 0;
            while a < rule.alternatives.len()
                invariant
                    r < self.ast.rules@.len(),
                    *rule == self.ast.rules@[r as int],
                    a <= rule.alternatives@.len(),
                    forall|k: int| 0 <= k < a ==> !mentions(#[trigger] rule.alternatives@[k].body),
                decreases rule.alternatives@.len() - a,
            {
                if mentions_expr(&rule.alternatives[a].body) {
                    proof { assert(mentions(self.ast.rules@[r as int].alternatives@[a as int].body)); }
                    return true;
                }
                a = a + 1;
            }
            proof {
                assert forall|i: int, a2: int|
                    0 <= i < r + 1 && 0 <= a2 < self.ast.rules@[i].alternatives@.len() implies !mentions(
                        #[trigger] self.ast.rules@[i].alternatives@[a2].body,
                    ) by {
                    if i == r {
                        assert(!mentions(rule.alternatives@[a2].body));
                    }
                }
            }
            r = r + 1;
        }
        false
    }

    /// The flat expression rule. Emitted only when the table has operators
    /// or a rule references `expr`.
    fn emit_expr(&mut self, out: &mut String)
        ensures
            same_frame(*old(self), *final(self)),
            !expr_wanted(*old(self)) ==> final(out)@ == old(out)@ && *final(self) == *old(self),
            expr_wanted(*old(self)) && lookup(old(self).res.defined@, old(self).table.atom_rule->0@) is None ==> {
                &&& final(out)@ == old(out)@
                &&& final(self).diagnostics@.len() == old(self).diagnostics@.len() + 1
                &&& final(self).diagnostics@.drop_last() == old(self).diagnostics@
                &&& final(self).diagnostics@.last().severity == Severity::Error
                &&& final(self).emitted_expr == old(self).emitted_expr
            },
            expr_wanted(*old(self)) && lookup(old(self).res.defined@, old(self).table.atom_rule->0@) is Some ==> {
                &&& final(self).emitted_expr
                &&& final(out)@ == old(out)@ + "// Expressions (operator table is resolved at build time)\n"@
                    + "expr = { "@ + expr_body(*old(self)) + " }\n\n"@
            },
    {
        if self.table.is_empty() && !self.references_expr() {
            return;
        }
        let atom = match &self.table.atom_rule {
            Some(a) => owned(a.as_str()),
            None => return,
        };
        if self.res.kind(atom.as_str()).is_none() {
            let ghost d0 = self.diagnostics@;
            let span: Option<Span> = if self.ast.precedence.len() > 0 {
                Some(self.ast.precedence[0].span)
            } else if self.ast.uses.len() > 0 {
                Some(self.ast.uses[0].span)
            } else {
                None
            };
            let msg = cat3("the operator table's `atom` names `", atom.as_str(), "`, which is not defined");
            let help = cat3("add `rule ", atom.as_str(), " = ...;` for the operator driver to fold over");
            let d = Diagnostic::error(msg.as_str()).help(help.as_str());
            let d = match span {
                Some(s) => d.at(s),
                None => d,
            };
            self.diagnostics.push(d);
            proof { assert(self.diagnostics@.drop_last() =~= d0); }
            return;
        }
        let ghost s0 = *self;
        let ghost o0 = out@;
        out.append("// Expressions (operator table is resolved at build time)\n");
        let atom = self.res.pest_name(atom.as_str());
        let infix = self.emit_op_alternation(Fixity::Left, Some(Fixity::Right), "nh_bin_op");
        let prefix = self.emit_op_alternation(Fixity::Prefix, None, "nh_pre_op");
        let postfix = self.emit_op_alternation(Fixity::Postfix, None, "nh_post_op");

        let mut term = String::new();
        match &prefix {
            Some(n) => {
                term.append(n.as_str());
                term.append("* ~ ");
            },
            None => {},
        }
        term.append(atom.as_str());
        match &postfix {
            Some(n) => {
                term.append(" ~ ");
                term.append(n.as_str());
                term.append("*");
            },
            None => {},
        }
        proof {
            reveal_strlit("");
            assert(self.table == s0.table);
            assert(atom@ == pest_name_spec(*s0.res, s0.table.atom_rule->0@));
            let t = (if fixity_count(s0, Fixity::Prefix) > 0 {
                "nh_pre_op"@ + "* ~ "@
            } else {
                Seq::<char>::empty()
            }) + atom@ + (if fixity_count(s0, Fixity::Postfix) > 0 {
                " ~ "@ + "nh_post_op"@ + "*"@
            } else {
                Seq::<char>::empty()
            });
            assert(term@ =~= t);
        }
        let body = match &infix {
            Some(bin) => {
                let mut b = owned(term.as_str());
                b.append(" ~ (");
                b.append(bin.as_str());
                b.append(" ~ ");
                b.append(term.as_str());
                b.append(")*");
                b
            },
            None => term,
        };
        proof {
            reveal_strlit("");
            assert(body@ =~= expr_body(s0));
        }
        out.append("expr = { ");
        out.append(body.as_str());
        out.append(" }\n\n");
        self.emitted_expr = true;
        proof {
            assert(out@ =~= o0 + "// Expressions (operator table is resolved at build time)\n"@ + "expr = { "@
                + expr_body(s0) + " }\n\n"@);
        }
    }

    /// Emits one rule per operator plus a silent alternation over them,
    /// longest literal first; `None` when there are no operators of these
    /// fixities.
    fn emit_op_alternation(&mut self, f1: Fixity, f2: Option<Fixity>, group: &str) -> (r: Option<String>)
        ensures
            same_frame(*old(self), *final(self)),
            (r is None) == (crate::operators::ops_of_fixity(old(self).table.tiers@, f1).len() + match f2 {
                Some(f) => crate::operators::ops_of_fixity(old(self).table.tiers@, f).len(),
                None => 0,
            } == 0),
            r matches Some(g) ==> g@ == group@ && final(self).generated@.len() > 0 && exists|names: Seq<Seq<char>>|
                names.len() > 0 && final(self).generated@.last()@ == group@ + " = _{ "@ + #[trigger] joined(names, " | "@)
                    + " }"@,
            r is None ==> *final(self) == *old(self),
    {
        let table = self.table;
        let mut ops: Vec<&Operator> = table.sorted_by_fixity(f1);
        proof {
            vstd::seq_lib::to_multiset_len(crate::operators::derefs(ops@));
            vstd::seq_lib::to_multiset_len(crate::operators::ops_of_fixity(table.tiers@, f1));
        }
        let ghost n1 = ops@.len();
        match f2 {
            Some(f) => {
                let more = table.sorted_by_fixity(f);
                proof {
                    vstd::seq_lib::to_multiset_len(crate::operators::derefs(more@));
                    vstd::seq_lib::to_multiset_len(crate::operators::ops_of_fixity(table.tiers@, f));
                }
                let mut k: usize = 0;
                while k < more.len()
                    invariant
                        same_frame(*old(self), *self),
                        *self == *old(self),
                        k <= more@.len(),
                        ops@.len() == n1 + k,
                    decreases more@.len() - k,
                {
                    ops.push(more[k]);
                    k = k + 1;
                }
            },
            None => {},
        }
        if ops.len() == 0 {
            return None;
        }
        let ghost before_sort = crate::operators::derefs(ops@);
        // Re-sort across fixities: longest literal first.
        let ops = sort_longest_first(ops);
        proof {
            vstd::seq_lib::to_multiset_len(crate::operators::derefs(ops@));
            vstd::seq_lib::to_multiset_len(before_sort);
        }
        let mut refs: Vec<String> = Vec::new();
        let mut seen: Vec<String> = Vec::new();
        let mut k: usize = 0;
        while k < ops.len()
            invariant
                same_frame(*old(self), *self),
                k <= ops@.len(),
                ops@.len() > 0,
                k > 0 ==> refs@.len() > 0,
                seen@.len() == refs@.len(),
            decreases ops@.len() - k,
        {
            let op = ops[k];
            if !contains_str(&seen, op.literal.as_str()) {
                seen.push(owned(op.literal.as_str()));
                let r = self.operator_rule(op);
                refs.push(r);
            }
            k = k + 1;
        }
        let j = join(&refs, " | ");
        let line = crate::text::cat5(group, " = _{ ", j.as_str(), " }", "");
        proof {
            reveal_strlit("");
            assert(line@ =~= group@ + " = _{ "@ + joined(strs(refs@), " | "@) + " }"@);
        }
        self.generated.push(line);
        Some(owned(group))
    }

    fn operator_rule(&mut self, op: &Operator) -> (s: String)
        ensures
            same_frame(*old(self), *final(self)),
            lookup(final(self).keyword_rules@, op.literal@) matches Some(m) && m@ == s@,
            forall|k: Seq<char>|
                k != op.literal@ ==> #[trigger] lookup(final(self).keyword_rules@, k) == lookup(old(self).keyword_rules@, k),
            lookup(old(self).keyword_rules@, op.literal@) is Some ==> final(self).keyword_rules == old(self).keyword_rules
                && final(self).generated == old(self).generated,
            lookup(old(self).keyword_rules@, op.literal@) is None ==> {
                &&& !old(self).alloc@.contains(s@)
                &&& final(self).generated@.len() > 0
                &&& final(self).generated@.last()@ == s@ + " = @{ "@ + operator_body(*op, *old(self).ast) + " }"@
            },
            same_words(*old(self), *final(self)),
    {
        match find_index(&self.keyword_rules, op.literal.as_str()) {
            Some(i) => return owned(self.keyword_rules[i].1.as_str()),
            None => {},
        }
        let ghost kr0 = self.keyword_rules@;
        let base = cat3(names::PREFIX, "op_", names::symbolic(op.literal.as_str()).as_str());
        let name = self.alloc.allocate(base.as_str());
        let body = if op.word {
            // A word operator needs the boundary guard a keyword does:
            // `ANDY` must not lex as `AND Y`.
            if self.ast.reserved.len() > 0 {
                let t = owned(self.ast.reserved[0].token.value.as_str());
                let cont = self.continuation_rule(t.as_str());
                let lit = pest_syntax::string(op.literal.as_str(), true);
                cat3(lit.as_str(), " ~ !", cont.as_str())
            } else {
                pest_syntax::string(op.literal.as_str(), true)
            }
        } else {
            pest_syntax::string(op.literal.as_str(), false)
        };
        proof {
            reveal_strlit("");
            assert(body@ == operator_body(*op, *self.ast));
        }
        let line = crate::text::cat5(name.as_str(), " = @{ ", body.as_str(), " }", "");
        proof { assert(line@ =~= name@ + " = @{ "@ + body@ + " }"@); }
        self.generated.push(line);
        let e = (owned(op.literal.as_str()), owned(name.as_str()));
        proof {
            lemma_lookup_push(kr0, op.literal@, e.1);
            assert forall|k: Seq<char>| k != op.literal@ implies #[trigger] lookup(kr0.push(e), k) == lookup(kr0, k) by {
                lemma_lookup_push_other(kr0, e, k);
            }
        }
        self.keyword_rules.push(e);
        name
    }

    /// Emits every rule, in order, under a `// Rules` heading; with no
    /// rules, nothing.
    fn emit_rules(&mut self, out: &mut String)
        requires
            alternatives_faithful(*old(self).ast, old(self).collected_alternatives@),
        ensures
            alternatives_faithful(*final(self).ast, final(self).collected_alternatives@),
            final(self).ast == old(self).ast,
            old(self).ast.rules@.len() == 0 ==> final(out)@ == old(out)@,
            old(self).ast.rules@.len() > 0 ==> final(out)@.len() > old(out)@.len() + 9 && final(out)@.take(
                old(out)@.len() + 9 as int,
            ) == old(out)@ + "// Rules\n"@,
            labelled_lowered(*old(self).ast, final(self).collected_alternatives@, old(self).ast.rules@.len() as int),
    {
        let ast = self.ast;
        if ast.rules.len() == 0 {
            return;
        }
        out.append("// Rules\n");
        proof {
            assert(labelled_lowered(*ast, self.collected_alternatives@, 0));
        }
        proof { reveal_strlit("// Rules\n"); }
        let ghost head = out@;
        let mut i: usize = 0;
        while i < ast.rules.len()
            invariant
                self.ast == ast,
                alternatives_faithful(*ast, self.collected_alternatives@),
                i <= ast.rules@.len(),
                out@.len() >= head.len(),
                i > 0 ==> out@.len() > head.len(),
                out@.take(head.len() as int) == head,
                labelled_lowered(*ast, self.collected_alternatives@, i as int),
            decreases ast.rules@.len() - i,
        {
            let ghost before = out@;
            let ghost c0 = self.collected_alternatives@;
            self.emit_rule(out, i);
            proof {
                let c1 = self.collected_alternatives@;
                assert forall|r: int, x: int|
                    0 <= r < i + 1 && r < ast.rules@.len() && 0 <= x < ast.rules@[r].alternatives@.len() && has_subrule(
                        ast.rules@[r].alternatives@[x],
                    ) implies #[trigger] lowered_in(*ast, c1, r, x) by {
                    if r < i {
                        lemma_lowered_prefix(*ast, c0, c1, r, x);
                    }
                }
            }
            proof {
                assert(out@.take(head.len() as int) =~= before.take(head.len() as int)) by {
                    assert forall|j: int| 0 <= j < head.len() implies out@[j] == before[j] by {
                        assert(out@.take(before.len() as int)[j] == before[j]);
                    }
                }
            }
            i = i + 1;
        }
        proof {
            assert(head.len() == old(out)@.len() + 9);
            assert(out@.take(old(out)@.len() + 9 as int) =~= head);
        }
    }

    fn find_recovery(&self, rule: &str) -> (r: Option<usize>)
        ensures
            r matches Some(i) ==> i < self.ast.recovers@.len(),
            match r {
                Some(i) => self.ast.recovers@[i as int].rule.value@ == rule@ && forall|j: int|
                    0 <= j < i ==> #[trigger] self.ast.recovers@[j].rule.value@ != rule@,
                None => forall|j: int| 0 <= j < self.ast.recovers@.len() ==> #[trigger] self.ast.recovers@[j].rule.value@ != rule@,
            },
    {
        let mut i: usize = 0;
        while i < self.ast.recovers.len()
            invariant
                i <= self.ast.recovers@.len(),
                forall|j: int| 0 <= j < i ==> #[trigger] self.ast.recovers@[j].rule.value@ != rule@,
            decreases self.ast.recovers@.len() - i,
        {
            if str_eq(self.ast.recovers[i].rule.value.as_str(), rule) {
                return Some(i);
            }
            i = i + 1;
        }
        None
    }

    /// Lowers each alternative of rule `ri`, emitted as `rule_name`: the
    /// choice items, the sub-rules of the labelled ones, their variants, and
    /// (in ghost) each body with the context it was lowered in.
    #[verifier::rlimit(60)]
    #[verifier::spinoff_prover]
    fn lower_alternatives(&mut self, ri: usize, rule_name: &String) -> (r: (
        Vec<String>,
        Vec<String>,
        Vec<LoweredVariant>,
        Ghost<Seq<Seq<char>>>,
        Ghost<Seq<Ctx<'a>>>,
    ))
        requires
            ri < old(self).ast.rules@.len(),
            alternatives_faithful(*old(self).ast, old(self).collected_alternatives@),
            opt_string(old(self).current_rule) == Some(old(self).ast.rules@[ri as int].name.value@),
        ensures
            alternatives_faithful(*final(self).ast, final(self).collected_alternatives@),
            final(self).ast == old(self).ast,
            final(self).res == old(self).res,
            final(self).reserved_words == old(self).reserved_words,
            final(self).guarded_words == old(self).guarded_words,
            final(self).fold_keywords == old(self).fold_keywords,
            final(self).expect_rules == old(self).expect_rules,
            final(self).collected_alternatives@.len() >= old(self).collected_alternatives@.len(),
            final(self).collected_alternatives@.take(old(self).collected_alternatives@.len() as int)
                == old(self).collected_alternatives@,
            forall|i: int|
                0 <= i < old(self).ast.rules@[ri as int].alternatives@.len() && has_subrule(
                    old(self).ast.rules@[ri as int].alternatives@[i],
                ) ==> #[trigger] lowered_in(*old(self).ast, final(self).collected_alternatives@, ri as int, i),
            ({
                let rule = old(self).ast.rules@[ri as int];
                let rn = rule_name@;
                &&& bodies_in(r.3@, r.4@, *old(self), rule)
                &&& crate::codegen::drift::views(r.0@) == choice_items_upto(rn, rule.alternatives@, r.3@, rule.alternatives@.len() as int)
                &&& crate::codegen::drift::views(r.1@) == subrules_upto(rn, rule.alternatives@, r.3@, rule.alternatives@.len() as int)
            }),
    {
        let ast = self.ast;
        let rule = &ast.rules[ri];
        let ghost o = *self;
        let ghost rn = rule_name@;
        let mut alts: Vec<String> = Vec::new();
        let mut subrules: Vec<String> = Vec::new();
        let mut variants: Vec<LoweredVariant> = Vec::new();
        let ghost mut bodies: Seq<Seq<char>> = Seq::empty();
        let ghost mut cs: Seq<Ctx> = Seq::empty();
        let mut a: usize = 0;
        while a < rule.alternatives.len()
            invariant
                self.ast == ast,
                ri < ast.rules@.len(),
                *rule == ast.rules@[ri as int],
                alternatives_faithful(*ast, self.collected_alternatives@),
                a <= rule.alternatives@.len(),
                self.res == o.res,
                self.reserved_words == o.reserved_words,
                self.guarded_words == o.guarded_words,
                self.fold_keywords == o.fold_keywords,
                self.expect_rules == o.expect_rules,
                opt_string(self.current_rule) == Some(rule.name.value@),
                rule_name@ == rn,
                bodies.len() == a,
                cs.len() == a,
                forall|b: int|
                    0 <= b < a ==> lowering_in(#[trigger] cs[b], o, *rule, rule.alternatives@[b]) && bodies[b] == pest_of(
                        rule.alternatives@[b].body,
                        false,
                        cs[b],
                    ),
                crate::codegen::drift::views(alts@) == choice_items_upto(rn, rule.alternatives@, bodies, a as int),
                crate::codegen::drift::views(subrules@) == subrules_upto(rn, rule.alternatives@, bodies, a as int),
                self.collected_alternatives@.len() >= o.collected_alternatives@.len(),
                self.collected_alternatives@.take(o.collected_alternatives@.len() as int) == o.collected_alternatives@,
                forall|x: int|
                    0 <= x < a && has_subrule(rule.alternatives@[x]) ==> #[trigger] lowered_in(
                        *ast,
                        self.collected_alternatives@,
                        ri as int,
                        x,
                    ),
            decreases rule.alternatives@.len() - a,
        {
            let alt = &rule.alternatives[a];
            self.current_label = match &alt.label {
                Some(l) => Some(owned(l.value.as_str())),
                None => None,
            };
            let transparent = match &alt.label {
                Some(l) => str_eq(l.value.as_str(), "pass"),
                None => true,
            };
            proof { assert(transparent == !has_subrule(*alt)); }
            let ghost alts0 = alts@;
            let ghost subs0 = subrules@;
            let ghost b0 = bodies;
            let ghost cs0 = cs;
            if transparent {
                // `-> pass`, or unlabelled: no sub-rule, no handler.
                let e = self.expr(&alt.body, false);
                let ghost ca = *self;
                proof {
                    assert(lowering_in(ca, o, *rule, rule.alternatives@[a as int]));
                    bodies = bodies.push(e@);
                    cs = cs.push(ca);
                }
                alts.push(e);
                let child = self.sole_rule(&alt.body);
                variants.push(LoweredVariant::Transparent { child });
                if !rule.silent {
                    self.check_transparent(rule, alt);
                }
            } else {
                let label = match &alt.label {
                    Some(l) => owned(l.value.as_str()),
                    None => String::new(),
                };
                let sub = names::alternative(rule_name.as_str(), label.as_str());
                let body = self.expr(&alt.body, false);
                let ghost ca = *self;
                proof {
                    assert(lowering_in(ca, o, *rule, rule.alternatives@[a as int]));
                    bodies = bodies.push(body@);
                    cs = cs.push(ca);
                }
                let ghost c0 = self.collected_alternatives@;
                self.record_alternative(ri, a, owned(label.as_str()), owned(sub.as_str()));
                proof {
                    let c1 = self.collected_alternatives@;
                    assert(c1.drop_last() == c0);
                    assert(c1.take(c0.len() as int) =~= c0);
                    assert(c1.take(o.collected_alternatives@.len() as int) =~= c0.take(o.collected_alternatives@.len() as int));
                    assert forall|x: int| 0 <= x < a && has_subrule(rule.alternatives@[x]) implies #[trigger] lowered_in(
                        *ast,
                        c1,
                        ri as int,
                        x,
                    ) by {
                        lemma_lowered_prefix(*ast, c0, c1, ri as int, x);
                    }
                    assert(from_alternative(*ast, c1[c1.len() - 1], ri as int, a as int));
                    assert(lowered_in(*ast, c1, ri as int, a as int));
                }
                subrules.push(crate::text::cat5(sub.as_str(), " = { ", body.as_str(), " }", ""));
                variants.push(LoweredVariant::Labelled { label, pest_rule: owned(sub.as_str()) });
                alts.push(sub);
            }
            proof {
                reveal_strlit("");
                let al = rule.alternatives@;
                let bl = b0;
                assert(bodies.len() == a + 1);
                assert forall|x: int| 0 <= x < a implies #[trigger] bodies[x] == bl[x] by {}
                lemma_items_prefix(rn, al, bodies, bl, a as int);
                assert(alts@.last()@ == if has_subrule(al[a as int]) {
                    rn + "_"@ + label_text(al[a as int])
                } else {
                    bodies[a as int]
                });
                assert(crate::codegen::drift::views(alts@) =~= crate::codegen::drift::views(alts0).push(alts@.last()@));
                assert(crate::codegen::drift::views(alts@) =~= choice_items_upto(rn, al, bodies, a + 1));
                assert(crate::codegen::drift::views(subrules@) =~= subrules_upto(rn, al, bodies, a + 1)) by {
                    if has_subrule(al[a as int]) {
                        assert(crate::codegen::drift::views(subrules@) =~= crate::codegen::drift::views(subs0).push(subrules@.last()@));
                    }
                }
                assert forall|b: int| 0 <= b < a + 1 implies lowering_in(#[trigger] cs[b], o, *rule, rule.alternatives@[b])
                    && bodies[b] == pest_of(rule.alternatives@[b].body, false, cs[b]) by {
                    if b < a {
                        assert(cs[b] == cs0[b]);
                        assert(bodies[b] == bl[b]);
                    }
                }
            }
            self.current_label = None;
            a = a + 1;
        }

        proof {
            assert(bodies_in(bodies, cs, o, *rule));
        }
        (alts, subrules, variants, Ghost(bodies), Ghost(cs))
    }

    #[verifier::rlimit(100)]
    #[verifier::spinoff_prover]
    fn emit_rule(&mut self, out: &mut String, ri: usize)
        requires
            ri < old(self).ast.rules@.len(),
            alternatives_faithful(*old(self).ast, old(self).collected_alternatives@),
        ensures
            alternatives_faithful(*final(self).ast, final(self).collected_alternatives@),
            final(self).ast == old(self).ast,
            final(out)@.len() > old(out)@.len(),
            final(out)@.take(old(out)@.len() as int) == old(out)@,
            final(self).collected_alternatives@.len() >= old(self).collected_alternatives@.len(),
            final(self).collected_alternatives@.take(old(self).collected_alternatives@.len() as int)
                == old(self).collected_alternatives@,
            forall|i: int|
                0 <= i < old(self).ast.rules@[ri as int].alternatives@.len() && has_subrule(
                    old(self).ast.rules@[ri as int].alternatives@[i],
                ) ==> #[trigger] lowered_in(*old(self).ast, final(self).collected_alternatives@, ri as int, i),
            ({
                let rule = old(self).ast.rules@[ri as int];
                let rn = pest_name_spec(*old(self).res, rule.name.value@);
                exists|bodies: Seq<Seq<char>>, cs: Seq<Ctx>|
                    #![trigger bodies_in(bodies, cs, *old(self), rule)]
                    bodies_in(bodies, cs, *old(self), rule) && if single_rule(*old(self).ast, rule) {
                        final(out)@ == old(out)@ + rn + " = "@ + modifier_text(rule.silent) + "{ "@ + bodies[0] + " }\n"@
                    } else if recovered(*old(self).ast, rule.name.value@) {
                        exists|ok: Seq<char>, err: Seq<char>|
                            final(out)@ == old(out)@ + rn + " = { "@ + ok + " | "@ + err + " }\n"@ + choice_rule_text(
                                ok,
                                rn,
                                rule,
                                bodies,
                            )
                    } else {
                        final(out)@ == old(out)@ + choice_rule_text(rn, rn, rule, bodies)
                    }
            }),
    {
        let ast = self.ast;
        let rule = &ast.rules[ri];
        let ghost o = *self;
        let ghost out0 = out@;
        proof { reveal_strlit(""); }
        self.current_rule = Some(owned(rule.name.value.as_str()));
        let rule_name = self.res.pest_name(rule.name.value.as_str());
        let ghost rn = rule_name@;
        let mut body_name = owned(rule_name.as_str());

        // Recovery lives in the grammar: the real body moves aside and the
        // rule becomes a choice between it and a node that swallows text up
        // to a sync point.
        let recovery = self.find_recovery(rule.name.value.as_str());
        proof {
            if recovery is Some {
                assert(recovered(*ast, rule.name.value@));
            }
        }
        let ghost head_ok: Seq<char> = Seq::empty();
        let ghost head_err: Seq<char> = Seq::empty();
        match recovery {
            Some(k) => {
                let rec = &ast.recovers[k];
                let ok = self.alloc.allocate(names::ok(rule_name.as_str()).as_str());
                let err = self.alloc.allocate(names::error(rule_name.as_str()).as_str());
                let sync = self.expr(&rec.sync, false);
                // `+` consumes at least one character, so the error node can
                // never match empty and spin a repetition forever.
                let mut line = owned(err.as_str());
                line.append(" = { (!(");
                line.append(sync.as_str());
                line.append(") ~ ANY)+ ~ (");
                line.append(sync.as_str());
                line.append(")? }");
                self.generated.push(line);
                out.append(rule_name.as_str());
                out.append(" = { ");
                out.append(ok.as_str());
                out.append(" | ");
                out.append(err.as_str());
                out.append(" }\n");
                proof {
                    head_ok = ok@;
                    head_err = err@;
                }
                self.recoveries.push(Recovery { rule: owned(rule.name.value.as_str()), error_rule: err });
                body_name = ok;
            },
            None => {},
        }
        let ghost out1 = out@;

        // One labelled alternative needs no sub-rule: the rule is the
        // alternative.
        let single = recovery.is_none() && rule.alternatives.len() == 1 && match &rule.alternatives[0].label {
            Some(l) => !str_eq(l.value.as_str(), "pass"),
            None => false,
        };
        proof { reveal_strlit("pass"); }
        if single {
            let alt = &rule.alternatives[0];
            let label = match &alt.label {
                Some(l) => owned(l.value.as_str()),
                None => String::new(),
            };
            self.current_label = Some(owned(label.as_str()));
            let body = self.expr(&alt.body, false);
            let ghost c0 = *self;
            self.current_label = None;
            let ghost cc0 = self.collected_alternatives@;
            self.record_alternative(ri, 0, label, owned(rule_name.as_str()));
            proof {
                let cc1 = self.collected_alternatives@;
                assert(cc1.drop_last() == cc0);
                assert(cc1.take(cc0.len() as int) =~= cc0);
                assert(from_alternative(*ast, cc1[cc1.len() - 1], ri as int, 0));
                assert(lowered_in(*ast, cc1, ri as int, 0));
            }
            self.rule_shapes.push(
                LoweredRule {
                    name: owned(rule.name.value.as_str()),
                    pest_rule: owned(rule_name.as_str()),
                    shape: RuleShape::Single { pest_rule: owned(rule_name.as_str()) },
                    recovers: false,
                },
            );
            let modifier = if rule.silent { "_" } else { "" };
            out.append(rule_name.as_str());
            out.append(" = ");
            out.append(modifier);
            out.append("{ ");
            out.append(body.as_str());
            out.append(" }\n");
            self.current_rule = None;
            proof {
                let bodies = seq![body@];
                assert(lowering_in(c0, o, *rule, rule.alternatives@[0]));
                assert(bodies[0] == pest_of(rule.alternatives@[0].body, false, c0));
                let cs1 = seq![c0];
                assert(bodies_in(bodies, cs1, o, *rule));
                assert(single_rule(*ast, *rule));
                assert(out@ =~= out0 + rn + " = "@ + modifier_text(rule.silent) + "{ "@ + bodies[0] + " }\n"@);
                assert(out@.take(out0.len() as int) =~= out0);
                reveal_strlit(" = ");
                assert(out@.len() > out0.len());
            }
            return;
        }
        proof {
            assert(!single_rule(*ast, *rule));
        }
        let ghost before_alts = *self;

        let (alts, subrules, mut variants, Ghost(bodies), Ghost(cs)) = self.lower_alternatives(ri, &rule_name);
        proof {
            lemma_bodies_in_same(bodies, cs, before_alts, o, *rule);
        }

        // One transparent alternative is an alias, not a choice.
        let alias = variants.len() == 1 && match &variants[0] {
            LoweredVariant::Transparent { .. } => true,
            _ => false,
        };
        let shape = if alias {
            match variants.pop() {
                Some(LoweredVariant::Transparent { child }) => RuleShape::Alias { child },
                _ => RuleShape::Choice(Vec::new()),
            }
        } else {
            RuleShape::Choice(variants)
        };
        self.rule_shapes.push(
            LoweredRule {
                name: owned(rule.name.value.as_str()),
                pest_rule: owned(rule_name.as_str()),
                shape,
                recovers: recovery.is_some(),
            },
        );

        // A rule whose alternatives became sub-rules is a pass-through: its
        // pair has one child, which carries the handler.
        if subrules.len() > 0 {
            self.wrapper_rules.push(owned(body_name.as_str()));
        }
        let modifier = if rule.silent { "_" } else { "" };
        let ghost out2 = out@;
        out.append(body_name.as_str());
        out.append(" = ");
        out.append(modifier);
        out.append("{ ");
        out.append(join(&alts, " | ").as_str());
        out.append(" }\n");
        let ghost out3 = out@;
        let ghost subs = subrules_upto(rn, rule.alternatives@, bodies, rule.alternatives@.len() as int);
        let mut k: usize = 0;
        proof { assert(subs.take(0) =~= Seq::<Seq<char>>::empty()); }
        while k < subrules.len()
            invariant
                k <= subrules@.len(),
                crate::codegen::drift::views(subrules@) == subs,
                out@ == out3 + lines_of(subs.take(k as int)),
            decreases subrules@.len() - k,
        {
            out.append(subrules[k].as_str());
            push_char(out, '\n');
            proof {
                reveal_strlit("\n");
                assert(subs.take(k + 1).drop_last() =~= subs.take(k as int));
                assert(subs[k as int] == subrules@[k as int]@);
            }
            k = k + 1;
        }
        proof {
            assert(subs.take(subs.len() as int) =~= subs);
            assert(bodies.len() == rule.alternatives@.len());
            assert(bodies_in(bodies, cs, o, *rule));
            let text = choice_rule_text(body_name@, rn, *rule, bodies);
            assert(out@ =~= out2 + text);
            if recovery is Some {
                assert(out2 == out0 + rn + " = { "@ + head_ok + " | "@ + head_err + " }\n"@);
                assert(body_name@ == head_ok);
                assert(out@ =~= out0 + rn + " = { "@ + head_ok + " | "@ + head_err + " }\n"@ + choice_rule_text(
                    head_ok,
                    rn,
                    *rule,
                    bodies,
                ));
                assert(recovered(*ast, rule.name.value@));
                assert(exists|ok: Seq<char>, err: Seq<char>|
                    out@ == out0 + rn + " = { "@ + ok + " | "@ + err + " }\n"@ + choice_rule_text(ok, rn, *rule, bodies));
            } else {
                assert(body_name@ == rn);
                assert(out2 == out0);
                assert(out@ == out0 + choice_rule_text(rn, rn, *rule, bodies));
                assert(!recovered(*ast, rule.name.value@));
            }
            assert(rn == pest_name_spec(*o.res, rule.name.value@));
            assert(*rule == o.ast.rules@[ri as int]);
            assert(out@ =~= out2 + text);
            assert(out2.take(out0.len() as int) =~= out0);
            assert(out@.take(out0.len() as int) =~= out0);
            reveal_strlit(" = ");
            assert(text.len() > 0);
            assert(out@.len() > out0.len());
        }
        self.current_rule = None;
    }

    /// A transparent alternative stands for its one child, so its body must
    /// produce exactly one node of some rule; anything else is reported.
    fn check_transparent(&mut self, rule: &RuleDef, alt: &Alternative)
        ensures
            keeps_words(*old(self), *final(self)),
            same_frame(*old(self), *final(self)),
            shape::transparent_ok(shape::count_spec(*old(self).ast, old(self).res.defined@, alt.body, Seq::empty()))
                ==> final(self).diagnostics@ == old(self).diagnostics@,
            !shape::transparent_ok(shape::count_spec(*old(self).ast, old(self).res.defined@, alt.body, Seq::empty()))
                ==> final(self).diagnostics@.len() == old(self).diagnostics@.len() + 1
                && final(self).diagnostics@.drop_last() == old(self).diagnostics@
                && final(self).diagnostics@.last().severity == Severity::Error,
            final(self).fold_keywords == old(self).fold_keywords,
            final(self).keyword_rules == old(self).keyword_rules,
            final(self).reserved_words == old(self).reserved_words,
            final(self).guarded_words == old(self).guarded_words,
    {
        let n = shape::count_nodes(self.ast, self.res, &alt.body);
        match shape::transparency_problem(&n) {
            Some(problem) => {
                let mut msg = String::new();
                let is_pass = alt.is_pass();
                if is_pass {
                    msg.append("this `-> pass` alternative of `");
                    msg.append(rule.name.value.as_str());
                    msg.append("` stands for its one child node, but it produces ");
                } else {
                    msg.append("this alternative of `");
                    msg.append(rule.name.value.as_str());
                    msg.append("` has no label, so it stands for its one child node, but it produces ");
                }
                msg.append(problem.as_str());
                let ghost d0 = self.diagnostics@;
                self.diagnostics.push(
                    Diagnostic::error(msg.as_str()).at(alt.span).help(
                        "give this one a `-> label` so it has a node and a handler of its own",
                    ),
                );
                proof { assert(self.diagnostics@.drop_last() =~= d0); }
            },
            None => {},
        }
    }

    /// The single rule a transparent alternative yields, if there is one:
    /// `"(" inner:expr ")"` yields `expr`.
    fn sole_rule(&self, e: &Expr) -> (r: Option<String>)
        ensures
            opt_string(r) == (if rules_in(*e, self.res.defined@).len() == 1 {
                Some(rules_in(*e, self.res.defined@)[0])
            } else {
                None
            }),
    {
        let mut found: Vec<String> = Vec::new();
        self.walk_rules(e, &mut found);
        if found.len() == 1 {
            Some(owned(found[0].as_str()))
        } else {
            None
        }
    }

    /// Every rule reference in `e`, skipping tokens, literals and
    /// lookaheads, which carry no node the AST would name.
    fn walk_rules(&self, e: &Expr, found: &mut Vec<String>)
        ensures
            strs(final(found)@) == strs(old(found)@) + rules_in(*e, self.res.defined@),
        decreases e,
    {
        let ghost f0 = strs(found@);
        let ghost d = self.res.defined@;
        proof { reveal_strlit("expr"); }
        match &e.kind {
            ExprKind::Ref(name) => {
                match self.res.kind(name.as_str()) {
                    Some(DefKind::Rule) => found.push(owned(name.as_str())),
                    None => if str_eq(name.as_str(), "expr") {
                        found.push(owned(name.as_str()));
                    },
                    _ => {},
                }
                proof { assert(strs(found@) =~= f0 + rules_in(*e, d)); }
            },
            ExprKind::Sequence(parts) | ExprKind::Choice(parts) => {
                let mut i: usize = 0;
                proof {
                    assert(decreases_to!(e => *parts));
                    assert(parts@.take(0) =~= Seq::<Expr>::empty());
                    assert(strs(found@) =~= f0 + rules_in_seq(parts@.take(0), d));
                }
                while i < parts.len()
                    invariant
                        decreases_to!(e => *parts),
                        i <= parts@.len(),
                        d == self.res.defined@,
                        strs(found@) == f0 + rules_in_seq(parts@.take(i as int), d),
                    decreases parts@.len() - i,
                {
                    proof {
                        assert(decreases_to!(*parts => parts[i as int]));
                        assert(parts@.take(i + 1).drop_last() =~= parts@.take(i as int));
                        assert(parts@.take(i + 1).last() == parts@[i as int]);
                    }
                    self.walk_rules(&parts[i], found);
                    proof { assert(strs(found@) =~= f0 + rules_in_seq(parts@.take(i + 1), d)); }
                    i = i + 1;
                }
                proof { assert(parts@.take(parts@.len() as int) =~= parts@); }
            },
            ExprKind::Repeat { inner, .. } | ExprKind::Bind { inner, .. } => self.walk_rules(inner, found),
            ExprKind::Lookahead { .. } => {
                proof { assert(strs(found@) =~= f0 + rules_in(*e, d)); }
            },
            ExprKind::Literal { .. } | ExprKind::CharRange { .. } => {
                proof { assert(strs(found@) =~= f0 + rules_in(*e, d)); }
            },
        }
    }

    fn record_alternative(&mut self, ri: usize, ai: usize, label: String, pest_rule: String)
        requires
            ri < old(self).ast.rules@.len(),
            ai < old(self).ast.rules@[ri as int].alternatives@.len(),
            alternatives_faithful(*old(self).ast, old(self).collected_alternatives@),
        ensures
            from_alternative(*old(self).ast, final(self).collected_alternatives@.last(), ri as int, ai as int),
            keeps_words(*old(self), *final(self)),
            alternatives_faithful(*final(self).ast, final(self).collected_alternatives@),
            final(self).ast == old(self).ast,
            final(self).collected_alternatives@.len() == old(self).collected_alternatives@.len() + 1,
            final(self).collected_alternatives@.drop_last() == old(self).collected_alternatives@,
            final(self).collected_alternatives@.last().rule@ == old(self).ast.rules@[ri as int].name.value@,
            final(self).collected_alternatives@.last().label == label,
            final(self).collected_alternatives@.last().pest_rule == pest_rule,
            final(self).collected_alternatives@.last().source@ == crate::syntax::render::alternative_text(
                old(self).ast.rules@[ri as int].alternatives@[ai as int],
            ),
            final(self).collected_alternatives@.last().bindings@.map_values(|b: Binding| binding_view(b))
                == bindings_from(
                shape::sites(old(self).ast.rules@[ri as int].alternatives@[ai as int].body),
                old(self).ast.rules@[ri as int].alternatives@[ai as int].body,
                *old(self).res,
            ),
            final(self).collected_alternatives@.last().place == old(self).ast.rules@[ri as int].alternatives@[ai as int].place,
            final(self).diagnostics@.len() == old(self).diagnostics@.len() + idle_lazies(
                final(self).collected_alternatives@.last().bindings@,
            ),
            final(self).diagnostics@.take(old(self).diagnostics@.len() as int) == old(self).diagnostics@,
    {
        let ast = self.ast;
        let rule = &ast.rules[ri];
        let alt = &rule.alternatives[ai];
        let bindings = collect_bindings(&alt.body, self.res);
        self.check_lazy(rule, &bindings, alt);
        let la = LoweredAlternative {
            rule: owned(rule.name.value.as_str()),
            label,
            pest_rule,
            source: crate::syntax::render::alternative_source(alt),
            bindings,
            place: alt.place,
        };
        let ghost before = self.collected_alternatives@;
        proof {
            assert(from_alternative(*ast, la, ri as int, ai as int));
        }
        self.collected_alternatives.push(la);
        proof {
            assert(self.collected_alternatives@.drop_last() =~= before);
            assert forall|k: int| 0 <= k < self.collected_alternatives@.len() implies #[trigger] alternative_faithful(
                *ast,
                self.collected_alternatives@[k],
            ) by {
                if k < before.len() {
                    assert(self.collected_alternatives@[k] == before[k]);
                } else {
                    assert(self.collected_alternatives@[k] == la);
                }
            }
        }
    }

    /// Rejects `lazy` on a binding with no rule to defer.
    fn check_lazy(&mut self, rule: &RuleDef, bindings: &Vec<Binding>, alt: &Alternative)
        ensures
            keeps_words(*old(self), *final(self)),
            same_frame(*old(self), *final(self)),
            final(self).diagnostics@.len() == old(self).diagnostics@.len() + idle_lazies(bindings@),
            final(self).diagnostics@.take(old(self).diagnostics@.len() as int) == old(self).diagnostics@,
            forall|k: int|
                old(self).diagnostics@.len() <= k < final(self).diagnostics@.len()
                    ==> #[trigger] final(self).diagnostics@[k].severity == Severity::Error,
            final(self).fold_keywords == old(self).fold_keywords,
            final(self).keyword_rules == old(self).keyword_rules,
            final(self).reserved_words == old(self).reserved_words,
            final(self).guarded_words == old(self).guarded_words,
    {
        let ghost d0 = self.diagnostics@;
        let mut i: usize = 0;
        proof {
            assert(bindings@.take(0) =~= Seq::<Binding>::empty());
            assert(d0.take(d0.len() as int) =~= d0);
        }
        while i < bindings.len()
            invariant
                same_frame(*old(self), *self),
                d0 == old(self).diagnostics@,
                i <= bindings@.len(),
                self.diagnostics@.len() == d0.len() + idle_lazies(bindings@.take(i as int)),
                self.diagnostics@.take(d0.len() as int) == d0,
                forall|k: int| d0.len() <= k < self.diagnostics@.len() ==> #[trigger] self.diagnostics@[k].severity == Severity::Error,
                self.fold_keywords == old(self).fold_keywords,
                self.keyword_rules == old(self).keyword_rules,
                self.reserved_words == old(self).reserved_words,
                self.guarded_words == old(self).guarded_words,
                keeps_words(*old(self), *self),
            decreases bindings@.len() - i,
        {
            proof {
                assert(bindings@.take(i + 1).drop_last() =~= bindings@.take(i as int));
                assert(bindings@.take(i + 1).last() == bindings@[i as int]);
            }
            let ghost before = self.diagnostics@;
            let b = &bindings[i];
            if b.lazy && b.rule_ref.is_none() {
                proof { assert(before.take(d0.len() as int) == d0); }
                self.diagnostics.push(
                    Diagnostic::error(cat3("`lazy` on `", b.name.as_str(), "` has nothing to defer").as_str()).at(
                        alt.span,
                    ).note(
                        "`lazy` defers evaluating a sub-rule; a token is already just text",
                        Some(rule.name.span),
                    ).help("drop `lazy`, or bind a rule instead of a token"),
                );
                proof {
                    assert(self.diagnostics@.take(d0.len() as int) =~= before.take(d0.len() as int));
                }
            }
            i = i + 1;
        }
        proof { assert(bindings@.take(bindings@.len() as int) =~= bindings@); }
    }

    // -----------------------------------------------------------------------
    // Expressions
    // -----------------------------------------------------------------------

    /// Emits a pest fragment. `fold` forces literals to case-insensitive
    /// form, which is how a `case-insensitive` token reaches its contents.
    fn expr(&mut self, e: &Expr, fold: bool) -> (s: String)
        ensures
            same_frame(*old(self), *final(self)),
            same_words(*old(self), *final(self)),
            keywords_ready(*e, *final(self)),
            s@ == pest_of(*e, fold, *final(self)),
            // A negative lookahead is written `!`, a positive one `&`, before
            // the grouped fragment of its operand.
            e.kind matches ExprKind::Lookahead { inner, negative } ==> s@ == seq![
                if negative {
                    '!'
                } else {
                    '&'
                },
            ] + pest_syntax::group_spec(pest_of(*inner, fold, *final(self))),
            // A sequence's items are joined by ` ~ `, a choice's by ` | `.
            e.kind matches ExprKind::Sequence(parts) ==> s@ == joined(
                seq_items(parts@, fold, *final(self)),
                seq![' ', '~', ' '],
            ),
            e.kind matches ExprKind::Choice(parts) ==> s@ == joined(
                choice_items(parts@, fold, *final(self)),
                seq![' ', '|', ' '],
            ),
            // A repetition is its grouped operand and the mark of its kind.
            e.kind matches ExprKind::Repeat { inner, kind } ==> s@ == pest_syntax::group_spec(
                pest_of(*inner, fold, *final(self)),
            ) + seq![repeat_mark(kind)],
            // A binding tags its operand `#name = ..`; over a repetition the tag
            // goes inside, `(#name = ..)*`.
            e.kind matches ExprKind::Bind { name, inner, .. } ==> (match inner.kind {
                ExprKind::Repeat { inner: repeated, kind } => s@ == seq!['(', '#'] + name.value@ + seq![' ', '=', ' ']
                    + pest_syntax::group_spec(pest_of(*repeated, fold, *final(self))) + seq![')', repeat_mark(kind)],
                _ => s@ == seq!['#'] + name.value@ + seq![' ', '=', ' '] + pest_syntax::group_spec(
                    pest_of(*inner, fold, *final(self)),
                ),
            }),
            // A plain literal is written as a pest string: folded (`^"..."`)
            // when the literal is `^"..."` itself or folding is asked for.
            e.kind matches ExprKind::Literal { value, case_insensitive } ==> (!is_keyword(*final(self), value@)
                && expectation_in(*final(self), value@) is None ==> (if case_insensitive || fold {
                s@ == pest_syntax::string_spec(value@, true)
            } else {
                s@ == pest_syntax::string_spec(value@, final(self).fold_keywords)
            })),
        decreases e,
    {
        proof {
            reveal_strlit(" ~ ");
            reveal_strlit(" | ");
            reveal_strlit("(#");
            reveal_strlit(" = ");
            reveal_strlit(")");
            reveal_strlit("#");
            reveal_strlit("*");
            reveal_strlit("+");
            reveal_strlit("?");
            assert(" ~ "@ =~= seq![' ', '~', ' ']);
            assert(" | "@ =~= seq![' ', '|', ' ']);
            assert("(#"@ =~= seq!['(', '#']);
            assert(" = "@ =~= seq![' ', '=', ' ']);
            assert(")"@ =~= seq![')']);
            assert("#"@ =~= seq!['#']);
            assert("*"@ =~= seq!['*']);
            assert("+"@ =~= seq!['+']);
            assert("?"@ =~= seq!['?']);
        }
        match &e.kind {
            ExprKind::Sequence(parts) | ExprKind::Choice(parts) => {
                let is_seq = match &e.kind {
                    ExprKind::Sequence(_) => true,
                    _ => false,
                };
                let mut out: Vec<String> = Vec::new();
                let mut i: usize = 0;
                proof {
                    assert(decreases_to!(e => *parts));
                    assert(parts@.take(0) =~= Seq::<Expr>::empty());
                    assert(strs(out@) =~= Seq::<Seq<char>>::empty());
                }
                while i < parts.len()
                    invariant
                        same_frame(*old(self), *self),
                        same_words(*old(self), *self),
                        decreases_to!(e => *parts),
                        i <= parts@.len(),
                        is_seq ==> strs(out@) == seq_items(parts@.take(i as int), fold, *self),
                        !is_seq ==> strs(out@) == choice_items(parts@.take(i as int), fold, *self),
                        keywords_ready_seq(parts@.take(i as int), *self),
                    decreases parts@.len() - i,
                {
                    proof {
                        assert(decreases_to!(*parts => parts[i as int]));
                        assert(parts@.take(i + 1).drop_last() =~= parts@.take(i as int));
                        assert(parts@.take(i + 1).last() == parts@[i as int]);
                    }
                    let ghost before = *self;
                    let f = self.expr(&parts[i], fold);
                    proof {
                        lemma_same_words_trans(*old(self), before, *self);
                        lemma_items_stable(parts@.take(i as int), fold, before, *self);
                    }
                    let wrapped = if is_seq {
                        match &parts[i].kind {
                            ExprKind::Choice(_) => cat3("(", f.as_str(), ")"),
                            _ => f,
                        }
                    } else {
                        f
                    };
                    let ghost o0 = out@;
                    out.push(wrapped);
                    proof { assert(strs(out@) =~= strs(o0).push(wrapped@)); }
                    i = i + 1;
                }
                proof {
                    assert(parts@.take(parts@.len() as int) =~= parts@);
                    assert(keywords_ready(*e, *self) == keywords_ready_seq(parts@, *self));
                }
                join(&out, if is_seq { " ~ " } else { " | " })
            },
            ExprKind::Repeat { inner, kind } => {
                let f = self.expr(inner, fold);
                cat2(pest_syntax::group(f.as_str()).as_str(), repeat_suffix(*kind))
            },
            ExprKind::Lookahead { inner, negative } => {
                let f = self.expr(inner, fold);
                proof {
                    reveal_strlit("!");
                    reveal_strlit("&");
                }
                cat2(if *negative { "!" } else { "&" }, pest_syntax::group(f.as_str()).as_str())
            },
            // A binding becomes a node tag on a single term. Wrapping a
            // repetition, the tag goes inside it, `(#name = x)*`, so every
            // iteration is tagged rather than the repetition once.
            ExprKind::Bind { name, inner, .. } => match &inner.kind {
                ExprKind::Repeat { inner: repeated, kind } => {
                    let body = self.expr(repeated, fold);
                    let mut s = owned("(#");
                    s.append(name.value.as_str());
                    s.append(" = ");
                    s.append(pest_syntax::group(body.as_str()).as_str());
                    s.append(")");
                    s.append(repeat_suffix(*kind));
                    proof {
                        assert(keywords_ready(**inner, *self));
                        assert(s@ =~= "(#"@ + name.value@ + " = "@ + pest_syntax::group_spec(body@) + ")"@
                            + crate::syntax::render::suffix_text(*kind));
                    }
                    s
                },
                _ => {
                    let f = self.expr(inner, fold);
                    let r = crate::text::cat5("#", name.value.as_str(), " = ", pest_syntax::group(f.as_str()).as_str(), "");
                    proof {
                        reveal_strlit("");
                        assert(r@ =~= "#"@ + name.value@ + " = "@ + pest_syntax::group_spec(f@));
                    }
                    r
                },
            },
            ExprKind::Literal { value, case_insensitive } => {
                let ci = *case_insensitive || fold || self.fold_keywords;
                // A reserved keyword needs its boundary guard; an `expect`
                // literal its own rule. The keyword wins.
                match self.keyword_for(value.as_str()) {
                    Some(rule) => return rule,
                    None => {},
                }
                match self.expectation_for(value.as_str()) {
                    Some(rule) => return rule,
                    None => {},
                }
                pest_syntax::string(value.as_str(), ci)
            },
            ExprKind::CharRange { lo, hi } => match pest_syntax::char_range(lo.as_str(), hi.as_str()) {
                Some(r) => r,
                None => {
                    self.diagnostics.push(
                        Diagnostic::error("a character range needs single characters on both sides").at(e.span).help(
                            "write `\"a\"..\"z\"`, not a multi-character string",
                        ),
                    );
                    owned("ANY")
                },
            },
            ExprKind::Ref(name) => self.res.pest_name(name.as_str()),
        }
    }

    /// If `literal` is a reserved or guarded word, the guarded rule that
    /// matches it, emitted on first use.
    fn keyword_for(&mut self, literal: &str) -> (r: Option<String>)
        ensures
            same_frame(*old(self), *final(self)),
            (r is Some) == (is_word_of(old(self).reserved_words@, literal@) || is_word_of(
                old(self).guarded_words@,
                literal@,
            )),
            r is None ==> final(self).keyword_rules == old(self).keyword_rules,
            r matches Some(n) ==> lookup(final(self).keyword_rules@, literal@) matches Some(m) && m@ == n@,
            r is Some && lookup(old(self).keyword_rules@, literal@) is Some ==> final(self).keyword_rules
                == old(self).keyword_rules,
            forall|k: Seq<char>|
                k != literal@ ==> #[trigger] lookup(final(self).keyword_rules@, k) == lookup(old(self).keyword_rules@, k),
            final(self).reserved_words == old(self).reserved_words,
            final(self).guarded_words == old(self).guarded_words,
            final(self).fold_keywords == old(self).fold_keywords,
            final(self).diagnostics == old(self).diagnostics,
            same_words(*old(self), *final(self)),
    {
        let mut token: Option<String> = None;
        let mut i: usize = 0;
        while i < self.reserved_words.len() && token.is_none()
            invariant
                same_frame(*old(self), *self),
                self.reserved_words == old(self).reserved_words,
                i <= self.reserved_words@.len(),
                token is None ==> forall|j: int| 0 <= j < i ==> !strs(#[trigger] self.reserved_words@[j].1@).contains(literal@),
                token is Some ==> is_word_of(self.reserved_words@, literal@),
            decreases self.reserved_words@.len() - i,
        {
            if contains_str(&self.reserved_words[i].1, literal) {
                token = Some(owned(self.reserved_words[i].0.as_str()));
            }
            i = i + 1;
        }
        let ghost in_reserved = token is Some;
        let mut i: usize = 0;
        while i < self.guarded_words.len() && token.is_none()
            invariant
                same_frame(*old(self), *self),
                self.guarded_words == old(self).guarded_words,
                i <= self.guarded_words@.len(),
                in_reserved == is_word_of(self.reserved_words@, literal@),
                in_reserved ==> token is Some,
                token is None ==> forall|j: int| 0 <= j < i ==> !strs(#[trigger] self.guarded_words@[j].1@).contains(literal@),
                token is Some ==> (in_reserved || is_word_of(self.guarded_words@, literal@)),
            decreases self.guarded_words@.len() - i,
        {
            if contains_str(&self.guarded_words[i].1, literal) {
                token = Some(owned(self.guarded_words[i].0.as_str()));
            }
            i = i + 1;
        }
        let token = match token {
            Some(t) => t,
            None => return None,
        };
        match find_index(&self.keyword_rules, literal) {
            Some(k) => return Some(owned(self.keyword_rules[k].1.as_str())),
            None => {},
        }
        let ghost kr0 = self.keyword_rules@;
        let cont = self.continuation_rule(token.as_str());
        let base = cat3(names::PREFIX, "kw_", names::symbolic(literal).as_str());
        let name = self.alloc.allocate(base.as_str());
        let lit = pest_syntax::string(literal, self.fold_keywords);
        let mut line = owned(name.as_str());
        line.append(" = @{ ");
        line.append(lit.as_str());
        line.append(" ~ !");
        line.append(cont.as_str());
        line.append(" }");
        self.generated.push(line);
        let e = (owned(literal), owned(name.as_str()));
        proof {
            lemma_lookup_push(kr0, literal@, e.1);
            assert forall|k: Seq<char>| k != literal@ implies #[trigger] lookup(kr0.push(e), k) == lookup(kr0, k) by {
                lemma_lookup_push_other(kr0, e, k);
            }
        }
        self.keyword_rules.push(e);
        Some(name)
    }
}

/// `a` goes before `b` in a word alternation: longer (in bytes) first,
/// ties in string order.
pub open spec fn word_before(a: Seq<char>, b: Seq<char>) -> bool {
    crate::text::utf8_bytes(a) > crate::text::utf8_bytes(b) || (crate::text::utf8_bytes(a)
        == crate::text::utf8_bytes(b) && crate::text::seq_less(a, b))
}

proof fn lemma_word_before_trans(a: Seq<char>, b: Seq<char>, c: Seq<char>)
    requires
        word_before(a, b),
        word_before(b, c),
    ensures
        word_before(a, c),
{
    if crate::text::utf8_bytes(a) == crate::text::utf8_bytes(b) && crate::text::utf8_bytes(b)
        == crate::text::utf8_bytes(c) {
        crate::text::lemma_seq_less_trans(a, b, c);
    }
}

fn goes_before_word(a: &str, b: &str) -> (r: bool)
    ensures
        r == word_before(a@, b@),
{
    let la = crate::text::byte_len(a);
    let lb = crate::text::byte_len(b);
    la > lb || (la == lb && crate::text::str_less(a, b))
}

/// Words longest first (in bytes), ties in string order; each word kept.
fn sort_words(words: &Vec<String>) -> (r: Vec<String>)
    ensures
        strs(r@).to_multiset() == strs(words@).to_multiset(),
        forall|i: int, j: int| 0 <= i < j < r@.len() ==> !word_before(#[trigger] r@[j]@, #[trigger] r@[i]@),
{
    let mut r: Vec<String> = Vec::new();
    let mut k: usize = 0;
    proof {
        assert(strs(words@.take(0)) =~= Seq::<Seq<char>>::empty());
        assert(strs(r@) =~= Seq::<Seq<char>>::empty());
    }
    while k < words.len()
        invariant
            k <= words@.len(),
            strs(r@).to_multiset() == strs(words@.take(k as int)).to_multiset(),
            forall|i: int, j: int| 0 <= i < j < r@.len() ==> !word_before(#[trigger] r@[j]@, #[trigger] r@[i]@),
        decreases words@.len() - k,
    {
        let w = words[k].as_str();
        let mut pos: usize = 0;
        while pos < r.len() && !goes_before_word(w, r[pos].as_str())
            invariant
                pos <= r@.len(),
                forall|m: int| 0 <= m < pos ==> !word_before(w@, #[trigger] r@[m]@),
            decreases r@.len() - pos,
        {
            pos = pos + 1;
        }
        let ghost old_r = r@;
        let ghost os = strs(old_r);
        proof {
            if pos < r@.len() {
                assert(word_before(w@, old_r[pos as int]@));
            }
        }
        r.insert(pos, owned(w));
        proof {
            assert(strs(r@) =~= os.insert(pos as int, w@));
            assert(strs(words@.take(k + 1)) =~= strs(words@.take(k as int)).push(w@));
            vstd::seq_lib::to_multiset_insert(os, pos as int, w@);
            vstd::seq_lib::to_multiset_build(strs(words@.take(k as int)), w@);
            assert forall|a: int, b: int| 0 <= a < b < r@.len() implies !word_before(
                #[trigger] r@[b]@,
                #[trigger] r@[a]@,
            ) by {
                if a < pos && b == pos {
                    assert(r@[a] == old_r[a]);
                } else if a == pos && b > pos {
                    assert(r@[b] == old_r[b - 1]);
                    if word_before(old_r[b - 1]@, w@) {
                        if b - 1 == pos {
                            crate::text::lemma_seq_less_asym(w@, old_r[pos as int]@);
                        } else {
                            lemma_word_before_trans(old_r[b - 1]@, w@, old_r[pos as int]@);
                        }
                    }
                } else if a < pos && b > pos {
                    assert(r@[a] == old_r[a]);
                    assert(r@[b] == old_r[b - 1]);
                } else if b < pos {
                    assert(r@[a] == old_r[a]);
                    assert(r@[b] == old_r[b]);
                } else {
                    assert(r@[a] == old_r[a - 1]);
                    assert(r@[b] == old_r[b - 1]);
                }
            }
        }
        k = k + 1;
    }
    proof { assert(words@.take(words@.len() as int) =~= words@); }
    r
}

/// The comment that opens every lowered grammar, naming it.
pub open spec fn lowered_header(ast: Ast) -> Seq<char> {
    "// Generated by NailHammer from the `"@ + match ast.grammar_name {
        Some(n) => n.value@,
        None => "grammar"@,
    } + "` grammar. DO NOT EDIT.\n// Edit the .nh source and re-run `nh build`.\n\n"@
}

/// Lowers a resolved grammar and operator table into pest source.
///
/// Every diagnostic of every step is collected; if any of them is an error
/// (an undefined reference, a transparent alternative that does not stand
/// for exactly one rule's node, an `expect` on no target, `lazy` with
/// nothing to defer, and the like) the result is the failure that carries
/// them, else the lowered grammar with the warnings. On success, the
/// source opens with a comment naming the grammar, every labelled
/// alternative of the grammar is lowered under its label, and every
/// lowered alternative comes from a labelled alternative of
/// the grammar, with one binding per name whose cardinality covers every
/// occurrence of the name.
#[verifier::spinoff_prover]
pub fn lower(ast: &Ast, table: &OperatorTable) -> (r: Result<Lowered, Errors>)
    ensures
        r matches Err(e) ==> has_error(e.0@),
        r matches Ok(l) ==> !has_error(l.diagnostics@) && alternatives_faithful(*ast, l.alternatives@),
        r matches Ok(l) ==> labelled_lowered(*ast, l.alternatives@, ast.rules@.len() as int),
        r matches Ok(l) ==> l.pest@.len() >= lowered_header(*ast).len() && l.pest@.take(lowered_header(*ast).len() as int)
            == lowered_header(*ast),
{
    let mut diagnostics: Vec<Diagnostic> = Vec::new();
    let has_table = table.atom_rule.is_some();
    let res = resolve::resolve(ast, has_table, &mut diagnostics);
    let fold_keywords = match &ast.keywords_case {
        Some(m) => m.value == CaseMode::Insensitive,
        None => false,
    };
    let mut ctx = Ctx {
        ast,
        table,
        res: &res,
        fold_keywords,
        reserved_words: Vec::new(),
        guarded_words: Vec::new(),
        keyword_rules: Vec::new(),
        emitted_continuations: Vec::new(),
        emitted_expr: false,
        wrapper_rules: Vec::new(),
        rule_shapes: Vec::new(),
        recoveries: Vec::new(),
        expectations: Vec::new(),
        expect_rules: Vec::new(),
        current_rule: None,
        current_label: None,
        generated: Vec::new(),
        alloc: names::Allocator::new(),
        collected_alternatives: Vec::new(),
        diagnostics,
    };

    ctx.collect_reserved_words();
    let mut body = String::new();
    ctx.collect_expectations();
    ctx.emit_skips(&mut body);
    ctx.emit_tokens(&mut body);
    ctx.emit_expr(&mut body);
    proof { assert(alternatives_faithful(*ast, ctx.collected_alternatives@)); }
    ctx.emit_rules(&mut body);

    let Ctx {
        emitted_expr,
        wrapper_rules,
        rule_shapes,
        recoveries,
        expectations,
        generated,
        collected_alternatives,
        diagnostics,
        ..
    } = ctx;

    if crate::operators::any_error_in(&diagnostics) {
        return Err(Errors(diagnostics));
    }

    let name = match &ast.grammar_name {
        Some(n) => n.value.as_str(),
        None => "grammar",
    };
    proof { reveal_strlit("grammar"); }
    let mut pest = owned("// Generated by NailHammer from the `");
    pest.append(name);
    pest.append("` grammar. DO NOT EDIT.\n// Edit the .nh source and re-run `nh build`.\n\n");
    let ghost head = pest@;
    proof { assert(head == lowered_header(*ast)); }
    let mut rest = body;
    if generated.len() > 0 {
        rest.append(
            "\n// ---------------------------------------------------------------------------\n// Generated support rules\n// ---------------------------------------------------------------------------\n\n",
        );
        let mut k: usize = 0;
        while k < generated.len()
            decreases generated@.len() - k,
        {
            rest.append(generated[k].as_str());
            push_char(&mut rest, '\n');
            k = k + 1;
        }
    }
    pest.append(rest.as_str());
    proof { assert(pest@.take(head.len() as int) =~= head); }
    Ok(
        Lowered {
            pest,
            diagnostics,
            alternatives: collected_alternatives,
            rules: rule_shapes,
            has_expr: emitted_expr,
            recoveries,
            expectations,
            wrapper_rules,
        },
    )
}

} // verus!
