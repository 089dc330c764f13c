//! The `.nh` abstract syntax tree.
//!
//! Every node carries a [`Span`], because duplicate definitions across imports
//! need two-location diagnostics.

use vstd::prelude::*;
use crate::syntax::source::{Span, Spanned};
use crate::text::str_eq;

verus! {

/// A parsed `.nh` file, or the flat merge of several.
#[derive(Debug)]
pub struct Ast {
    pub grammar_name: Option<Spanned<String>>,
    pub imports: Vec<Import>,
    pub uses: Vec<UsePreset>,
    pub keywords_case: Option<Spanned<CaseMode>>,
    pub precedence: Vec<PrecedenceBlock>,
    pub skips: Vec<SkipDef>,
    pub tokens: Vec<TokenDef>,
    pub reserved: Vec<ReservedDef>,
    pub guards: Vec<GuardDef>,
    pub boundaries: Vec<BoundaryDef>,
    pub rules: Vec<RuleDef>,
    pub recovers: Vec<RecoverDef>,
    pub expects: Vec<ExpectDef>,
    pub allows: Vec<AllowDef>,
}

impl Ast {
    /// Whether nothing at all has been declared.
    pub open spec fn is_blank(&self) -> bool {
        &&& self.grammar_name is None
        &&& self.imports@.len() == 0
        &&& self.uses@.len() == 0
        &&& self.keywords_case is None
        &&& self.precedence@.len() == 0
        &&& self.skips@.len() == 0
        &&& self.tokens@.len() == 0
        &&& self.reserved@.len() == 0
        &&& self.guards@.len() == 0
        &&& self.boundaries@.len() == 0
        &&& self.rules@.len() == 0
        &&& self.recovers@.len() == 0
        &&& self.expects@.len() == 0
        &&& self.allows@.len() == 0
    }

    pub fn blank() -> (a: Ast)
        ensures
            a.is_blank(),
    {
        Ast {
            grammar_name: None,
            imports: Vec::new(),
            uses: Vec::new(),
            keywords_case: None,
            precedence: Vec::new(),
            skips: Vec::new(),
            tokens: Vec::new(),
            reserved: Vec::new(),
            guards: Vec::new(),
            boundaries: Vec::new(),
            rules: Vec::new(),
            recovers: Vec::new(),
            expects: Vec::new(),
            allows: Vec::new(),
        }
    }
}

impl Default for Ast {
    fn default() -> (a: Ast)
        ensures
            a.is_blank(),
    {
        Ast::blank()
    }
}

#[derive(Debug)]
pub struct Import {
    pub path: Spanned<String>,
    pub span: Span,
}

#[derive(Debug)]
pub struct UsePreset {
    pub preset: Spanned<String>,
    pub span: Span,
}

#[derive(Clone, Copy, PartialEq, Eq, Structural, Debug)]
pub enum CaseMode {
    Insensitive,
    Sensitive,
}

#[derive(Debug)]
pub struct SkipDef {
    pub name: Spanned<String>,
    pub body: Expr,
    pub span: Span,
}

#[derive(Debug)]
pub struct TokenDef {
    pub name: Spanned<String>,
    /// `@` — atomic, producing no inner pairs.
    pub atomic: bool,
    /// Per-token half of the two case-folding knobs.
    pub case_insensitive: bool,
    pub body: Expr,
    pub span: Span,
}

#[derive(Debug)]
pub struct ReservedDef {
    /// The token these words are reserved *from*, e.g. `IDENT`.
    pub token: Spanned<String>,
    pub words: Vec<Spanned<String>>,
    pub span: Span,
}

/// `guard from IDENT { "atom" }` — boundary-guard without reserving.
#[derive(Debug)]
pub struct GuardDef {
    pub token: Spanned<String>,
    pub words: Vec<Spanned<String>>,
    pub span: Span,
}

/// `boundary IDENT = ALNUM | "_";` — overrides the derived continuation class.
#[derive(Debug)]
pub struct BoundaryDef {
    pub token: Spanned<String>,
    pub body: Expr,
    pub span: Span,
}

#[derive(Debug)]
pub struct RuleDef {
    pub name: Spanned<String>,
    /// `silent rule x = ...` — matches but produces no node.
    pub silent: bool,
    pub alternatives: Vec<Alternative>,
    pub span: Span,
}

#[derive(Debug)]
pub struct Alternative {
    pub body: Expr,
    /// `-> label`. `None` means unlabelled; `Some("pass")` is the transparent
    /// passthrough label.
    pub label: Option<Spanned<String>>,
    /// `place` — assignable. Only reachable after a label.
    pub place: bool,
    pub span: Span,
}

impl Alternative {
    pub open spec fn is_pass_spec(&self) -> bool {
        self.label matches Some(l) && l.value@ == "pass"@
    }

    /// Whether this alternative is transparent (`-> pass`).
    pub fn is_pass(&self) -> (b: bool)
        ensures
            b == self.is_pass_spec(),
    {
        match &self.label {
            Some(l) => str_eq(l.value.as_str(), "pass"),
            None => false,
        }
    }
}

#[derive(Debug)]
pub struct RecoverDef {
    pub rule: Spanned<String>,
    pub sync: Expr,
    pub span: Span,
}

#[derive(Debug)]
pub struct ExpectDef {
    pub literal: Spanned<String>,
    /// `rule` or `rule.label`.
    pub target: Vec<Spanned<String>>,
    pub message: Spanned<String>,
    pub span: Span,
}

/// `allow <lint> in <rule>;`
#[derive(Debug)]
pub struct AllowDef {
    pub lint: Spanned<String>,
    pub rule: Spanned<String>,
    pub span: Span,
}

// ---------------------------------------------------------------------------
// Expressions
// ---------------------------------------------------------------------------

#[derive(Debug)]
pub struct Expr {
    pub kind: ExprKind,
    pub span: Span,
}

#[derive(Debug)]
pub enum ExprKind {
    /// Juxtaposition: `a b c`.
    Sequence(Vec<Expr>),
    /// Ordered choice: `a | b`. Order is significant and never rewritten.
    Choice(Vec<Expr>),
    Repeat { inner: Box<Expr>, kind: RepeatKind },
    Lookahead { inner: Box<Expr>, negative: bool },
    /// `name:expr` — lowers to a pest node tag.
    Bind {
        name: Spanned<String>,
        inner: Box<Expr>,
        /// `lazy name:expr` — the handler receives it unevaluated.
        lazy: bool,
    },
    Literal { value: String, case_insensitive: bool },
    CharRange { lo: String, hi: String },
    /// A reference to a rule, token, or builtin.
    Ref(String),
}

#[derive(Clone, Copy, PartialEq, Eq, Structural, Debug)]
pub enum RepeatKind {
    ZeroOrMore,
    OneOrMore,
    Optional,
}

// ---------------------------------------------------------------------------
// Precedence
// ---------------------------------------------------------------------------

#[derive(Debug)]
pub struct PrecedenceBlock {
    /// `precedence override { .. }` adjusts a preset instead of replacing it.
    pub is_override: bool,
    pub entries: Vec<PrecEntry>,
    pub span: Span,
}

#[derive(Debug)]
pub enum PrecEntry {
    /// `atom primary;` — names the rule the operator driver folds over.
    Atom { rule: Spanned<String>, span: Span },
    /// `remove "," "->";`
    Remove { ops: Vec<OpRef>, span: Span },
    Op(OpEntry),
}

#[derive(Debug)]
pub struct OpEntry {
    pub fixity: Spanned<Fixity>,
    pub ops: Vec<OpRef>,
    pub placement: Option<Placement>,
    /// `lazy(rhs)` — overrides the role's default laziness.
    pub lazy: Vec<Spanned<String>>,
    /// `-> role`. When absent, the spelling→role map supplies it.
    pub role: Option<Spanned<String>>,
    pub span: Span,
}

#[derive(Debug)]
pub struct OpRef {
    /// `word "AND"` — identifier-shaped, so it needs a boundary guard.
    pub word: bool,
    pub literal: Spanned<String>,
    pub span: Span,
}

#[derive(Clone, Copy, PartialEq, Eq, Structural, PartialOrd, Ord, Hash, Debug)]
pub enum Fixity {
    Left,
    Right,
    Prefix,
    Postfix,
}

#[derive(Debug)]
pub struct Placement {
    pub direction: Direction,
    pub anchor: Spanned<String>,
    pub span: Span,
}

#[derive(Clone, Copy, PartialEq, Eq, Structural, Debug)]
pub enum Direction {
    Above,
    Below,
}

} // verus!
